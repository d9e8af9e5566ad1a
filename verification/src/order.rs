//! The order in which packages that depend on each other are added.
use indexmap::IndexSet;
use std::collections::HashSet;
use vstd::prelude::*;
use vstd::string::*;

use crate::bound::{lemma_unused_decreases, unused};
use crate::error::{failure_at, Error, ErrorView};
use crate::numbers::{add_number, has_number, into_numbers, new_numbers, numbers_in};
use crate::types::Span;

verus! {

/// For each package, the packages that it depends on and where it says so.
pub type Graph = Seq<Seq<(usize, Span)>>;

/// The numbers in a set as integers.
pub open spec fn as_ints(set: Set<usize>) -> Set<int> {
    Set::new(|i: int| 0 <= i <= usize::MAX && set.contains(i as usize))
}

/// How many packages can still be entered.
pub open spec fn room(graph: Graph, visiting: Set<usize>) -> nat {
    unused(graph.len(), as_ints(visiting))
}

pub proof fn lemma_room(graph: Graph, visiting: Set<usize>, dep: usize)
    requires
        dep < graph.len(),
        !visiting.contains(dep),
    ensures
        room(graph, visiting.insert(dep)) < room(graph, visiting),
{
    assert(as_ints(visiting.insert(dep)) =~= as_ints(visiting).insert(dep as int));
    lemma_unused_decreases(graph.len(), as_ints(visiting), dep as int);
}

/// Puts a package behind those that are in order already, after everything that it depends on. It
/// must not depend on a package that is being visited. If it does, then the outcome is the package
/// and the place where it says so.
pub open spec fn visited(
    graph: Graph,
    order: Seq<usize>,
    visiting: Set<usize>,
    node: usize,
) -> Result<Seq<usize>, (usize, Span)>
    decreases room(graph, visiting), 1nat, 0nat,
{
    if order.contains(node) || node >= graph.len() {
        Ok(order)
    } else {
        match visited_deps(graph, order, visiting, node, graph[node as int].len()) {
            Err(place) => Err(place),
            Ok(order) => Ok(order.push(node)),
        }
    }
}

/// Puts the first `n` packages that a package depends on in order.
pub open spec fn visited_deps(
    graph: Graph,
    order: Seq<usize>,
    visiting: Set<usize>,
    node: usize,
    n: nat,
) -> Result<Seq<usize>, (usize, Span)>
    decreases room(graph, visiting), 0nat, n,
{
    if n == 0 {
        Ok(order)
    } else {
        match visited_deps(graph, order, visiting, node, (n - 1) as nat) {
            Err(place) => Err(place),
            Ok(order) => {
                let (dep, span) = graph[node as int][n - 1];
                if visiting.contains(dep) {
                    Err((node, span))
                } else if dep < graph.len() {
                    proof {
                        lemma_room(graph, visiting, dep);
                    }
                    visited(graph, order, visiting.insert(dep), dep)
                } else {
                    Ok(order)
                }
            },
        }
    }
}

/// Puts the first `n` of some packages in order.
pub open spec fn visited_all(graph: Graph, nodes: Seq<usize>, n: nat) -> Result<
    Seq<usize>,
    (usize, Span),
>
    decreases n,
{
    if n == 0 {
        Ok(Seq::empty())
    } else {
        match visited_all(graph, nodes, (n - 1) as nat) {
            Err(place) => Err(place),
            Ok(order) => visited(graph, order, Set::empty(), nodes[n - 1]),
        }
    }
}

/// Packages in an order in which each one follows on those that it depends on, or a package that
/// depends on itself and the error for it.
pub open spec fn ordered(graph: Graph, nodes: Seq<usize>) -> Result<Seq<usize>, (usize, ErrorView)> {
    match visited_all(graph, nodes, nodes.len()) {
        Ok(order) => Ok(order),
        Err((node, span)) => Err((node, failure_at(span, "package depends on itself"@))),
    }
}

/// Every dependency is a package.
pub open spec fn graph_within(graph: Graph) -> bool {
    forall|i: int, j: int|
        #![trigger graph[i][j]]
        0 <= i < graph.len() && 0 <= j < graph[i].len() ==> graph[i][j].0 < graph.len()
}

proof fn lemma_visited_deps_stops(
    graph: Graph,
    order: Seq<usize>,
    visiting: Set<usize>,
    node: usize,
    m: nat,
    n: nat,
)
    requires
        m <= n,
    ensures
        visited_deps(graph, order, visiting, node, m).is_err() ==> visited_deps(
            graph,
            order,
            visiting,
            node,
            n,
        ) == visited_deps(graph, order, visiting, node, m),
    decreases n - m,
{
    if m < n {
        lemma_visited_deps_stops(graph, order, visiting, node, m, (n - 1) as nat);
    }
}

proof fn lemma_visited_all_stops(graph: Graph, nodes: Seq<usize>, m: nat, n: nat)
    requires
        m <= n,
    ensures
        visited_all(graph, nodes, m).is_err() ==> visited_all(graph, nodes, n) == visited_all(
            graph,
            nodes,
            m,
        ),
    decreases n - m,
{
    if m < n {
        lemma_visited_all_stops(graph, nodes, m, (n - 1) as nat);
    }
}

/// A package that depends on one that is being visited is not put in order.
proof fn lemma_visited_excludes(
    graph: Graph,
    order: Seq<usize>,
    visiting: Set<usize>,
    node: usize,
    other: usize,
    j: int,
)
    requires
        other < graph.len(),
        0 <= j < graph[other as int].len(),
        visiting.contains(graph[other as int][j].0),
        !order.contains(other),
    ensures
        visited(graph, order, visiting, node) matches Ok(after) ==> !after.contains(other),
    decreases room(graph, visiting), 1nat, 0nat,
{
    if !order.contains(node) && node < graph.len() {
        let n = graph[node as int].len();
        if node == other {
            lemma_visited_deps_stops(graph, order, visiting, node, (j + 1) as nat, n);
        } else {
            lemma_visited_deps_exclude(graph, order, visiting, node, n, other, j);
        }
    }
}

proof fn lemma_visited_deps_exclude(
    graph: Graph,
    order: Seq<usize>,
    visiting: Set<usize>,
    node: usize,
    n: nat,
    other: usize,
    j: int,
)
    requires
        other < graph.len(),
        0 <= j < graph[other as int].len(),
        visiting.contains(graph[other as int][j].0),
        !order.contains(other),
    ensures
        visited_deps(graph, order, visiting, node, n) matches Ok(after) ==> !after.contains(other),
    decreases room(graph, visiting), 0nat, n,
{
    if n > 0 {
        let m = (n - 1) as nat;
        lemma_visited_deps_exclude(graph, order, visiting, node, m, other, j);
        if let Ok(order) = visited_deps(graph, order, visiting, node, m) {
            let dep = graph[node as int][n - 1].0;
            if !visiting.contains(dep) && dep < graph.len() {
                lemma_room(graph, visiting, dep);
                lemma_visited_excludes(graph, order, visiting.insert(dep), dep, other, j);
            }
        }
    }
}

/// Visiting what a package depends on does not put the package itself in order.
proof fn lemma_deps_come_first(
    graph: Graph,
    order: Seq<usize>,
    visiting: Set<usize>,
    node: usize,
    n: nat,
)
    requires
        node < graph.len(),
        n <= graph[node as int].len(),
        !order.contains(node),
    ensures
        visited_deps(graph, order, visiting, node, n) matches Ok(after) ==> !after.contains(node),
    decreases n,
{
    if n > 0 {
        let m = (n - 1) as nat;
        lemma_deps_come_first(graph, order, visiting, node, m);
        if let Ok(order) = visited_deps(graph, order, visiting, node, m) {
            let dep = graph[node as int][n - 1].0;
            if !visiting.contains(dep) && dep < graph.len() {
                lemma_visited_excludes(graph, order, visiting.insert(dep), dep, node, n - 1);
            }
        }
    }
}

/// The dependencies of packages.
pub open spec fn graph_of(deps: Seq<Vec<(usize, Span)>>) -> Graph {
    Seq::new(deps.len(), |i: int| deps[i]@)
}

/// What is wrong when a package depends on itself.
fn cycle_error(span: Span) -> (error: Error)
    ensures
        error@ == failure_at(span, "package depends on itself"@),
{
    Error::at(span, "package depends on itself".to_owned())
}

fn visit(
    node: usize,
    deps: &Vec<Vec<(usize, Span)>>,
    order: &mut IndexSet<usize>,
    visiting: &mut HashSet<usize>,
) -> (result: Result<(), (usize, Error)>)
    requires
        graph_within(graph_of(deps@)),
        node < deps@.len(),
    ensures
        match (result, visited(
            graph_of(deps@),
            numbers_in(*old(order)),
            old(visiting)@,
            node,
        )) {
            (Ok(_), Ok(expected)) => numbers_in(*final(order)) == expected && final(visiting)@
                == old(visiting)@,
            (Err((node, error)), Err((expected, span))) => node == expected && error@ == failure_at(
                span,
                "package depends on itself"@,
            ),
            _ => false,
        },
    decreases room(graph_of(deps@), old(visiting)@),
{
    broadcast use vstd::std_specs::hash::group_hash_axioms;

    if has_number(order, node) {
        return Ok(());
    }
    let ghost graph = graph_of(deps@);
    let ghost start = numbers_in(*order);
    let ghost entered = visiting@;
    let n: usize = deps[node].len();
    for i in 0..n
        invariant
            graph == graph_of(deps@),
            graph_within(graph),
            node < deps@.len(),
            n == deps@[node as int]@.len(),
            n == graph[node as int].len(),
            visiting@ == entered,
            entered == old(visiting)@,
            start == numbers_in(*old(order)),
            !start.contains(node),
            visited_deps(graph, start, entered, node, i as nat) == Ok::<
                Seq<usize>,
                (usize, Span),
            >(numbers_in(*order)),
    {
        let (dep, span) = deps[node][i];
        assert(graph[node as int][i as int] == (dep, span));
        proof {
            lemma_visited_deps_stops(graph, start, entered, node, (i + 1) as nat, n as nat);
        }
        if !visiting.insert(dep) {
            return Err((node, cycle_error(span)));
        }
        proof {
            lemma_room(graph, entered, dep);
        }
        if let Err(error) = visit(dep, deps, order, visiting) {
            return Err(error);
        }
        visiting.remove(&dep);
        assert(visiting@ =~= entered);
    }
    proof {
        lemma_deps_come_first(graph, start, entered, node, n as nat);
    }
    add_number(order, node);
    Ok(())
}

/// Performs a simple topological sort of some packages which will bail out on cycles and otherwise
/// determines the order that the packages must be added in. An error comes with the package that
/// it is about.
pub fn sort_packages(nodes: &Vec<usize>, deps: &Vec<Vec<(usize, Span)>>) -> (result: Result<
    Vec<usize>,
    (usize, Error),
>)
    requires
        graph_within(graph_of(deps@)),
        forall|i: int| 0 <= i < nodes@.len() ==> #[trigger] nodes@[i] < deps@.len(),
    ensures
        match (result, ordered(graph_of(deps@), nodes@)) {
            (Ok(order), Ok(expected)) => order@ == expected,
            (Err((node, error)), Err((expected_node, expected))) => node == expected_node && error@
                == expected,
            _ => false,
        },
{
    broadcast use vstd::std_specs::hash::group_hash_axioms;

    let ghost graph = graph_of(deps@);
    let mut order = new_numbers();
    let mut visiting: HashSet<usize> = HashSet::new();
    let n: usize = nodes.len();
    assert(visiting@ =~= Set::empty());
    for i in 0..n
        invariant
            n == nodes@.len(),
            graph == graph_of(deps@),
            graph_within(graph),
            forall|i: int| 0 <= i < nodes@.len() ==> #[trigger] nodes@[i] < deps@.len(),
            visiting@ == Set::<usize>::empty(),
            visited_all(graph, nodes@, i as nat) == Ok::<Seq<usize>, (usize, Span)>(
                numbers_in(order),
            ),
    {
        proof {
            lemma_visited_all_stops(graph, nodes@, (i + 1) as nat, n as nat);
        }
        if let Err(error) = visit(nodes[i], deps, &mut order, &mut visiting) {
            return Err(error);
        }
    }
    Ok(into_numbers(order))
}

/// No package occurs twice, and each one follows on those that it depends on.
pub open spec fn settled(graph: Graph, order: Seq<usize>) -> bool {
    &&& order.no_duplicates()
    &&& forall|k: int| 0 <= k < order.len() ==> #[trigger] order[k] < graph.len()
    &&& forall|k: int, j: int|
        #![trigger graph[order[k] as int][j]]
        0 <= k < order.len() && 0 <= j < graph[order[k] as int].len() ==> order.take(k).contains(
            graph[order[k] as int][j].0,
        )
}

proof fn lemma_visited_settles(
    graph: Graph,
    order: Seq<usize>,
    visiting: Set<usize>,
    node: usize,
)
    requires
        graph_within(graph),
        settled(graph, order),
        node < graph.len(),
    ensures
        visited(graph, order, visiting, node) matches Ok(after) ==> {
            &&& settled(graph, after)
            &&& order.is_prefix_of(after)
            &&& after.contains(node)
            &&& !order.contains(node) ==> after.last() == node
        },
    decreases room(graph, visiting), 1nat, 0nat,
{
    if !order.contains(node) {
        let n = graph[node as int].len();
        lemma_visited_deps_settle(graph, order, visiting, node, n);
        lemma_deps_come_first(graph, order, visiting, node, n);
        if let Ok(before) = visited_deps(graph, order, visiting, node, n) {
            let after = before.push(node);
            assert(after[before.len() as int] == node);
            assert forall|k: int, j: int|
                #![trigger graph[after[k] as int][j]]
                0 <= k < after.len() && 0 <= j < graph[after[k] as int].len() implies after.take(
                k,
            ).contains(graph[after[k] as int][j].0) by {
                assert(after.take(k) =~= before.take(k));
                if k < before.len() {
                    assert(after[k] == before[k]);
                    assert(before.take(k).contains(graph[before[k] as int][j].0));
                } else {
                    assert(before.take(k) =~= before);
                }
            }
            assert(order.is_prefix_of(after));
        }
    }
}

proof fn lemma_visited_deps_settle(
    graph: Graph,
    order: Seq<usize>,
    visiting: Set<usize>,
    node: usize,
    n: nat,
)
    requires
        graph_within(graph),
        settled(graph, order),
        node < graph.len(),
        n <= graph[node as int].len(),
    ensures
        visited_deps(graph, order, visiting, node, n) matches Ok(after) ==> {
            &&& settled(graph, after)
            &&& order.is_prefix_of(after)
            &&& forall|j: int| 0 <= j < n ==> after.contains((#[trigger] graph[node as int][j]).0)
        },
    decreases room(graph, visiting), 0nat, n,
{
    if n > 0 {
        let m = (n - 1) as nat;
        lemma_visited_deps_settle(graph, order, visiting, node, m);
        if let Ok(before) = visited_deps(graph, order, visiting, node, m) {
            let dep = graph[node as int][n - 1].0;
            if !visiting.contains(dep) {
                lemma_room(graph, visiting, dep);
                lemma_visited_settles(graph, before, visiting.insert(dep), dep);
                if let Ok(after) = visited(graph, before, visiting.insert(dep), dep) {
                    lemma_prefix_contains(before, after);
                }
            }
        }
    }
}

proof fn lemma_prefix_contains(before: Seq<usize>, after: Seq<usize>)
    requires
        before.is_prefix_of(after),
    ensures
        forall|x: usize| before.contains(x) ==> #[trigger] after.contains(x),
{
    assert forall|x: usize| before.contains(x) implies #[trigger] after.contains(x) by {
        let i = choose|i: int| 0 <= i < before.len() && before[i] == x;
        assert(after[i] == x);
    }
}

proof fn lemma_visited_all_settles(graph: Graph, nodes: Seq<usize>, n: nat)
    requires
        graph_within(graph),
        n <= nodes.len(),
        forall|i: int| 0 <= i < nodes.len() ==> #[trigger] nodes[i] < graph.len(),
    ensures
        visited_all(graph, nodes, n) matches Ok(order) ==> {
            &&& settled(graph, order)
            &&& forall|i: int| 0 <= i < n ==> order.contains(#[trigger] nodes[i])
        },
    decreases n,
{
    if n > 0 {
        lemma_visited_all_settles(graph, nodes, (n - 1) as nat);
        if let Ok(before) = visited_all(graph, nodes, (n - 1) as nat) {
            lemma_visited_settles(graph, before, Set::empty(), nodes[n - 1]);
            if let Ok(after) = visited(graph, before, Set::empty(), nodes[n - 1]) {
                lemma_prefix_contains(before, after);
            }
        }
    }
}

/// Packages that can be put in order are all there, none of them twice, and each one follows on
/// those that it depends on.
pub proof fn dependencies_come_first(graph: Graph, nodes: Seq<usize>)
    requires
        graph_within(graph),
        forall|i: int| 0 <= i < nodes.len() ==> #[trigger] nodes[i] < graph.len(),
    ensures
        ordered(graph, nodes) matches Ok(order) ==> {
            &&& settled(graph, order)
            &&& forall|i: int| 0 <= i < nodes.len() ==> order.contains(#[trigger] nodes[i])
        },
{
    lemma_visited_all_settles(graph, nodes, nodes.len());
}

/// One package depends on another.
pub open spec fn depends_on(graph: Graph, a: usize, b: usize) -> bool {
    &&& a < graph.len()
    &&& exists|j: int| 0 <= j < graph[a as int].len() && (#[trigger] graph[a as int][j]).0 == b
}

/// A walk along dependencies.
pub open spec fn is_walk(graph: Graph, walk: Seq<usize>) -> bool {
    &&& walk.len() > 0
    &&& forall|i: int| 0 <= i < walk.len() - 1 ==> depends_on(graph, #[trigger] walk[i], walk[i + 1])
}

/// One package depends on another, directly or not, or is that package.
pub open spec fn reaches(graph: Graph, a: usize, b: usize) -> bool {
    exists|walk: Seq<usize>| #[trigger]
        is_walk(graph, walk) && walk.first() == a && walk.last() == b
}

/// A package depends on itself.
pub open spec fn on_cycle(graph: Graph, a: usize) -> bool {
    exists|b: usize| #[trigger] reaches(graph, a, b) && depends_on(graph, b, a)
}

/// A walk can go on.
pub proof fn lemma_reaches_step(graph: Graph, a: usize, b: usize, c: usize)
    requires
        reaches(graph, a, b),
        depends_on(graph, b, c),
    ensures
        reaches(graph, a, c),
{
    let walk = choose|walk: Seq<usize>| #[trigger]
        is_walk(graph, walk) && walk.first() == a && walk.last() == b;
    let longer = walk.push(c);
    assert forall|i: int| 0 <= i < longer.len() - 1 implies depends_on(
        graph,
        #[trigger] longer[i],
        longer[i + 1],
    ) by {
        if i < walk.len() - 1 {
            assert(depends_on(graph, walk[i], walk[i + 1]));
        }
    }
    assert(is_walk(graph, longer));
    assert(longer.first() == a && longer.last() == c);
}

/// A package reaches itself.
pub proof fn lemma_reaches_self(graph: Graph, a: usize)
    ensures
        reaches(graph, a, a),
{
    let walk = seq![a];
    assert(is_walk(graph, walk));
    assert(walk.first() == a && walk.last() == a);
}

/// Everything that a package depends on, directly or not, stands in order with it, and not behind
/// it.
proof fn lemma_walk_settled(graph: Graph, order: Seq<usize>, walk: Seq<usize>, n: int) -> (at: int)
    requires
        settled(graph, order),
        is_walk(graph, walk),
        order.contains(walk.first()),
        0 <= n < walk.len(),
    ensures
        0 <= at < order.len(),
        order[at] == walk[n],
        forall|k: int| 0 <= k < order.len() && order[k] == walk.first() ==> at <= k,
        forall|k: int| 0 <= k < order.len() && order[k] == walk.first() && n > 0 ==> at < k,
    decreases n,
{
    if n == 0 {
        let at = choose|i: int| 0 <= i < order.len() && order[i] == walk.first();
        assert forall|k: int| 0 <= k < order.len() && order[k] == walk.first() implies at <= k by {}
        at
    } else {
        let before = lemma_walk_settled(graph, order, walk, n - 1);
        assert(depends_on(graph, walk[n - 1], walk[n - 1 + 1]));
        let j = choose|j: int|
            0 <= j < graph[walk[n - 1] as int].len() && (
            #[trigger] graph[walk[n - 1] as int][j]).0 == walk[n];
        assert(graph[order[before] as int][j].0 == walk[n]);
        let front = order.take(before);
        let at = choose|i: int| 0 <= i < front.len() && front[i] == walk[n];
        assert(order[at] == walk[n]);
        at
    }
}

/// Packages in order do not depend on themselves.
proof fn lemma_settled_acyclic(graph: Graph, order: Seq<usize>, a: usize)
    requires
        settled(graph, order),
        order.contains(a),
    ensures
        !on_cycle(graph, a),
{
    if on_cycle(graph, a) {
        let b = choose|b: usize| #[trigger] reaches(graph, a, b) && depends_on(graph, b, a);
        let walk = choose|walk: Seq<usize>| #[trigger]
            is_walk(graph, walk) && walk.first() == a && walk.last() == b;
        let longer = walk.push(a);
        assert forall|i: int| 0 <= i < longer.len() - 1 implies depends_on(
            graph,
            #[trigger] longer[i],
            longer[i + 1],
        ) by {
            if i < walk.len() - 1 {
                assert(depends_on(graph, walk[i], walk[i + 1]));
            }
        }
        let at = lemma_walk_settled(graph, order, longer, longer.len() - 1);
        assert(order[at] == a);
    }
}

/// If a package cannot be put in order then some package depends on itself.
proof fn lemma_visited_finds_cycle(
    graph: Graph,
    order: Seq<usize>,
    visiting: Set<usize>,
    node: usize,
)
    requires
        node < graph.len(),
        forall|v: usize| #[trigger] visiting.contains(v) ==> reaches(graph, v, node),
    ensures
        visited(graph, order, visiting, node).is_err() ==> exists|a: usize| on_cycle(graph, a),
    decreases room(graph, visiting), 1nat, 0nat,
{
    if !order.contains(node) {
        lemma_visited_deps_find_cycle(graph, order, visiting, node, graph[node as int].len());
    }
}

proof fn lemma_visited_deps_find_cycle(
    graph: Graph,
    order: Seq<usize>,
    visiting: Set<usize>,
    node: usize,
    n: nat,
)
    requires
        node < graph.len(),
        n <= graph[node as int].len(),
        forall|v: usize| #[trigger] visiting.contains(v) ==> reaches(graph, v, node),
    ensures
        visited_deps(graph, order, visiting, node, n).is_err() ==> exists|a: usize|
            on_cycle(graph, a),
    decreases room(graph, visiting), 0nat, n,
{
    if n > 0 {
        let m = (n - 1) as nat;
        lemma_visited_deps_find_cycle(graph, order, visiting, node, m);
        if let Ok(order) = visited_deps(graph, order, visiting, node, m) {
            let dep = graph[node as int][n - 1].0;
            assert(depends_on(graph, node, dep));
            if visiting.contains(dep) {
                assert(reaches(graph, dep, node));
                assert(on_cycle(graph, dep));
            } else if dep < graph.len() {
                let inner = visiting.insert(dep);
                assert forall|v: usize| #[trigger] inner.contains(v) implies reaches(
                    graph,
                    v,
                    dep,
                ) by {
                    if v == dep {
                        lemma_reaches_self(graph, dep);
                    } else {
                        assert(visiting.contains(v));
                        lemma_reaches_step(graph, v, node, dep);
                    }
                }
                lemma_room(graph, visiting, dep);
                lemma_visited_finds_cycle(graph, order, inner, dep);
            }
        }
    }
}

proof fn lemma_visited_all_finds_cycle(graph: Graph, nodes: Seq<usize>, n: nat)
    requires
        n <= nodes.len(),
        forall|i: int| 0 <= i < nodes.len() ==> #[trigger] nodes[i] < graph.len(),
    ensures
        visited_all(graph, nodes, n).is_err() ==> exists|a: usize| on_cycle(graph, a),
    decreases n,
{
    if n > 0 {
        lemma_visited_all_finds_cycle(graph, nodes, (n - 1) as nat);
        if let Ok(order) = visited_all(graph, nodes, (n - 1) as nat) {
            lemma_visited_finds_cycle(graph, order, Set::empty(), nodes[n - 1]);
        }
    }
}

/// All packages can be put in order if and only if none of them depends on itself.
pub proof fn ordered_unless_cyclic(graph: Graph, nodes: Seq<usize>)
    requires
        graph_within(graph),
        forall|i: int| 0 <= i < nodes.len() ==> #[trigger] nodes[i] < graph.len(),
        forall|a: usize| a < graph.len() ==> #[trigger] nodes.contains(a),
    ensures
        ordered(graph, nodes).is_ok() <==> forall|a: usize| !on_cycle(graph, a),
{
    lemma_visited_all_finds_cycle(graph, nodes, nodes.len());
    dependencies_come_first(graph, nodes);
    if let Ok(order) = ordered(graph, nodes) {
        assert forall|a: usize| !on_cycle(graph, a) by {
            if on_cycle(graph, a) {
                let b = choose|b: usize| #[trigger] reaches(graph, a, b) && depends_on(graph, b, a);
                let j = choose|j: int|
                    0 <= j < graph[b as int].len() && (#[trigger] graph[b as int][j]).0 == a;
                assert(nodes.contains(a));
                let i = choose|i: int| 0 <= i < nodes.len() && nodes[i] == a;
                assert(order.contains(nodes[i]));
                lemma_settled_acyclic(graph, order, a);
            }
        }
    }
}

/// If the first of some packages depends on all of them, directly or not, then it comes last.
pub proof fn root_comes_last(graph: Graph, nodes: Seq<usize>)
    requires
        graph_within(graph),
        nodes.len() > 0,
        forall|i: int| 0 <= i < nodes.len() ==> #[trigger] nodes[i] < graph.len(),
        forall|i: int| 0 <= i < nodes.len() ==> reaches(graph, nodes[0], #[trigger] nodes[i]),
    ensures
        ordered(graph, nodes) matches Ok(order) ==> order.len() > 0 && order.last() == nodes[0],
{
    lemma_root_comes_last(graph, nodes, nodes.len());
}

proof fn lemma_root_comes_last(graph: Graph, nodes: Seq<usize>, n: nat)
    requires
        graph_within(graph),
        0 < n <= nodes.len(),
        forall|i: int| 0 <= i < nodes.len() ==> #[trigger] nodes[i] < graph.len(),
        forall|i: int| 0 <= i < nodes.len() ==> reaches(graph, nodes[0], #[trigger] nodes[i]),
    ensures
        visited_all(graph, nodes, n) matches Ok(order) ==> order.len() > 0 && order.last()
            == nodes[0],
    decreases n,
{
    if n == 1 {
        assert(visited_all(graph, nodes, 0) == Ok::<Seq<usize>, (usize, Span)>(Seq::empty()));
        lemma_visited_settles(graph, Seq::empty(), Set::empty(), nodes[0]);
    } else {
        lemma_root_comes_last(graph, nodes, (n - 1) as nat);
        lemma_visited_all_settles(graph, nodes, (n - 1) as nat);
        if let Ok(order) = visited_all(graph, nodes, (n - 1) as nat) {
            assert(reaches(graph, nodes[0], nodes[n - 1]));
            let walk = choose|walk: Seq<usize>| #[trigger]
                is_walk(graph, walk) && walk.first() == nodes[0] && walk.last() == nodes[n - 1];
            assert(order.contains(nodes[0]));
            lemma_walk_settled(graph, order, walk, walk.len() - 1);
            assert(order.contains(nodes[n - 1]));
        }
    }
}

/// A package depends on something that depends on it, directly or not, and says so at a place.
pub open spec fn closes_cycle(graph: Graph, node: usize, span: Span) -> bool {
    &&& node < graph.len()
    &&& exists|j: int|
        0 <= j < graph[node as int].len() && (#[trigger] graph[node as int][j]).1 == span
            && reaches(graph, graph[node as int][j].0, node)
}

proof fn lemma_visited_closes(graph: Graph, order: Seq<usize>, visiting: Set<usize>, node: usize)
    requires
        node < graph.len(),
        forall|v: usize| #[trigger] visiting.contains(v) ==> reaches(graph, v, node),
    ensures
        visited(graph, order, visiting, node) matches Err((at, span)) ==> closes_cycle(
            graph,
            at,
            span,
        ),
    decreases room(graph, visiting), 1nat, 0nat,
{
    if !order.contains(node) {
        lemma_visited_deps_close(graph, order, visiting, node, graph[node as int].len());
    }
}

proof fn lemma_visited_deps_close(
    graph: Graph,
    order: Seq<usize>,
    visiting: Set<usize>,
    node: usize,
    n: nat,
)
    requires
        node < graph.len(),
        n <= graph[node as int].len(),
        forall|v: usize| #[trigger] visiting.contains(v) ==> reaches(graph, v, node),
    ensures
        visited_deps(graph, order, visiting, node, n) matches Err((at, span)) ==> closes_cycle(
            graph,
            at,
            span,
        ),
    decreases room(graph, visiting), 0nat, n,
{
    if n > 0 {
        let m = (n - 1) as nat;
        lemma_visited_deps_close(graph, order, visiting, node, m);
        if let Ok(order) = visited_deps(graph, order, visiting, node, m) {
            let (dep, span) = graph[node as int][n - 1];
            assert(graph[node as int][n - 1].0 == dep);
            assert(depends_on(graph, node, dep));
            if visiting.contains(dep) {
                assert(reaches(graph, dep, node));
                assert(closes_cycle(graph, node, span));
            } else if dep < graph.len() {
                let inner = visiting.insert(dep);
                assert forall|v: usize| #[trigger] inner.contains(v) implies reaches(
                    graph,
                    v,
                    dep,
                ) by {
                    if v == dep {
                        lemma_reaches_self(graph, dep);
                    } else {
                        assert(visiting.contains(v));
                        lemma_reaches_step(graph, v, node, dep);
                    }
                }
                lemma_room(graph, visiting, dep);
                lemma_visited_closes(graph, order, inner, dep);
            }
        }
    }
}

proof fn lemma_visited_all_closes(graph: Graph, nodes: Seq<usize>, n: nat)
    requires
        n <= nodes.len(),
        forall|i: int| 0 <= i < nodes.len() ==> #[trigger] nodes[i] < graph.len(),
    ensures
        visited_all(graph, nodes, n) matches Err((at, span)) ==> closes_cycle(graph, at, span),
    decreases n,
{
    if n > 0 {
        lemma_visited_all_closes(graph, nodes, (n - 1) as nat);
        if let Ok(order) = visited_all(graph, nodes, (n - 1) as nat) {
            lemma_visited_closes(graph, order, Set::empty(), nodes[n - 1]);
        }
    }
}

/// What is reported of packages that cannot be put in order is one that depends on itself, at a
/// place where it says that it depends on something that leads back to it.
pub proof fn cycles_are_reported_where_they_close(graph: Graph, nodes: Seq<usize>)
    requires
        forall|i: int| 0 <= i < nodes.len() ==> #[trigger] nodes[i] < graph.len(),
    ensures
        ordered(graph, nodes) matches Err((at, error)) ==> {
            &&& error.span matches Some(span) && closes_cycle(graph, at, span)
            &&& error.msg == "package depends on itself"@
            &&& error.context.len() == 0
        },
{
    lemma_visited_all_closes(graph, nodes, nodes.len());
}

/// One of the first `n` packages of a list leads to another, directly or not.
pub open spec fn leads_to(graph: Graph, nodes: Seq<usize>, n: int, to: usize) -> bool {
    exists|i: int| 0 <= i < n && i < nodes.len() && reaches(graph, #[trigger] nodes[i], to)
}

/// What a package depends on.
pub open spec fn dependencies(graph: Graph, node: usize) -> Seq<usize> {
    graph[node as int].map_values(|dep: (usize, Span)| dep.0)
}

proof fn lemma_reaches_front(graph: Graph, a: usize, b: usize, c: usize)
    requires
        depends_on(graph, a, b),
        reaches(graph, b, c),
    ensures
        reaches(graph, a, c),
{
    let walk = choose|walk: Seq<usize>| #[trigger]
        is_walk(graph, walk) && walk.first() == b && walk.last() == c;
    let longer = seq![a] + walk;
    assert forall|i: int| 0 <= i < longer.len() - 1 implies depends_on(
        graph,
        #[trigger] longer[i],
        longer[i + 1],
    ) by {
        if i > 0 {
            assert(depends_on(graph, walk[i - 1], walk[i - 1 + 1]));
            assert(longer[i] == walk[i - 1]);
        }
    }
    assert(is_walk(graph, longer));
    assert(longer.first() == a && longer.last() == c);
}

/// Only what a package leads to is put in order for it.
proof fn lemma_visited_reached(graph: Graph, order: Seq<usize>, visiting: Set<usize>, node: usize)
    requires
        graph_within(graph),
        node < graph.len(),
    ensures
        visited(graph, order, visiting, node) matches Ok(after) ==> forall|x: usize| #[trigger]
            after.contains(x) ==> order.contains(x) || reaches(graph, node, x),
    decreases room(graph, visiting), 1nat, 0nat,
{
    lemma_reaches_self(graph, node);
    if !order.contains(node) {
        let n = graph[node as int].len();
        let deps = dependencies(graph, node);
        lemma_visited_deps_reached(graph, order, visiting, node, n);
        if let Ok(before) = visited_deps(graph, order, visiting, node, n) {
            let after = before.push(node);
            assert forall|x: usize| #[trigger] after.contains(x) implies order.contains(x)
                || reaches(graph, node, x) by {
                let p = choose|p: int| 0 <= p < after.len() && after[p] == x;
                if p < before.len() {
                    assert(before[p] == x);
                    assert(before.contains(x));
                    if !order.contains(x) {
                        let i = choose|i: int|
                            0 <= i < n && i < deps.len() && reaches(graph, #[trigger] deps[i], x);
                        assert(graph[node as int][i].0 == deps[i]);
                        assert(depends_on(graph, node, deps[i]));
                        lemma_reaches_front(graph, node, deps[i], x);
                    }
                }
            }
        }
    }
}

proof fn lemma_visited_deps_reached(
    graph: Graph,
    order: Seq<usize>,
    visiting: Set<usize>,
    node: usize,
    n: nat,
)
    requires
        graph_within(graph),
        node < graph.len(),
        n <= graph[node as int].len(),
    ensures
        visited_deps(graph, order, visiting, node, n) matches Ok(after) ==> forall|x: usize|
            #[trigger] after.contains(x) ==> order.contains(x) || leads_to(
                graph,
                dependencies(graph, node),
                n as int,
                x,
            ),
    decreases room(graph, visiting), 0nat, n,
{
    if n > 0 {
        let m = (n - 1) as nat;
        let deps = dependencies(graph, node);
        lemma_visited_deps_reached(graph, order, visiting, node, m);
        if let Ok(before) = visited_deps(graph, order, visiting, node, m) {
            let dep = graph[node as int][n - 1].0;
            assert(deps[n - 1] == dep);
            if !visiting.contains(dep) {
                lemma_room(graph, visiting, dep);
                lemma_visited_reached(graph, before, visiting.insert(dep), dep);
                if let Ok(after) = visited(graph, before, visiting.insert(dep), dep) {
                    assert forall|x: usize| #[trigger] after.contains(x) implies order.contains(x)
                        || leads_to(graph, deps, n as int, x) by {
                        if before.contains(x) && !order.contains(x) {
                            let i = choose|i: int|
                                0 <= i < m && i < deps.len() && reaches(
                                    graph,
                                    #[trigger] deps[i],
                                    x,
                                );
                            assert(reaches(graph, deps[i], x));
                        } else if !order.contains(x) {
                            assert(reaches(graph, deps[n - 1], x));
                        }
                    }
                }
            }
        }
    }
}

/// What is in order with something that leads to it stands in it.
proof fn lemma_settled_closed(graph: Graph, order: Seq<usize>, a: usize, b: usize)
    requires
        settled(graph, order),
        order.contains(a),
        reaches(graph, a, b),
    ensures
        order.contains(b),
{
    let walk = choose|walk: Seq<usize>| #[trigger]
        is_walk(graph, walk) && walk.first() == a && walk.last() == b;
    let at = lemma_walk_settled(graph, order, walk, walk.len() - 1);
    assert(order[at] == b);
}

/// The first packages are put in order first.
proof fn lemma_visited_all_first(graph: Graph, nodes: Seq<usize>, m: nat, n: nat)
    requires
        graph_within(graph),
        m <= n <= nodes.len(),
        forall|i: int| 0 <= i < nodes.len() ==> #[trigger] nodes[i] < graph.len(),
        visited_all(graph, nodes, n).is_ok(),
    ensures
        visited_all(graph, nodes, m).is_ok(),
        visited_all(graph, nodes, m)->Ok_0.is_prefix_of(visited_all(graph, nodes, n)->Ok_0),
        forall|x: usize| #[trigger]
            visited_all(graph, nodes, m)->Ok_0.contains(x) <==> leads_to(
                graph,
                nodes,
                m as int,
                x,
            ),
    decreases n,
{
    lemma_visited_all_settles(graph, nodes, n);
    if m < n {
        let before = visited_all(graph, nodes, (n - 1) as nat)->Ok_0;
        lemma_visited_all_settles(graph, nodes, (n - 1) as nat);
        lemma_visited_settles(graph, before, Set::empty(), nodes[n - 1]);
        lemma_visited_all_first(graph, nodes, m, (n - 1) as nat);
    } else if n > 0 {
        let k = (n - 1) as nat;
        let before = visited_all(graph, nodes, k)->Ok_0;
        let after = visited_all(graph, nodes, n)->Ok_0;
        lemma_visited_all_settles(graph, nodes, k);
        lemma_visited_all_first(graph, nodes, k, k);
        lemma_visited_reached(graph, before, Set::empty(), nodes[n - 1]);
        assert forall|x: usize| #[trigger] after.contains(x) <==> leads_to(
            graph,
            nodes,
            n as int,
            x,
        ) by {
            if after.contains(x) {
                if before.contains(x) {
                    assert(leads_to(graph, nodes, k as int, x));
                } else {
                    assert(reaches(graph, nodes[n - 1], x));
                }
            }
            if leads_to(graph, nodes, n as int, x) {
                let i = choose|i: int|
                    0 <= i < n && i < nodes.len() && reaches(graph, #[trigger] nodes[i], x);
                assert(after.contains(nodes[i]));
                lemma_settled_closed(graph, after, nodes[i], x);
            }
        }
    }
}

/// Packages that are put in order are those that the packages of a list lead to and no others. They
/// stand in the order of the first one in the list that leads to them.
pub proof fn packages_follow_the_list(graph: Graph, nodes: Seq<usize>)
    requires
        graph_within(graph),
        forall|i: int| 0 <= i < nodes.len() ==> #[trigger] nodes[i] < graph.len(),
    ensures
        ordered(graph, nodes) matches Ok(order) ==> {
            &&& forall|x: usize| #[trigger]
                order.contains(x) <==> leads_to(graph, nodes, nodes.len() as int, x)
            &&& forall|p: int, q: int, n: int|
                0 <= p < q < order.len() && 0 <= n <= nodes.len() && #[trigger] leads_to(
                    graph,
                    nodes,
                    n,
                    order[q],
                ) ==> #[trigger] leads_to(graph, nodes, n, order[p])
        },
{
    if let Ok(order) = ordered(graph, nodes) {
        let count = nodes.len();
        lemma_visited_all_settles(graph, nodes, count);
        lemma_visited_all_first(graph, nodes, count, count);
        assert forall|p: int, q: int, n: int|
            0 <= p < q < order.len() && 0 <= n <= nodes.len() && #[trigger] leads_to(
                graph,
                nodes,
                n,
                order[q],
            ) implies #[trigger] leads_to(graph, nodes, n, order[p]) by {
            lemma_visited_all_first(graph, nodes, n as nat, count);
            let first = visited_all(graph, nodes, n as nat)->Ok_0;
            assert(first.contains(order[q]));
            let k = choose|k: int| 0 <= k < first.len() && first[k] == order[q];
            assert(order[k] == order[q]);
            assert(first[p] == order[p]);
            assert(first.contains(order[p]));
        }
    }
}

/// What a package depends on first is put in order first.
proof fn lemma_visited_deps_first(graph: Graph, visiting: Set<usize>, node: usize, m: nat, n: nat)
    requires
        graph_within(graph),
        node < graph.len(),
        m <= n <= graph[node as int].len(),
        visited_deps(graph, Seq::empty(), visiting, node, n).is_ok(),
    ensures
        visited_deps(graph, Seq::empty(), visiting, node, m).is_ok(),
        visited_deps(graph, Seq::empty(), visiting, node, m)->Ok_0.is_prefix_of(
            visited_deps(graph, Seq::empty(), visiting, node, n)->Ok_0,
        ),
        forall|x: usize| #[trigger]
            visited_deps(graph, Seq::empty(), visiting, node, m)->Ok_0.contains(x) <==> leads_to(
                graph,
                dependencies(graph, node),
                m as int,
                x,
            ),
    decreases n,
{
    let none = Seq::<usize>::empty();
    let deps = dependencies(graph, node);
    lemma_visited_deps_settle(graph, none, visiting, node, n);
    if n > 0 {
        let k = (n - 1) as nat;
        let before = visited_deps(graph, none, visiting, node, k)->Ok_0;
        let dep = graph[node as int][n - 1].0;
        lemma_visited_deps_settle(graph, none, visiting, node, k);
        assert(graph[node as int][n - 1].0 < graph.len());
        lemma_visited_settles(graph, before, visiting.insert(dep), dep);
        if m < n {
            lemma_visited_deps_first(graph, visiting, node, m, k);
        }
    }
    if m == n {
        let after = visited_deps(graph, none, visiting, node, n)->Ok_0;
        lemma_visited_deps_reached(graph, none, visiting, node, n);
        assert forall|x: usize| #[trigger] after.contains(x) <==> leads_to(
            graph,
            deps,
            n as int,
            x,
        ) by {
            if leads_to(graph, deps, n as int, x) {
                let i = choose|i: int|
                    0 <= i < n && i < deps.len() && reaches(graph, #[trigger] deps[i], x);
                assert(after.contains(graph[node as int][i].0));
                lemma_settled_closed(graph, after, deps[i], x);
            }
        }
    }
}

/// If the first of some packages depends on all of them then nothing else has to be put in order.
proof fn lemma_root_alone(graph: Graph, nodes: Seq<usize>)
    requires
        graph_within(graph),
        nodes.len() > 0,
        forall|i: int| 0 <= i < nodes.len() ==> #[trigger] nodes[i] < graph.len(),
        forall|i: int| 0 <= i < nodes.len() ==> reaches(graph, nodes[0], #[trigger] nodes[i]),
        visited_all(graph, nodes, nodes.len()).is_ok(),
    ensures
        visited_all(graph, nodes, nodes.len()) == visited(
            graph,
            Seq::empty(),
            Set::empty(),
            nodes[0],
        ),
{
    let order = visited_all(graph, nodes, nodes.len())->Ok_0;
    lemma_visited_all_settles(graph, nodes, nodes.len());
    lemma_visited_all_first(graph, nodes, 1, nodes.len());
    lemma_visited_all_settles(graph, nodes, 1);
    assert(visited_all(graph, nodes, 0) == Ok::<Seq<usize>, (usize, Span)>(Seq::empty()));
    let first = visited_all(graph, nodes, 1)->Ok_0;
    if first.len() < order.len() {
        let x = order[first.len() as int];
        assert(order.contains(x));
        assert(leads_to(graph, nodes, nodes.len() as int, x)) by {
            lemma_visited_all_first(graph, nodes, nodes.len(), nodes.len());
        }
        let i = choose|i: int|
            0 <= i < nodes.len() && i < nodes.len() && reaches(graph, #[trigger] nodes[i], x);
        assert(first.contains(nodes[0]));
        lemma_settled_closed(graph, first, nodes[0], nodes[i]);
        lemma_settled_closed(graph, first, nodes[i], x);
        let k = choose|k: int| 0 <= k < first.len() && first[k] == x;
        assert(order[k] == x);
        assert(false);
    }
    assert(first =~= order);
}

/// If the first of some packages depends on all of them, directly or not, then they stand in the
/// order of the first of its dependencies that leads to them.
pub proof fn packages_follow_the_dependencies_of_the_root(graph: Graph, nodes: Seq<usize>)
    requires
        graph_within(graph),
        nodes.len() > 0,
        forall|i: int| 0 <= i < nodes.len() ==> #[trigger] nodes[i] < graph.len(),
        forall|i: int| 0 <= i < nodes.len() ==> reaches(graph, nodes[0], #[trigger] nodes[i]),
    ensures
        ordered(graph, nodes) matches Ok(order) ==> forall|p: int, q: int, n: int|
            0 <= p < q < order.len() - 1 && 0 <= n <= graph[nodes[0] as int].len()
                && #[trigger] leads_to(graph, dependencies(graph, nodes[0]), n, order[q])
                ==> #[trigger] leads_to(graph, dependencies(graph, nodes[0]), n, order[p]),
{
    if let Ok(order) = ordered(graph, nodes) {
        lemma_root_alone(graph, nodes);
        assert(order == visited(graph, Seq::empty(), Set::empty(), nodes[0])->Ok_0);
        assert forall|p: int, q: int, n: int|
            0 <= p < q < order.len() - 1 && 0 <= n <= graph[nodes[0] as int].len()
                && #[trigger] leads_to(
                graph,
                dependencies(graph, nodes[0]),
                n,
                order[q],
            ) implies #[trigger] leads_to(
            graph,
            dependencies(graph, nodes[0]),
            n,
            order[p],
        ) by {
            lemma_follows(graph, nodes[0], p, q, n);
        }
    }
}

proof fn lemma_follows(graph: Graph, root: usize, p: int, q: int, n: int)
    requires
        graph_within(graph),
        root < graph.len(),
        visited(graph, Seq::empty(), Set::empty(), root).is_ok(),
        0 <= p < q < visited(graph, Seq::empty(), Set::empty(), root)->Ok_0.len() - 1,
        0 <= n <= graph[root as int].len(),
        leads_to(
            graph,
            dependencies(graph, root),
            n,
            visited(graph, Seq::empty(), Set::empty(), root)->Ok_0[q],
        ),
    ensures
        leads_to(
            graph,
            dependencies(graph, root),
            n,
            visited(graph, Seq::empty(), Set::empty(), root)->Ok_0[p],
        ),
{
    let none = Seq::<usize>::empty();
    let count = graph[root as int].len();
    let order = visited(graph, none, Set::empty(), root)->Ok_0;
    let front = visited_deps(graph, none, Set::empty(), root, count)->Ok_0;
    let some = visited_deps(graph, none, Set::empty(), root, n as nat)->Ok_0;
    assert(order == front.push(root));
    lemma_visited_deps_settle(graph, none, Set::empty(), root, count);
    lemma_visited_deps_first(graph, Set::empty(), root, n as nat, count);
    assert(some.contains(order[q]));
    let k = choose|k: int| 0 <= k < some.len() && some[k] == order[q];
    assert(front[k] == front[q]);
    assert(some[p] == order[p]);
    assert(some.contains(order[p]));
}

} // verus!
