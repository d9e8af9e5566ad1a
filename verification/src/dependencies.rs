//! Which packages the dependencies of a loaded package are, by name.
use vstd::prelude::*;

use crate::append::{can_push, pushed};
use crate::error::ErrorView;
use crate::link::{linked, Deps};
use crate::load::{lemma_loaded_graph, number_of, LoaderView};
use crate::loaded::{dep_ids, lemma_loaded_order, lemma_pushed_first, Added};
use crate::names::{distinct, find, lemma_find, put};
use crate::order::{ordered, settled};
use crate::package::UnresolvedView;
use crate::references::{offers, references_lead_to_what_they_name};
use crate::resolve::ResolveView;
use crate::types::{PackageId, Span};
use crate::validity::pushing_keeps_items;

verus! {

/// The dependencies of the package at position `k` of an order are the packages before it that were
/// asked for under their names, with `base` packages in front of the first.
pub open spec fn goes_by_name(
    loaded: LoaderView,
    order: Seq<usize>,
    base: nat,
    k: int,
    deps: Deps,
) -> bool {
    let package = loaded.packages[order[k] as int].unwrap();
    &&& distinct(deps)
    &&& forall|e: int|
        0 <= e < deps.len() ==> exists|j: int|
            0 <= j < package.foreign_deps.len() && (#[trigger] package.foreign_deps[j]).0 == (
            #[trigger] deps[e]).0
    &&& forall|j: int|
        0 <= j < package.foreign_deps.len() ==> exists|l: int|
            0 <= l < k && loaded.request(#[trigger] order[l]).name == Some(
                (#[trigger] package.foreign_deps[j]).0,
            ) && deps.contains((package.foreign_deps[j].0, (base + l) as usize))
}

/// Packages are pushed one by one, in order. Each one is pushed with dependencies that go by name,
/// and gets the id that comes next.
pub open spec fn pushed_in_turn(
    loaded: LoaderView,
    order: Seq<usize>,
    states: Seq<ResolveView>,
    deps: Seq<Deps>,
) -> bool {
    &&& states.len() == deps.len() + 1
    &&& deps.len() <= order.len()
    &&& forall|k: int|
        0 <= k < deps.len() ==> {
            let base = states[0].packages.len();
            &&& goes_by_name(loaded, order, base, k, #[trigger] deps[k])
            &&& pushed(states[k], loaded.packages[order[k] as int].unwrap(), deps[k]) == (
                states[k + 1],
                Ok::<PackageId, ErrorView>((base + k) as usize),
            )
        }
}

proof fn lemma_put(entries: Deps, name: Seq<char>, value: PackageId)
    requires
        distinct(entries),
    ensures
        distinct(put(entries, name, value)),
        put(entries, name, value).contains((name, value)),
        forall|e: int|
            0 <= e < put(entries, name, value).len() ==> (#[trigger] put(
                entries,
                name,
                value,
            )[e]).0 == name || exists|i: int|
                0 <= i < entries.len() && (#[trigger] entries[i]).0 == put(
                    entries,
                    name,
                    value,
                )[e].0,
        forall|other: (Seq<char>, PackageId)|
            #[trigger] entries.contains(other) && other.0 != name ==> put(
                entries,
                name,
                value,
            ).contains(other),
{
    lemma_find(entries, name);
    let after = put(entries, name, value);
    let at = match find(entries, name) {
        Some(i) => i,
        None => entries.len() as int,
    };
    assert(after[at] == (name, value));
    assert forall|e: int| 0 <= e < after.len() implies (#[trigger] after[e]).0 == name || exists|
        i: int,
    |
        0 <= i < entries.len() && (#[trigger] entries[i]).0 == after[e].0 by {
        if e != at {
            assert(entries[e].0 == after[e].0);
        }
    }
    assert forall|other: (Seq<char>, PackageId)|
        #[trigger] entries.contains(other) && other.0 != name implies after.contains(other) by {
        let i = choose|i: int| 0 <= i < entries.len() && entries[i] == other;
        assert(after[i] == other);
    }
}

proof fn lemma_dep_ids(
    package: UnresolvedView,
    numbers: Seq<(usize, Span)>,
    added: Added,
    number: spec_fn(Seq<char>) -> usize,
    n: nat,
)
    requires
        n <= package.foreign_deps.len(),
        forall|j: int|
            0 <= j < n ==> numbers[j].0 == number((#[trigger] package.foreign_deps[j]).0),
    ensures
        distinct(dep_ids(package, numbers, added, n)),
        forall|e: int|
            0 <= e < dep_ids(package, numbers, added, n).len() ==> exists|j: int|
                0 <= j < n && (#[trigger] package.foreign_deps[j]).0 == (#[trigger] dep_ids(
                    package,
                    numbers,
                    added,
                    n,
                )[e]).0,
        forall|j: int|
            0 <= j < n ==> dep_ids(package, numbers, added, n).contains(
                ((#[trigger] package.foreign_deps[j]).0, added[numbers[j].0]),
            ),
    decreases n,
{
    if n > 0 {
        let m = (n - 1) as nat;
        lemma_dep_ids(package, numbers, added, number, m);
        let before = dep_ids(package, numbers, added, m);
        let after = dep_ids(package, numbers, added, n);
        let name = package.foreign_deps[m as int].0;
        lemma_put(before, name, added[numbers[m as int].0]);
        assert forall|e: int| 0 <= e < after.len() implies exists|j: int|
            0 <= j < n && (#[trigger] package.foreign_deps[j]).0 == (#[trigger] after[e]).0 by {
            if after[e].0 == name {
                assert(package.foreign_deps[m as int].0 == after[e].0);
            } else {
                let i = choose|i: int|
                    0 <= i < before.len() && (#[trigger] before[i]).0 == after[e].0;
                let j = choose|j: int|
                    0 <= j < m && (#[trigger] package.foreign_deps[j]).0 == before[i].0;
                assert(package.foreign_deps[j].0 == after[e].0);
            }
        }
        assert forall|j: int| 0 <= j < n implies after.contains(
            ((#[trigger] package.foreign_deps[j]).0, added[numbers[j].0]),
        ) by {
            if package.foreign_deps[j].0 != name {
                assert(before.contains((package.foreign_deps[j].0, added[numbers[j].0])));
            } else {
                assert(package.foreign_deps[m as int].0 == name);
                assert(numbers[j].0 == numbers[m as int].0);
            }
        }
    }
}

proof fn lemma_goes_by_name(
    loaded: LoaderView,
    resolve: ResolveView,
    order: Seq<usize>,
    k: int,
    added: Added,
)
    requires
        loaded.valid(None),
        settled(loaded.deps, order),
        0 <= k < order.len(),
        loaded.packages[order[k] as int].is_some(),
        forall|l: int|
            0 <= l < k ==> added.contains_key(#[trigger] order[l]) && added[order[l]]
                == resolve.packages.len() + l,
    ensures
        goes_by_name(
            loaded,
            order,
            resolve.packages.len(),
            k,
            loaded.deps_of(order[k], added),
        ),
{
    let number = order[k] as int;
    let package = loaded.packages[number].unwrap();
    let numbers = loaded.deps[number];
    let count = package.foreign_deps.len();
    let deps = loaded.deps_of(order[k], added);
    assert(loaded.package_valid(number, None));
    let number_by = |name: Seq<char>| number_of(loaded.names, name);
    assert forall|j: int| 0 <= j < count implies numbers[j].0 == number_by(
        (#[trigger] package.foreign_deps[j]).0,
    ) by {
        assert(loaded.deps[number][j].0 == number_of(loaded.names, package.foreign_deps[j].0));
    }
    lemma_dep_ids(package, numbers, added, number_by, count);
    assert forall|j: int| 0 <= j < count implies exists|l: int|
        0 <= l < k && loaded.request(#[trigger] order[l]).name == Some(
            (#[trigger] package.foreign_deps[j]).0,
        ) && deps.contains((package.foreign_deps[j].0, (resolve.packages.len() + l) as usize)) by {
        let name = package.foreign_deps[j].0;
        let dep = loaded.deps[number][j].0;
        assert(loaded.deps[order[k] as int][j].0 == dep);
        assert(order.take(k).contains(dep));
        let l = choose|l: int| 0 <= l < order.take(k).len() && order.take(k)[l] == dep;
        assert(order[l] == dep);
        assert(loaded.names.contains(name));
        assert(dep == number_of(loaded.names, name));
        assert(loaded.names[loaded.names.index_of(name)] == name);
        assert(loaded.request(order[l]).name == Some(name));
        assert(added[order[l]] == resolve.packages.len() + l);
        assert(deps.contains((name, added[numbers[j].0])));
    }
}

proof fn lemma_pushed_in_turn(
    loaded: LoaderView,
    resolve: ResolveView,
    order: Seq<usize>,
    n: nat,
) -> (run: (Seq<ResolveView>, Seq<Deps>))
    requires
        loaded.can_push_all(resolve),
        ordered(loaded.deps, loaded.parsed) == Ok::<Seq<usize>, (usize, ErrorView)>(order),
        settled(loaded.deps, order),
        n <= order.len(),
        loaded.pushed_first(resolve, order, n).1.is_ok(),
        loaded.pushed_first(resolve, order, n).0.packages.len() <= usize::MAX,
    ensures
        pushed_in_turn(loaded, order, run.0, run.1),
        run.1.len() == n,
        run.0[0] == resolve,
        run.0[n as int] == loaded.pushed_first(resolve, order, n).0,
    decreases n,
{
    if n == 0 {
        (seq![resolve], Seq::empty())
    } else {
        let m = (n - 1) as nat;
        let (before, result) = loaded.pushed_first(resolve, order, m);
        let added = result->Ok_0;
        lemma_pushed_first(loaded, resolve, order, n);
        let package = loaded.packages[order[m as int] as int].unwrap();
        let new = loaded.deps_of(order[m as int], added);
        assert(loaded.pushed_first(resolve, order, m).1.is_ok());
        assert(can_push(before, package, new));
        pushing_keeps_items(before, package, new);
        lemma_pushed_first(loaded, resolve, order, m);
        let (states, deps) = lemma_pushed_in_turn(loaded, resolve, order, m);
        let after = loaded.pushed_first(resolve, order, n).0;
        lemma_loaded_order(loaded);
        assert(loaded.packages[order[m as int] as int].is_some());
        lemma_goes_by_name(loaded, resolve, order, m as int, added);
        let more = (states.push(after), deps.push(new));
        assert(loaded.pushed_first(resolve, order, n).1->Ok_0[order[m as int]]
            == resolve.packages.len() + m);
        assert forall|k: int| 0 <= k < more.1.len() implies {
            let base = more.0[0].packages.len();
            &&& goes_by_name(loaded, order, base, k, #[trigger] more.1[k])
            &&& pushed(more.0[k], loaded.packages[order[k] as int].unwrap(), more.1[k]) == (
                more.0[k + 1],
                Ok::<PackageId, ErrorView>((base + k) as usize),
            )
        } by {
            if k < m {
                assert(more.1[k] == deps[k]);
                assert(more.0[k] == states[k]);
                assert(more.0[k + 1] == states[k + 1]);
            }
        }
        more
    }
}

proof fn lemma_stopped(loaded: LoaderView, resolve: ResolveView, order: Seq<usize>)
    requires
        loaded.can_push_all(resolve),
        ordered(loaded.deps, loaded.parsed) == Ok::<Seq<usize>, (usize, ErrorView)>(order),
        settled(loaded.deps, order),
        loaded.pushed_first(resolve, order, order.len()).1.is_err(),
        loaded.pushed_first(resolve, order, order.len()).0.packages.len() <= usize::MAX,
    ensures
        ({
            let (after, result) = loaded.pushed_first(resolve, order, order.len());
            let (number, error) = result->Err_0;
            exists|states: Seq<ResolveView>, deps: Seq<Deps>, last: Deps| {
                &&& #[trigger] pushed_in_turn(loaded, order, states, deps)
                &&& states[0] == resolve
                &&& deps.len() < order.len()
                &&& order[deps.len() as int] == number
                &&& #[trigger] goes_by_name(
                    loaded,
                    order,
                    resolve.packages.len(),
                    deps.len() as int,
                    last,
                )
                &&& pushed(states.last(), loaded.packages[number as int].unwrap(), last) == (
                    after,
                    Err::<PackageId, ErrorView>(error),
                )
            }
        }),
{
    let m = lemma_stops_at(loaded, resolve, order, order.len());
    let (before, result) = loaded.pushed_first(resolve, order, m as nat);
    let added = result->Ok_0;
    let package = loaded.packages[order[m] as int].unwrap();
    let last = loaded.deps_of(order[m], added);
    lemma_loaded_order(loaded);
    assert(can_push(before, package, last));
    pushing_keeps_items(before, package, last);
    lemma_pushed_first(loaded, resolve, order, m as nat);
    let (states, deps) = lemma_pushed_in_turn(loaded, resolve, order, m as nat);
    assert(loaded.packages[order[m] as int].is_some());
    lemma_goes_by_name(loaded, resolve, order, m, added);
    assert(pushed_in_turn(loaded, order, states, deps));
    assert(goes_by_name(loaded, order, resolve.packages.len(), deps.len() as int, last));
}

/// Pushing everything that was loaded pushes the packages one by one, and each one with
/// dependencies that lead from every name that it depends on to the package that was asked for
/// under that name, which was pushed before. If it fails then either no order was found and nothing
/// was pushed, or it stops at a package that cannot be pushed with such dependencies, with the
/// error of that one.
pub proof fn dependencies_go_by_name(loaded: LoaderView, resolve: ResolveView)
    requires
        loaded.can_push_all(resolve),
        loaded.pushed_all(resolve).0.fits(),
    ensures
        match loaded.pushed_all(resolve) {
            (after, Ok((id, order))) => exists|states: Seq<ResolveView>, deps: Seq<Deps>| {
                &&& #[trigger] pushed_in_turn(loaded, order, states, deps)
                &&& deps.len() == order.len()
                &&& states[0] == resolve
                &&& states.last() == after
            },
            (after, Err((number, error))) => match ordered(loaded.deps, loaded.parsed) {
                Err(place) => after == resolve && place == (number, error),
                Ok(order) => exists|states: Seq<ResolveView>, deps: Seq<Deps>, last: Deps| {
                    &&& #[trigger] pushed_in_turn(loaded, order, states, deps)
                    &&& states[0] == resolve
                    &&& deps.len() < order.len()
                    &&& order[deps.len() as int] == number
                    &&& #[trigger] goes_by_name(
                        loaded,
                        order,
                        resolve.packages.len(),
                        deps.len() as int,
                        last,
                    )
                    &&& pushed(
                        states.last(),
                        loaded.packages[number as int].unwrap(),
                        last,
                    ) == (after, Err::<PackageId, ErrorView>(error))
                },
            },
        },
{
    lemma_loaded_graph(loaded, None);
    lemma_loaded_order(loaded);
    if let Ok(order) = ordered(loaded.deps, loaded.parsed) {
        let n = order.len();
        let (after, result) = loaded.pushed_first(resolve, order, n);
        if result.is_ok() {
            let (states, deps) = lemma_pushed_in_turn(loaded, resolve, order, n);
            assert(pushed_in_turn(loaded, order, states, deps));
            assert(states.last() == after);
            assert(loaded.pushed_all(resolve).0 == after);
            assert(loaded.pushed_all(resolve).1->Ok_0.1 == order);
        } else {
            assert(loaded.pushed_all(resolve).1 is Err);

            lemma_stopped(loaded, resolve, order);
        }
    }
}

/// Where pushing stops: all packages before position `m` are pushed, and that one is not.
proof fn lemma_stops_at(
    loaded: LoaderView,
    resolve: ResolveView,
    order: Seq<usize>,
    n: nat,
) -> (m: int)
    requires
        loaded.pushed_first(resolve, order, n).1.is_err(),
    ensures
        0 <= m < n,
        loaded.pushed_first(resolve, order, m as nat).1.is_ok(),
        ({
            let (before, added) = loaded.pushed_first(resolve, order, m as nat);
            let number = order[m];
            let (after, result) = pushed(
                before,
                loaded.packages[number as int].unwrap(),
                loaded.deps_of(number, added->Ok_0),
            );
            &&& result.is_err()
            &&& loaded.pushed_first(resolve, order, n) == (
                after,
                Err::<Added, (usize, ErrorView)>((number, result->Err_0)),
            )
        }),
    decreases n,
{
    if loaded.pushed_first(resolve, order, (n - 1) as nat).1.is_err() {
        lemma_stops_at(loaded, resolve, order, (n - 1) as nat)
    } else {
        n - 1
    }
}

/// Where a package is pushed with dependencies that go by name, a reference to a document of the
/// dependency `x` is linked to the document that the package lists under that name which was asked
/// for as `x`.
pub proof fn references_lead_to_the_package_of_that_name(
    loaded: LoaderView,
    order: Seq<usize>,
    states: Seq<ResolveView>,
    deps: Seq<Deps>,
    k: int,
    i: int,
    j: int,
    d: int,
)
    requires
        pushed_in_turn(loaded, order, states, deps),
        0 <= k < deps.len(),
        can_push(states[k], loaded.packages[order[k] as int].unwrap(), deps[k]),
        loaded.packages[order[k] as int].unwrap().names_document(i, j, d),
        0 <= d < loaded.packages[order[k] as int].unwrap().foreign_documents(),
    ensures
        ({
            let package = loaded.packages[order[k] as int].unwrap();
            let (dep, names) = package.foreign_deps[i];
            linked(states[k], package, deps[k]) matches Ok(link) && exists|l: int|
                0 <= l < k && loaded.request(#[trigger] order[l]).name == Some(dep)
                    && states[k].packages[states[0].packages.len() + l].documents.contains(
                    (names[j].0, link.documents[d]),
                )
        }),
{
    reveal(can_push);
    reveal(pushed);
    let package = loaded.packages[order[k] as int].unwrap();
    let (dep, names) = package.foreign_deps[i];
    let base = states[0].packages.len();
    assert(goes_by_name(loaded, order, base, k, deps[k]));
    references_lead_to_what_they_name(states[k], package, deps[k]);
    let link = linked(states[k], package, deps[k])->Ok_0;
    assert(offers(states[k], deps[k], dep, names[j].0, link.documents[d]));
    let p = choose|p: PackageId|
        p < states[k].packages.len() && #[trigger] deps[k].contains((dep, p))
            && states[k].packages[p as int].documents.contains((names[j].0, link.documents[d]));
    assert(package.foreign_deps[i].0 == dep);
    let l = choose|l: int|
        0 <= l < k && loaded.request(#[trigger] order[l]).name == Some(package.foreign_deps[i].0)
            && deps[k].contains((package.foreign_deps[i].0, (base + l) as usize));
    lemma_one_value(deps[k], dep, p, (base + l) as usize);
    lemma_package_count(loaded, order, states, deps, k);
}

/// A name stands for one value only.
proof fn lemma_one_value(deps: Deps, name: Seq<char>, a: PackageId, b: PackageId)
    requires
        distinct(deps),
        deps.contains((name, a)),
        deps.contains((name, b)),
    ensures
        a == b,
{
    let i = choose|i: int| 0 <= i < deps.len() && deps[i] == (name, a);
    let j = choose|j: int| 0 <= j < deps.len() && deps[j] == (name, b);
    assert(deps[i].0 == deps[j].0);
}

proof fn lemma_package_count(
    loaded: LoaderView,
    order: Seq<usize>,
    states: Seq<ResolveView>,
    deps: Seq<Deps>,
    k: int,
)
    requires
        pushed_in_turn(loaded, order, states, deps),
        0 <= k <= deps.len(),
    ensures
        states[k].packages.len() == states[0].packages.len() + k,
    decreases k,
{
    if k > 0 {
        lemma_package_count(loaded, order, states, deps, k - 1);
        reveal(pushed);
        assert(goes_by_name(loaded, order, states[0].packages.len(), k - 1, deps[k - 1]));
    }
}

} // verus!
