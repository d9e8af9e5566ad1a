//! What a loader makes of the packages that it is given.
use vstd::prelude::*;

use crate::load::{
    lemma_number_of, lemma_with_names, new_deps, number_of, parsing_keeps_valid, with_names,
    LoaderView, RequestView,
};
use crate::package::UnresolvedView;
use crate::types::Span;

verus! {

/// A name is that of a dependency, and everything that the package depends on before it is in a
/// list.
pub open spec fn next_dependency(
    package: UnresolvedView,
    before: Seq<Seq<char>>,
    name: Seq<char>,
) -> bool {
    exists|j: int|
        0 <= j < package.foreign_deps.len() && (#[trigger] package.foreign_deps[j]).0 == name
            && forall|i: int|
            0 <= i < j ==> before.contains((#[trigger] package.foreign_deps[i]).0)
}

/// Names are added in the order of the dependencies.
proof fn lemma_names_in_order(names: Seq<Seq<char>>, package: UnresolvedView, n: nat, a: int)
    requires
        names.no_duplicates(),
        n <= package.foreign_deps.len(),
        names.len() <= a < with_names(names, package, n).len(),
    ensures
        next_dependency(
            package,
            with_names(names, package, n).take(a),
            with_names(names, package, n)[a],
        ),
    decreases n,
{
    let m = (n - 1) as nat;
    let before = with_names(names, package, m);
    let after = with_names(names, package, n);
    lemma_with_names(names, package, m, n);
    if a < before.len() {
        lemma_names_in_order(names, package, m, a);
        assert(after.take(a) =~= before.take(a));
    } else {
        assert(after.take(a) =~= before);
        assert forall|i: int| 0 <= i < n - 1 implies before.contains(
            (#[trigger] package.foreign_deps[i]).0,
        ) by {
            lemma_with_names(names, package, (i + 1) as nat, m);
            lemma_number_of(with_names(names, package, i as nat), before, package.foreign_deps[i].0);
        }
        assert(package.foreign_deps[n - 1].0 == after[a]);
    }
}

/// A package that was parsed is filed under the number that it was requested with and gets the URL
/// that was requested. What it depends on is numbered by name: what something depended on before
/// keeps its number, and the rest follows in the order of the dependencies and is to be parsed.
/// Nothing else changes.
pub proof fn packages_are_filed_under_their_numbers(
    state: LoaderView,
    number: usize,
    package: UnresolvedView,
)
    requires
        state.valid(Some(number)),
        package.foreign_dep_spans.len() >= package.foreign_deps.len(),
        state.with_package(state.request(number), package).packages.len() <= usize::MAX,
    ensures
        ({
            let after = state.with_package(state.request(number), package);
            let name = if number == 0 {
                None
            } else {
                Some(state.names[number - 1])
            };
            let url = if number == 0 {
                None
            } else {
                Some("path:/"@ + state.names[number - 1])
            };
            let base = state.names.len();
            &&& state.request(number) == (RequestView { number, name, url })
            &&& after.packages[number as int] == Some(UnresolvedView { url, ..package })
            &&& forall|i: int|
                0 <= i < state.packages.len() && i != number ==> #[trigger] after.packages[i]
                    == state.packages[i]
            &&& forall|i: int|
                0 <= i < state.packages.len() && i != number ==> #[trigger] after.deps[i]
                    == state.deps[i]
            &&& forall|i: int|
                state.packages.len() <= i < after.packages.len()
                    ==> #[trigger] after.packages[i].is_none()
            &&& after.packages.len() == after.names.len() + 1
            &&& after.names.no_duplicates()
            &&& state.names.is_prefix_of(after.names)
            &&& forall|a: int|
                base <= a < after.names.len() ==> next_dependency(
                    package,
                    after.names.take(a),
                    #[trigger] after.names[a],
                )
            &&& after.deps[number as int].len() == package.foreign_deps.len()
            &&& forall|j: int|
                0 <= j < package.foreign_deps.len() ==> {
                    let (dep, span) = #[trigger] after.deps[number as int][j];
                    &&& 0 < dep < after.packages.len()
                    &&& after.names[dep - 1] == package.foreign_deps[j].0
                    &&& span == package.foreign_dep_spans[j]
                }
            &&& after.parsed == state.parsed.push(number)
            &&& after.to_parse.len() == state.to_parse.len() + (after.names.len() - base)
            &&& state.to_parse.is_prefix_of(after.to_parse)
            &&& forall|i: int|
                0 <= i < after.names.len() - base ==> #[trigger] after.to_parse[state.to_parse.len()
                    + i] == base + 1 + i
        }),
{
    let after = state.with_package(state.request(number), package);
    let count = package.foreign_deps.len();
    lemma_with_names(state.names, package, 0, count);
    parsing_keeps_valid(state, number, package);
    assert(after.package_valid(number as int, None));
    let filed = after.packages[number as int].unwrap();
    assert(filed.foreign_deps == package.foreign_deps);
    assert(filed.foreign_dep_spans == package.foreign_dep_spans);
    assert forall|a: int| state.names.len() <= a < after.names.len() implies next_dependency(
        package,
        after.names.take(a),
        #[trigger] after.names[a],
    ) by {
        lemma_names_in_order(state.names, package, count, a);
    }
    assert forall|j: int| 0 <= j < count implies {
        let (dep, span) = #[trigger] after.deps[number as int][j];
        &&& 0 < dep < after.packages.len()
        &&& after.names[dep - 1] == package.foreign_deps[j].0
        &&& span == package.foreign_dep_spans[j]
    } by {
        assert(after.deps[number as int][j] == (
            number_of(after.names, filed.foreign_deps[j].0),
            filed.foreign_dep_spans[j],
        ));
        assert(after.names.is_prefix_of(after.names));
        lemma_number_of(after.names, after.names, package.foreign_deps[j].0);
    }
}

/// One of the first `n` dependencies of a package comes before another.
pub open spec fn in_turn(package: UnresolvedView, n: nat, a: Seq<char>, b: Seq<char>) -> bool {
    exists|i: int, j: int|
        0 <= i < j < n && (#[trigger] package.foreign_deps[i]).0 == a && (
        #[trigger] package.foreign_deps[j]).0 == b
}

/// One of the first `n` dependencies of a package has a name that is not in a list, and a place is
/// that where the package first depends on it.
pub open spec fn reported(
    names: Seq<Seq<char>>,
    package: UnresolvedView,
    n: nat,
    name: Seq<char>,
    span: Span,
) -> bool {
    !names.contains(name) && exists|j: int|
        0 <= j < n && (#[trigger] package.foreign_deps[j]).0 == name
            && package.foreign_dep_spans[j] == span && forall|i: int|
            0 <= i < j ==> (#[trigger] package.foreign_deps[i]).0 != name
}

/// The dependencies that are reported as new are those that nothing asked for before, in the order
/// in which the package depends on them, each with the place where it first does.
pub proof fn new_dependencies_are_reported(names: Seq<Seq<char>>, package: UnresolvedView)
    requires
        names.no_duplicates(),
        package.foreign_dep_spans.len() >= package.foreign_deps.len(),
    ensures
        ({
            let new = new_deps(names, package, package.foreign_deps.len());
            &&& forall|name: Seq<char>, span: Span| #[trigger]
                new.contains((name, span)) <==> reported(
                    names,
                    package,
                    package.foreign_deps.len(),
                    name,
                    span,
                )
            &&& forall|a: int, b: int|
                #![trigger new[a], new[b]]
                0 <= a < b < new.len() ==> in_turn(
                    package,
                    package.foreign_deps.len(),
                    new[a].0,
                    new[b].0,
                )
        }),
{
    let n = package.foreign_deps.len();
    lemma_new_deps(names, package, n);
    let new = new_deps(names, package, n);
    assert forall|name: Seq<char>, span: Span| #[trigger]
        new.contains((name, span)) <==> reported(names, package, n, name, span) by {
        assert(new_deps(names, package, n).contains((name, span)) == reported(
            names,
            package,
            n,
            name,
            span,
        ));
    }
    assert forall|a: int, b: int|
        #![trigger new[a], new[b]]
        0 <= a < b < new.len() implies in_turn(package, n, new[a].0, new[b].0) by {
        assert(new_deps(names, package, n)[a] == new[a]);
        assert(new_deps(names, package, n)[b] == new[b]);
    }
}

proof fn lemma_new_deps(names: Seq<Seq<char>>, package: UnresolvedView, n: nat)
    requires
        names.no_duplicates(),
        n <= package.foreign_deps.len(),
    ensures
        forall|name: Seq<char>, span: Span| #[trigger]
            new_deps(names, package, n).contains((name, span)) == #[trigger] reported(
                names,
                package,
                n,
                name,
                span,
            ),
        forall|name: Seq<char>| #[trigger]
            with_names(names, package, n).contains(name) <==> names.contains(name) || exists|j: int|
                0 <= j < n && (#[trigger] package.foreign_deps[j]).0 == name,
        forall|a: int|
            0 <= a < new_deps(names, package, n).len() ==> exists|i: int|
                0 <= i < n && (#[trigger] package.foreign_deps[i]).0 == (#[trigger] new_deps(
                    names,
                    package,
                    n,
                )[a]).0,
        forall|a: int, b: int|
            #![trigger new_deps(names, package, n)[a], new_deps(names, package, n)[b]]
            0 <= a < b < new_deps(names, package, n).len() ==> in_turn(
                package,
                n,
                new_deps(names, package, n)[a].0,
                new_deps(names, package, n)[b].0,
            ),
    decreases n,
{
    let new = new_deps(names, package, n);
    let known = with_names(names, package, n);
    if n > 0 {
        let m = (n - 1) as nat;
        lemma_new_deps(names, package, m);
        let before = new_deps(names, package, m);
        let earlier = with_names(names, package, m);
        let name = package.foreign_deps[n - 1].0;
        let span = package.foreign_dep_spans[n - 1];
        assert forall|x: Seq<char>| #[trigger] known.contains(x) <==> earlier.contains(x) || x
            == name by {
            if earlier.contains(x) {
                let i = choose|i: int| 0 <= i < earlier.len() && earlier[i] == x;
                assert(known[i] == x);
            }
            if x == name && !earlier.contains(name) {
                assert(known[earlier.len() as int] == name);
            }
        }
        assert forall|x: Seq<char>| #[trigger] known.contains(x) <==> names.contains(x) || exists|
            j: int,
        |
            0 <= j < n && (#[trigger] package.foreign_deps[j]).0 == x by {
            assert(earlier.contains(x) <==> names.contains(x) || exists|j: int|
                0 <= j < m && (#[trigger] package.foreign_deps[j]).0 == x);
            if x == name {
                assert(package.foreign_deps[n - 1].0 == x);
            }
        }
        assert forall|x: Seq<char>, s: Span| #[trigger]
            new.contains((x, s)) == #[trigger] reported(names, package, n, x, s) by {
            assert(before.contains((x, s)) == reported(names, package, m, x, s));
            if before.contains((x, s)) {
                let i = choose|i: int| 0 <= i < before.len() && before[i] == (x, s);
                assert(new[i] == (x, s));
            }
            if new.contains((x, s)) && !before.contains((x, s)) {
                let i = choose|i: int| 0 <= i < new.len() && new[i] == (x, s);
                if i < before.len() {
                    assert(before[i] == (x, s));
                }
                assert(package.foreign_deps[n - 1].0 == x);
            }
            if reported(names, package, n, x, s) && !reported(names, package, m, x, s) {
                assert(!earlier.contains(x));
                assert(new[before.len() as int] == (x, s));
            }
        }
        assert forall|a: int| 0 <= a < new.len() implies exists|i: int|
            0 <= i < n && (#[trigger] package.foreign_deps[i]).0 == (#[trigger] new[a]).0 by {
            if a < before.len() {
                assert(new[a] == before[a]);
            } else {
                assert(package.foreign_deps[n - 1].0 == new[a].0);
            }
        }
        assert forall|a: int, b: int|
            #![trigger new[a], new[b]]
            0 <= a < b < new.len() implies in_turn(package, n, new[a].0, new[b].0) by {
            assert(new[a] == before[a]);
            if b < before.len() {
                assert(new[b] == before[b]);
                assert(in_turn(package, m, before[a].0, before[b].0));
            } else {
                let i = choose|i: int|
                    0 <= i < m && (#[trigger] package.foreign_deps[i]).0 == before[a].0;
                assert(package.foreign_deps[n - 1].0 == new[b].0);
                assert(package.foreign_deps[i].0 == new[a].0);
            }
        }
    } else {
        assert forall|x: Seq<char>, s: Span| #[trigger]
            new.contains((x, s)) == #[trigger] reported(names, package, n, x, s) by {}
    }
}

/// Whatever a package depends on is requested under the name by which it depends on it, with the
/// URL that goes with that name, and has that URL once it was parsed.
pub proof fn dependencies_are_requested_by_name(
    state: LoaderView,
    pending: Option<usize>,
    number: int,
    j: int,
)
    requires
        state.valid(pending),
        0 <= number < state.packages.len(),
        state.packages[number].is_some(),
        0 <= j < state.packages[number].unwrap().foreign_deps.len(),
    ensures
        ({
            let name = state.packages[number].unwrap().foreign_deps[j].0;
            let dep = state.deps[number][j].0;
            &&& dep < state.packages.len()
            &&& state.request(dep).number == dep
            &&& state.request(dep).name == Some(name)
            &&& state.request(dep).url == Some("path:/"@ + name)
            &&& state.packages[dep as int] matches Some(package) ==> package.url == Some(
                "path:/"@ + name,
            )
        }),
{
    assert(state.package_valid(number, pending));
    let name = state.packages[number].unwrap().foreign_deps[j].0;
    let dep = state.deps[number][j].0;
    assert(state.names.is_prefix_of(state.names));
    lemma_number_of(state.names, state.names, name);
    assert(state.package_valid(dep as int, pending));
}

} // verus!
