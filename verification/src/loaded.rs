//! Insertion of a package into a resolve together with everything that it depends on.
use indexmap::IndexMap;
use std::collections::HashMap;
use vstd::prelude::*;

use crate::append::{can_push, pushed};
use crate::error::{Error, ErrorView};
use crate::link::Deps;
use crate::load::{lemma_loaded_graph, package_view, Loader, LoaderView};
use crate::names::{self, put, Entries};
use crate::order::{
    dependencies_come_first, graph_of, ordered, reaches, root_comes_last, settled, sort_packages,
};
use crate::package::{UnresolvedPackage, UnresolvedView};
use crate::resolve::{Resolve, ResolveView};
use crate::types::{PackageId, Span};
use crate::validity::pushing_keeps_items;

verus! {

/// The ids of packages that were added, by number.
pub type Added = Map<usize, PackageId>;

/// The ids of the first `n` packages that a package depends on, by name.
pub open spec fn dep_ids(
    package: UnresolvedView,
    numbers: Seq<(usize, Span)>,
    added: Added,
    n: nat,
) -> Deps
    decreases n,
{
    if n == 0 {
        Seq::empty()
    } else {
        put(
            dep_ids(package, numbers, added, (n - 1) as nat),
            package.foreign_deps[n - 1].0,
            added[numbers[n - 1].0],
        )
    }
}

impl LoaderView {
    /// What a package depends on, once it was added.
    pub open spec fn deps_of(self, number: usize, added: Added) -> Deps {
        let package = self.packages[number as int].unwrap();
        dep_ids(package, self.deps[number as int], added, package.foreign_deps.len())
    }

    /// What pushing the first `n` of some packages makes of a resolve, and the ids of the packages
    /// or the first one that cannot be pushed and what is wrong with it.
    pub open spec fn pushed_first(self, resolve: ResolveView, order: Seq<usize>, n: nat) -> (
        ResolveView,
        Result<Added, (usize, ErrorView)>,
    )
        decreases n,
    {
        if n == 0 {
            (resolve, Ok(Map::empty()))
        } else {
            match self.pushed_first(resolve, order, (n - 1) as nat) {
                (resolve, Err(error)) => (resolve, Err(error)),
                (resolve, Ok(added)) => {
                    let number = order[n - 1];
                    let package = self.packages[number as int].unwrap();
                    match pushed(resolve, package, self.deps_of(number, added)) {
                        (resolve, Ok(id)) => (resolve, Ok(added.insert(number, id))),
                        (resolve, Err(error)) => (resolve, Err((number, error))),
                    }
                },
            }
        }
    }

    /// What pushing all packages makes of a resolve, and the id of the package that everything was
    /// loaded for with the order in which the packages were pushed, or a package and what is wrong
    /// with it.
    pub open spec fn pushed_all(self, resolve: ResolveView) -> (
        ResolveView,
        Result<(PackageId, Seq<usize>), (usize, ErrorView)>,
    ) {
        match ordered(self.deps, self.parsed) {
            Err(error) => (resolve, Err(error)),
            Ok(order) => match self.pushed_first(resolve, order, order.len()) {
                (resolve, Ok(added)) => (resolve, Ok((added[0], order))),
                (resolve, Err(error)) => (resolve, Err(error)),
            },
        }
    }

    /// All packages were parsed, and each can be pushed after those that it depends on.
    pub open spec fn can_push_all(self, resolve: ResolveView) -> bool {
        &&& self.valid(None)
        &&& self.to_parse.len() == 0
        &&& ordered(self.deps, self.parsed) matches Ok(order) ==> forall|k: int|
            0 <= k < order.len() ==> (#[trigger] self.pushed_first(
                resolve,
                order,
                k as nat,
            ) matches (resolve, Ok(added)) ==> can_push(
                resolve,
                self.packages[order[k] as int].unwrap(),
                self.deps_of(order[k], added),
            ))
    }
}

proof fn lemma_pushed_first_stops(
    loaded: LoaderView,
    resolve: ResolveView,
    order: Seq<usize>,
    m: nat,
    n: nat,
)
    requires
        m <= n,
    ensures
        loaded.pushed_first(resolve, order, m).1.is_err() ==> loaded.pushed_first(
            resolve,
            order,
            n,
        ) == loaded.pushed_first(resolve, order, m),
    decreases n - m,
{
    if m < n {
        lemma_pushed_first_stops(loaded, resolve, order, m, (n - 1) as nat);
    }
}

/// All packages can be put in order, and the one that everything was loaded for comes last.
pub proof fn lemma_loaded_order(loaded: LoaderView)
    requires
        loaded.valid(None),
        loaded.to_parse.len() == 0,
    ensures
        loaded.parsed.len() > 0,
        loaded.parsed[0] == 0,
        ordered(loaded.deps, loaded.parsed) matches Ok(order) ==> {
            &&& settled(loaded.deps, order)
            &&& order.len() > 0
            &&& order.last() == 0
            &&& forall|k: int|
                0 <= k < order.len() ==> loaded.packages[#[trigger] order[k] as int].is_some()
        },
{
    lemma_loaded_graph(loaded, None);
    assert(loaded.package_valid(0, None));
    dependencies_come_first(loaded.deps, loaded.parsed);
    assert forall|i: int| 0 <= i < loaded.parsed.len() implies reaches(
        loaded.deps,
        loaded.parsed[0],
        #[trigger] loaded.parsed[i],
    ) by {
        assert(reaches(loaded.deps, 0, loaded.parsed[i] as int as usize));
    }
    root_comes_last(loaded.deps, loaded.parsed);
    if let Ok(order) = ordered(loaded.deps, loaded.parsed) {
        assert forall|k: int| 0 <= k < order.len() implies
            loaded.packages[#[trigger] order[k] as int].is_some() by {
            assert(loaded.package_valid(order[k] as int, None));
        }
    }
}

/// The ids of the packages that a package depends on, by name.
fn find_deps(
    package: &UnresolvedPackage,
    numbers: &Vec<(usize, Span)>,
    added: &HashMap<usize, PackageId>,
) -> (deps: IndexMap<String, PackageId>)
    requires
        numbers@.len() == package@.foreign_deps.len(),
        forall|j: int| 0 <= j < numbers@.len() ==> added@.contains_key((#[trigger] numbers@[j]).0),
    ensures
        deps.entries() == dep_ids(package@, numbers@, added@, package@.foreign_deps.len()),
{
    broadcast use vstd::std_specs::hash::group_hash_axioms;

    let mut deps = names::new_ids();
    let n: usize = names::len(&package.foreign_deps);
    for j in 0..n
        invariant
            n == package@.foreign_deps.len(),
            numbers@.len() == n,
            forall|j: int|
                0 <= j < numbers@.len() ==> added@.contains_key((#[trigger] numbers@[j]).0),
            deps.entries() == dep_ids(package@, numbers@, added@, j as nat),
    {
        let (name, _) = names::entry(&package.foreign_deps, j);
        assert(package@.foreign_deps[j as int].0 == name@);
        assert(added@.contains_key(numbers@[j as int].0));
        let id: usize = *added.get(&numbers[j].0).unwrap();
        names::insert(&mut deps, name.clone(), id);
    }
    deps
}

impl Resolve {
    /// Appends all packages that were loaded to this [`Resolve`], each one after those that it
    /// depends on.
    ///
    /// This function returns the [`PackageId`] of the package that everything was loaded for, along
    /// with the numbers of all packages in the order in which they were appended. An error comes
    /// with the number of the package that it is about.
    pub fn push_all(&mut self, loader: Loader) -> (result: Result<
        (PackageId, Vec<usize>),
        (usize, Error),
    >)
        requires
            loader.inv(),
            loader@.can_push_all(old(self)@),
        ensures
            final(self)@ == loader@.pushed_all(old(self)@).0,
            match (result, loader@.pushed_all(old(self)@).1) {
                (Ok((id, order)), Ok((expected_id, expected_order))) => id == expected_id && order@
                    == expected_order,
                (Err((number, error)), Err((expected_number, expected))) => number
                    == expected_number && error@ == expected,
                _ => false,
            },
            old(self)@.usable() ==> final(self)@.usable(),
            result.is_ok() && old(self)@.valid() ==> final(self)@.valid(),
    {
        broadcast use vstd::std_specs::hash::group_hash_axioms;

        let ghost loaded = loader@;
        let ghost before = self@;
        proof {
            lemma_loaded_graph(loaded, None);
            lemma_loaded_order(loaded);
        }
        let order = match sort_packages(&loader.parsed, &loader.deps) {
            Ok(order) => order,
            Err(error) => return Err(error),
        };
        let deps = loader.deps;
        let mut packages = loader.packages;
        // Using the topological ordering insert each package incrementally. Additionally note that
        // the last item visited here is the root package, which is the one returned here.
        let mut added: HashMap<usize, PackageId> = HashMap::new();
        let mut last: usize = 0;
        let n: usize = order.len();
        assert(added@ =~= Map::empty());
        for k in 0..n
            invariant
                n == order@.len(),
                loaded.can_push_all(before),
                before == old(self)@,
                loaded == loader@,
                ordered(loaded.deps, loaded.parsed) == Ok::<Seq<usize>, (usize, ErrorView)>(order@),
                settled(loaded.deps, order@),
                forall|i: int|
                    0 <= i < order@.len() ==> loaded.packages[#[trigger] order@[i] as int].is_some(),
                graph_of(deps@) == loaded.deps,
                packages@.len() == loaded.packages.len(),
                forall|i: int|
                    k <= i < order@.len() ==> package_view(
                        packages@[(#[trigger] order@[i]) as int],
                    ) == loaded.packages[order@[i] as int],
                loaded.pushed_first(before, order@, k as nat) == (
                    self@,
                    Ok::<Map<usize, usize>, (usize, ErrorView)>(added@),
                ),
                forall|i: int| 0 <= i < k ==> added@.contains_key(#[trigger] order@[i]),
                k > 0 ==> last == added@[order@[k - 1]],
                before.usable() ==> self@.usable(),
                before.valid() ==> self@.valid(),
        {
            let number: usize = order[k];
            proof {
                lemma_pushed_first_stops(loaded, before, order@, (k + 1) as nat, n as nat);
                assert(loaded.package_valid(number as int, None));
                assert(package_view(packages@[number as int]) == loaded.packages[number as int]);
                assert(loaded.deps[number as int] == deps@[number as int]@);
                assert forall|j: int| 0 <= j < deps@[number as int]@.len() implies added@.contains_key(
                    (#[trigger] deps@[number as int]@[j]).0,
                ) by {
                    let dep = loaded.deps[order@[k as int] as int][j].0;
                    let front = order@.take(k as int);
                    assert(front.contains(dep));
                    let i = choose|i: int| 0 <= i < front.len() && front[i] == dep;
                    assert(order@[i] == dep);
                }
                assert(loaded.pushed_first(before, order@, k as nat).1.is_ok());
            }
            let ghost slots = packages@;
            let package = packages[number].take().unwrap();
            assert forall|i: int| k < i < order@.len() implies package_view(
                packages@[(#[trigger] order@[i]) as int],
            ) == loaded.packages[order@[i] as int] by {
                assert(order@[i] != order@[k as int]);
                assert(packages@[order@[i] as int] == slots[order@[i] as int]);
            }
            let ids = find_deps(&package, &deps[number], &added);
            match self.push(package, &ids) {
                Ok(id) => {
                    added.insert(number, id);
                    last = id;
                },
                Err(error) => return Err((number, error)),
            }
        }
        Ok((last, order))
    }
}

/// The first `n` packages that were pushed stand in order behind those that were there before.
pub proof fn lemma_pushed_first(loaded: LoaderView, resolve: ResolveView, order: Seq<usize>, n: nat)
    requires
        loaded.can_push_all(resolve),
        ordered(loaded.deps, loaded.parsed) == Ok::<Seq<usize>, (usize, ErrorView)>(order),
        order.no_duplicates(),
        n <= order.len(),
        loaded.pushed_first(resolve, order, n).0.packages.len() <= usize::MAX,
    ensures
        loaded.pushed_first(resolve, order, n) matches (after, Ok(added)) ==> {
            &&& after.packages.len() == resolve.packages.len() + n
            &&& resolve.packages.is_prefix_of(after.packages)
            &&& forall|k: int|
                0 <= k < n ==> {
                    let new = after.packages[resolve.packages.len() + k];
                    let old = loaded.packages[#[trigger] order[k] as int].unwrap();
                    &&& new.name == old.name
                    &&& new.url == old.url
                    &&& added.contains_key(order[k])
                    &&& added[order[k]] == resolve.packages.len() + k
                }
        },
    decreases n,
{
    if n > 0 {
        let m = (n - 1) as nat;
        let (before, result) = loaded.pushed_first(resolve, order, m);
        if let Ok(added) = result {
            let package = loaded.packages[order[m as int] as int].unwrap();
            let deps = loaded.deps_of(order[m as int], added);
            assert(loaded.pushed_first(resolve, order, m).1.is_ok());
            assert(can_push(before, package, deps));
            pushing_keeps_items(before, package, deps);
            reveal(pushed);
            lemma_pushed_first(loaded, resolve, order, m);
            let (after, id) = pushed(before, package, deps);
            if id.is_ok() {
                assert forall|k: int| 0 <= k < n implies {
                    let new = after.packages[resolve.packages.len() + k];
                    let old = loaded.packages[#[trigger] order[k] as int].unwrap();
                    let all = added.insert(order[m as int], id->Ok_0);
                    &&& new.name == old.name
                    &&& new.url == old.url
                    &&& all.contains_key(order[k])
                    &&& all[order[k]] == resolve.packages.len() + k
                } by {
                    if k < m {
                        assert(order[k] != order[m as int]);
                        assert(after.packages[resolve.packages.len() + k]
                            == before.packages[resolve.packages.len() + k]);
                    }
                }
            }
        }
    }
}

/// Pushing everything that was loaded pushes each package once, in an order in which those that it
/// depends on come first. The packages stand in that order behind those that were there before. The
/// last one is the one that everything was loaded for, and its id is returned.
pub proof fn loaded_packages_are_pushed(loaded: LoaderView, resolve: ResolveView)
    requires
        loaded.can_push_all(resolve),
        loaded.pushed_all(resolve).0.fits(),
    ensures
        loaded.pushed_all(resolve) matches (after, Ok((id, order))) ==> {
            let base = resolve.packages.len();
            &&& settled(loaded.deps, order)
            &&& forall|i: int|
                0 <= i < loaded.packages.len() ==> #[trigger] order.contains(i as usize)
            &&& resolve.packages.is_prefix_of(after.packages)
            &&& after.packages.len() == base + order.len()
            &&& forall|k: int|
                0 <= k < order.len() ==> {
                    let new = after.packages[base + k];
                    let old = loaded.packages[#[trigger] order[k] as int].unwrap();
                    new.name == old.name && new.url == old.url
                }
            &&& order.last() == 0
            &&& id == base + order.len() - 1
        },
{
    lemma_loaded_graph(loaded, None);
    lemma_loaded_order(loaded);
    dependencies_come_first(loaded.deps, loaded.parsed);
    if let Ok(order) = ordered(loaded.deps, loaded.parsed) {
        lemma_pushed_first(loaded, resolve, order, order.len());
        assert forall|i: int| 0 <= i < loaded.packages.len() implies #[trigger] order.contains(
            i as usize,
        ) by {
            assert(loaded.package_valid(i, None));
            assert(loaded.parsed.contains(i as usize));
            let j = choose|j: int| 0 <= j < loaded.parsed.len() && loaded.parsed[j] == i as usize;
            assert(order.contains(loaded.parsed[j]));
        }
        assert(order[order.len() - 1] == 0);
    }
}

} // verus!
