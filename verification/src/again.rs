//! Merging the same resolve a second time.
use vstd::prelude::*;

use crate::correspondence::{
    comparable, matched_items_correspond, packages_differ, parented_resolves_merge,
};
use crate::counterparts::{
    contained, document_found, interface_found, item_found, lemma_packages_settled, package_found,
    world_found, worlds_follow,
};
use crate::held::{functions_found, matched_items_hold_the_same};
use crate::lineage::{
    merge_of, merging_keeps_parents, merging_maps_parents, merging_unions_packages,
};
use crate::matching::{
    find_package, first_duplicate, lemma_find_package, matched, same_package, Plan, Stop,
};
use crate::merge::{merged, merged_map, unioned};
use crate::merge_laws::{merging_keeps_items, merging_keeps_valid, merging_maps_items};
use crate::moving::{moved, renumbered, Known};
use crate::names::{find, lemma_find, lookup};
use crate::parents::lemma_lookup_at;
use crate::remap::{item_within, mapped_functions, mapped_items, RemapView};
use crate::resolve::ResolveView;
use crate::types::{DocumentId, InterfaceId, ItemView, PackageId, TypeId, TypeOwner, WorldId};
use crate::unit::lemma_no_duplicate;

verus! {

/// Every package has a URL, by which it is found again.
pub open spec fn packages_located(resolve: ResolveView) -> bool {
    forall|p: int|
        0 <= p < resolve.packages.len() ==> (#[trigger] resolve.packages[p]).url.is_some()
}

/// Every interface without a name stands in a world.
pub open spec fn unnamed_placed(resolve: ResolveView) -> bool {
    forall|i: InterfaceId|
        i < resolve.interfaces.len() && (
        #[trigger] resolve.interfaces[i as int]).name.is_none() ==> exists|
            w: int,
            import: bool,
            j: int,
        | #[trigger] resolve.stands_at(i, w, import, j)
}

/// A type stands among the imports of a world.
pub open spec fn imported_at(resolve: ResolveView, t: TypeId, w: int, j: int) -> bool {
    &&& 0 <= w < resolve.worlds.len()
    &&& 0 <= j < resolve.worlds[w].imports.len()
    &&& resolve.worlds[w].imports[j].1 == ItemView::Type(t)
}

/// Every type belongs to an interface or stands among the imports of a world.
pub open spec fn types_placed(resolve: ResolveView) -> bool {
    forall|t: TypeId|
        t < resolve.types.len() ==> ((
        #[trigger] resolve.types[t as int]).owner matches TypeOwner::Interface(_)) || exists|
            w: int,
            j: int,
        | #[trigger] imported_at(resolve, t, w, j)
}

/// If there is no duplicate then no two packages are the same.
pub proof fn lemma_packages_differ(resolve: ResolveView, n: nat)
    requires
        n <= resolve.packages.len(),
        first_duplicate(resolve.packages, n).is_none(),
    ensures
        forall|p: int, q: int|
            #![trigger resolve.packages[p], resolve.packages[q]]
            0 <= p < q < n ==> !same_package(resolve.packages[p], resolve.packages[q]),
    decreases n,
{
    if n > 0 {
        let m = (n - 1) as nat;
        lemma_packages_differ(resolve, m);
        lemma_find_package(resolve.packages, resolve.packages[m as int], m);
        assert forall|p: int, q: int|
            #![trigger resolve.packages[p], resolve.packages[q]]
            0 <= p < q < n implies !same_package(resolve.packages[p], resolve.packages[q]) by {
            if q == m {
                assert(!same_package(resolve.packages[q], resolve.packages[p]));
            }
        }
    }
}

pub proof fn lemma_package_found(
    into: ResolveView,
    from: ResolveView,
    plan: Plan,
    after: ResolveView,
    map: RemapView,
    p: int,
)
    requires
        merge_of(into, from, plan, after, map),
        packages_differ(into),
        packages_located(from),
        0 <= p < from.packages.len(),
    ensures
        package_found(from, after, map, p),
{
    merging_keeps_valid(into, from);
    merging_keeps_parents(into, from);
    merging_maps_parents(into, from);
    merging_unions_packages(into, from);
    let x = map.packages[p] as int;
    let package = from.packages[p];
    lemma_find_package(after.packages, package, after.packages.len());
    assert(same_package(package, after.packages[x]));
    let y = find_package(after.packages, package, after.packages.len())->Some_0;
    assert(same_package(after.packages[x], after.packages[y]));
    assert(same_package(after.packages[y], after.packages[x]));
    assert(y == x);
    assert(from.package_lists(p));
    assert(from.package_valid(p));
    assert forall|j: int| 0 <= j < package.documents.len() implies lookup(
        after.packages[x].documents,
        (#[trigger] package.documents[j]).0,
    ) == Some(map.documents[package.documents[j].1 as int]) by {
        let (name, d) = from.packages[p].documents[j];
        let e = map.documents[d as int];
        assert(after.document_listed(e as int));
        assert(after.documents[e as int].name == name);
    }
}

pub proof fn lemma_document_found(
    into: ResolveView,
    from: ResolveView,
    plan: Plan,
    after: ResolveView,
    map: RemapView,
    d: int,
)
    requires
        merge_of(into, from, plan, after, map),
        0 <= d < from.documents.len(),
    ensures
        document_found(from, after, map, d),
{
    merging_keeps_valid(into, from);
    merging_keeps_parents(into, from);
    merging_maps_parents(into, from);
    let (a, b) = (from.documents[d], after.documents[map.documents[d] as int]);
    assert(from.document_lists(d));
    assert(from.document_valid(d));
    assert forall|j: int| 0 <= j < a.interfaces.len() implies lookup(
        b.interfaces,
        (#[trigger] a.interfaces[j]).0,
    ) == Some(map.interfaces[a.interfaces[j].1 as int]) by {
        let (name, i) = from.documents[d].interfaces[j];
        let e = map.interfaces[i as int];
        assert(after.interface_listed(e as int));
        assert(after.interfaces[e as int].name == Some(name));
    }
    assert forall|j: int| 0 <= j < a.worlds.len() implies lookup(
        b.worlds,
        (#[trigger] a.worlds[j]).0,
    ) == Some(map.worlds[a.worlds[j].1 as int]) by {
        let (name, w) = from.documents[d].worlds[j];
        let e = map.worlds[w as int];
        assert(after.world_listed(e as int));
        assert(after.worlds[e as int].name == name);
    }
}

pub proof fn lemma_interface_found(
    into: ResolveView,
    from: ResolveView,
    plan: Plan,
    after: ResolveView,
    map: RemapView,
    i: int,
)
    requires
        merge_of(into, from, plan, after, map),
        0 <= i < from.interfaces.len(),
    ensures
        interface_found(from, after, map, i),
{
    merging_keeps_valid(into, from);
    merging_keeps_parents(into, from);
    merging_maps_parents(into, from);
    merging_maps_items(into, from);
    merging_keeps_items(into, from);
    matched_items_hold_the_same(from, into);
    let x = map.interfaces[i] as int;
    let (a, b) = (from.interfaces[i], after.interfaces[x]);
    assert(from.interface_lists(i));
    assert(from.interface_valid(i));
    assert forall|j: int| 0 <= j < a.types.len() implies lookup(
        b.types,
        (#[trigger] a.types[j]).0,
    ) == Some(map.types[a.types[j].1 as int]) by {
        let (name, t) = from.interfaces[i].types[j];
        let e = map.types[t as int];
        assert(after.type_listed(e as int));
        assert(after.types[e as int].name == Some(name));
    }
    if plan.interfaces.contains_key(i as usize) {
        assert(functions_found(a, into.interfaces[plan.interfaces[i as usize] as int]));
        assert(after.interfaces[x] == into.interfaces[x]);
    } else {
        assert(b.functions == mapped_functions(map.types, a.functions));
        assert forall|j: int| 0 <= j < a.functions.len() implies find(
            b.functions,
            (#[trigger] a.functions[j]).0,
        ).is_some() by {
            lemma_find(b.functions, a.functions[j].0);
            assert(b.functions[j].0 == a.functions[j].0);
        }
    }
}

pub proof fn lemma_world_found(
    into: ResolveView,
    from: ResolveView,
    plan: Plan,
    after: ResolveView,
    map: RemapView,
    w: int,
)
    requires
        merge_of(into, from, plan, after, map),
        0 <= w < from.worlds.len(),
    ensures
        world_found(from, after, map, w),
{
    merging_keeps_valid(into, from);
    merging_maps_items(into, from);
    merging_keeps_items(into, from);
    matched_items_hold_the_same(from, into);
    let x = map.worlds[w] as int;
    let (a, b) = (from.worlds[w], after.worlds[x]);
    assert(from.world_valid(w));
    assert(after.world_valid(x));
    assert(plan.worlds.contains_key(w as usize) ==> {
        &&& plan.world_held(from, into, w as usize)
        &&& after.worlds[x] == into.worlds[x]
    });
    assert forall|import: bool, j: int|
        #![trigger from.world_items(w, import)[j]]
        0 <= j < from.world_items(w, import).len() implies item_found(
        map,
        from.world_items(w, import)[j],
        after.world_items(x, import),
    ) by {
        let (items, others) = (from.world_items(w, import), after.world_items(x, import));
        assert(item_within(items[j].1, from.interfaces.len(), from.types.len()));
        if plan.worlds.contains_key(w as usize) {
            assert(plan.item_held(items[j], others));
            match items[j].1 {
                ItemView::Interface(i) => {
                    assert(map.interfaces[i as int] == plan.interfaces[i]);
                },
                ItemView::Type(t) => {
                    assert(map.types[t as int] == plan.types[t]);
                },
                ItemView::Function(_) => {},
            }
        } else {
            assert(others == mapped_items(map.item_map(), items));
            lemma_lookup_at(others, j);
        }
    }
    assert forall|j: int| 0 <= j < a.imports.len() implies item_found(
        map,
        #[trigger] a.imports[j],
        b.imports,
    ) by {
        assert(from.world_items(w, true)[j] == a.imports[j]);
    }
    assert forall|j: int| 0 <= j < a.exports.len() implies item_found(
        map,
        #[trigger] a.exports[j],
        b.exports,
    ) by {
        assert(from.world_items(w, false)[j] == a.exports[j]);
    }
}

/// What is matched gets the id that it is matched with, and nothing moves.
proof fn lemma_all_known(base: nat, known: Known, ids: Seq<usize>, n: int)
    requires
        0 <= n <= ids.len(),
        n <= usize::MAX,
        forall|k: usize| k < n ==> #[trigger] known.contains_key(k) && known[k] == ids[k as int],
    ensures
        renumbered(base, known, 0, n) == ids.take(n),
        moved(known, 0, n) == Seq::<int>::empty(),
    decreases n,
{
    if n > 0 {
        lemma_all_known(base, known, ids, n - 1);
        assert(known.contains_key((n - 1) as usize));
        assert(ids.take(n) =~= ids.take(n - 1).push(ids[n - 1]));
    } else {
        assert(ids.take(0) =~= Seq::empty());
    }
}

/// All that is listed and placed in a resolve is matched with what has a counterpart of it.
proof fn lemma_matched_again(from: ResolveView, after: ResolveView, map: RemapView) -> (plan: Plan)
    requires
        comparable(from, after),
        first_duplicate(after.packages, after.packages.len()).is_none(),
        contained(from, after, map),
        worlds_follow(from),
        unnamed_placed(from),
    ensures
        matched(from, after) == Ok::<Plan, Stop>(plan),
        plan.follows(map),
        plan.lists_no_more(Plan::start()),
        forall|p: PackageId| p < from.packages.len() ==> #[trigger] plan.packages.contains_key(p),
        forall|d: DocumentId|
            d < from.documents.len() ==> #[trigger] plan.documents.contains_key(d),
        forall|i: InterfaceId|
            i < from.interfaces.len() ==> #[trigger] plan.interfaces.contains_key(i),
        forall|w: WorldId| w < from.worlds.len() ==> #[trigger] plan.worlds.contains_key(w),
        types_placed(from) ==> forall|t: TypeId|
            t < from.types.len() ==> #[trigger] plan.types.contains_key(t),
{
    parented_resolves_merge(from, after);
    matched_items_correspond(from, after);
    lemma_packages_settled(from, after, map, from.packages.len());
    let plan = matched(from, after)->Ok_0;
    assert forall|d: DocumentId| d < from.documents.len() implies {
        let doc = from.documents[d as int];
        &&& #[trigger] plan.documents.contains_key(d)
        &&& plan.document_covered(from, d, doc.interfaces.len(), doc.worlds.len())
    } by {
        assert(from.document_listed(d as int));
        assert(from.document_valid(d as int));
        let p = from.documents[d as int].package->Some_0;
        let docs = from.packages[p as int].documents;
        lemma_find(docs, from.documents[d as int].name);
        let at = find(docs, from.documents[d as int].name)->Some_0;
        assert(plan.packages.contains_key(p));
        assert(plan.documents_covered(from, p as int, docs.len()));
        assert(from.packages[p as int].documents[at].1 == d);
    }
    assert forall|w: WorldId| w < from.worlds.len() implies {
        &&& #[trigger] plan.worlds.contains_key(w)
        &&& plan.world_covered(from, w)
    } by {
        assert(from.world_listed(w as int));
        assert(from.world_valid(w as int));
        let d = from.worlds[w as int].document;
        let listed = from.documents[d as int].worlds;
        assert(plan.documents.contains_key(d));
        lemma_find(listed, from.worlds[w as int].name);
        let at = find(listed, from.worlds[w as int].name)->Some_0;
        assert(plan.world_covered(from, listed[at].1));
    }
    assert forall|i: InterfaceId| i < from.interfaces.len() implies
        #[trigger] plan.interfaces.contains_key(i) by {
        match from.interfaces[i as int].name {
            Some(name) => {
                assert(from.interface_listed(i as int));
                assert(from.interface_valid(i as int));
                let d = from.interfaces[i as int].document;
                let listed = from.documents[d as int].interfaces;
                assert(plan.documents.contains_key(d));
                lemma_find(listed, name);
                let at = find(listed, name)->Some_0;
                assert(plan.interfaces.contains_key(listed[at].1));
            },
            None => {
                let (w, import, j) = choose|w: int, import: bool, j: int| #[trigger]
                    from.stands_at(i, w, import, j);
                assert(plan.worlds.contains_key(w as usize));
                assert(plan.world_covered(from, w as usize));
            },
        }
    }
    if types_placed(from) {
        assert forall|t: TypeId| t < from.types.len() implies
            #[trigger] plan.types.contains_key(t) by {
            match from.types[t as int].owner {
                TypeOwner::Interface(i) => {
                    assert(from.type_valid(t as int));
                    assert(from.type_listed(t as int));
                    assert(plan.interfaces.contains_key(i));
                    assert(plan.interface_done(from, i));
                    let listed = from.interfaces[i as int].types;
                    let name = from.types[t as int].name->Some_0;
                    lemma_find(listed, name);
                    let at = find(listed, name)->Some_0;
                    assert(plan.types.contains_key(listed[at].1));
                },
                _ => {
                    let (w, j) = choose|w: int, j: int| #[trigger] imported_at(from, t, w, j);
                    assert(plan.worlds.contains_key(w as usize));
                    assert(plan.world_covered(from, w as usize));
                },
            }
        }
    }
    plan
}

/// If nothing is to be listed and all items but types are known then nothing changes but that types
/// are added.
proof fn lemma_nothing_moved(after: ResolveView, from: ResolveView, plan: Plan, map: RemapView)
    requires
        from.fits(),
        map.packages.len() == from.packages.len(),
        map.documents.len() == from.documents.len(),
        map.interfaces.len() == from.interfaces.len(),
        map.worlds.len() == from.worlds.len(),
        map.types.len() == from.types.len(),
        plan.follows(map),
        plan.lists_no_more(Plan::start()),
        forall|p: PackageId| p < from.packages.len() ==> #[trigger] plan.packages.contains_key(p),
        forall|d: DocumentId|
            d < from.documents.len() ==> #[trigger] plan.documents.contains_key(d),
        forall|i: InterfaceId|
            i < from.interfaces.len() ==> #[trigger] plan.interfaces.contains_key(i),
        forall|w: WorldId| w < from.worlds.len() ==> #[trigger] plan.worlds.contains_key(w),
    ensures
        ({
            let other = merged_map(after, from, plan);
            let again = unioned(after, from, plan);
            &&& other.packages == map.packages
            &&& other.documents == map.documents
            &&& other.interfaces == map.interfaces
            &&& other.worlds == map.worlds
            &&& again == (ResolveView { types: again.types, ..after })
            &&& after.types.is_prefix_of(again.types)
            &&& (forall|t: TypeId|
                t < from.types.len() ==> #[trigger] plan.types.contains_key(t)) ==> {
                &&& other == map
                &&& again == after
            }
        }),
{
    let other = merged_map(after, from, plan);
    let again = unioned(after, from, plan);
    lemma_all_known(
        after.packages.len(),
        plan.packages,
        map.packages,
        from.packages.len() as int,
    );
    lemma_all_known(
        after.documents.len(),
        plan.documents,
        map.documents,
        from.documents.len() as int,
    );
    lemma_all_known(
        after.interfaces.len(),
        plan.interfaces,
        map.interfaces,
        from.interfaces.len() as int,
    );
    lemma_all_known(after.worlds.len(), plan.worlds, map.worlds, from.worlds.len() as int);
    assert(other.packages =~= map.packages);
    assert(other.documents =~= map.documents);
    assert(other.interfaces =~= map.interfaces);
    assert(other.worlds =~= map.worlds);
    assert(again.packages =~= after.packages);
    assert(again.documents =~= after.documents);
    assert(again.interfaces =~= after.interfaces);
    assert(again.worlds =~= after.worlds);
    assert(after.types =~= again.types.take(after.types.len() as int));
    if forall|t: TypeId| t < from.types.len() ==> #[trigger] plan.types.contains_key(t) {
        lemma_all_known(after.types.len(), plan.types, map.types, from.types.len() as int);
        assert(other.types =~= map.types);
        assert(again.types =~= after.types);
    }
}

/// Merging the same resolve a second time adds nothing: packages, documents, interfaces and worlds
/// stay as they are, and those of the resolve that is merged get the same ids as the first time.
/// Types may be added behind the others, but for those that belong to an interface or that a world
/// imports: if there are no others then nothing changes at all, and the mapping that is returned is
/// the same.
///
/// This needs that packages can be found again, that interfaces without a name stand in a world,
/// and that worlds refer to interfaces that are listed no later than they are themselves.
pub proof fn merging_again_adds_nothing(into: ResolveView, from: ResolveView)
    requires
        comparable(from, into),
        merged(into, from).0.fits(),
        merged(into, from).1.is_ok(),
        packages_located(from),
        unnamed_placed(from),
        worlds_follow(from),
    ensures
        ({
            let after = merged(into, from).0;
            let map = merged(into, from).1->Ok_0;
            let again = merged(after, from).0;
            let second = merged(after, from).1;
            &&& second matches Ok(other) && {
                &&& other.packages == map.packages
                &&& other.documents == map.documents
                &&& other.interfaces == map.interfaces
                &&& other.worlds == map.worlds
                &&& types_placed(from) ==> other == map
            }
            &&& again == (ResolveView { types: again.types, ..after })
            &&& after.types.is_prefix_of(again.types)
            &&& types_placed(from) ==> again == after
        }),
{
    parented_resolves_merge(from, into);
    if matched(from, into).is_ok() {
        let plan = matched(from, into)->Ok_0;
        let (after, map) = (merged(into, from).0, merged(into, from).1->Ok_0);
        assert(merge_of(into, from, plan, after, map));
        lemma_packages_differ(into, into.packages.len());
        merging_keeps_valid(into, from);
        merging_keeps_parents(into, from);
        merging_unions_packages(into, from);
        lemma_no_duplicate(after, after.packages.len());
        assert forall|p: int| 0 <= p < from.packages.len() implies #[trigger] package_found(
            from,
            after,
            map,
            p,
        ) by {
            lemma_package_found(into, from, plan, after, map, p);
        }
        assert forall|d: int| 0 <= d < from.documents.len() implies #[trigger] document_found(
            from,
            after,
            map,
            d,
        ) by {
            lemma_document_found(into, from, plan, after, map, d);
        }
        assert forall|i: int| 0 <= i < from.interfaces.len() implies #[trigger] interface_found(
            from,
            after,
            map,
            i,
        ) by {
            lemma_interface_found(into, from, plan, after, map, i);
        }
        assert forall|w: int| 0 <= w < from.worlds.len() implies #[trigger] world_found(
            from,
            after,
            map,
            w,
        ) by {
            lemma_world_found(into, from, plan, after, map, w);
        }
        let second = lemma_matched_again(from, after, map);
        lemma_nothing_moved(after, from, second, map);
    }
}

} // verus!
