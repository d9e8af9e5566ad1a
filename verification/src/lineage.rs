//! What merging makes of the links between items.
use vstd::prelude::*;

use crate::correspondence::{
    comparable, matched_items_correspond, packages_differ, parented_resolves_merge, queued,
};
use crate::matching::{
    lemma_find_package, lemma_matched_within, matched, same_package, Addition, Plan,
};
use crate::merge::{can_merge, joined, merged, moved_package};
use crate::merge_laws::{
    added_to, lemma_added_from, lemma_moved_at, lemma_renumbered_at, lemma_union_len, lemma_unioned,
    mapped_owner, merging_keeps_items, merging_keeps_valid, merging_maps_items, moved_before,
};
use crate::moving::{moved, moved_world, renumbered, Known};
use crate::names::{find, lemma_find};
use crate::parents::lemma_lookup_at;
use crate::remap::{item_within, mapped_id, mapped_ids, mapped_item, RemapView};
use crate::resolve::ResolveView;
use crate::types::{InterfaceId, ItemView, TypeOwner, WorldId};
use crate::worlds::{missing, union_of, worlds_merged, ItemList};

verus! {

/// Two resolves of which one can be merged into the other, what that makes of the latter, and the
/// mapping that it returns.
pub open spec fn merge_of(
    into: ResolveView,
    from: ResolveView,
    plan: Plan,
    after: ResolveView,
    map: RemapView,
) -> bool {
    &&& comparable(from, into)
    &&& can_merge(into, from)
    &&& matched(from, into) == Ok::<Plan, crate::matching::Stop>(plan)
    &&& merged(into, from) == (after, Ok::<RemapView, crate::error::ErrorView>(map))
    &&& after.fits()
}

/// An item that was moved, by the position that it has now.
pub proof fn lemma_source(base: nat, known: Known, n: int, x: int) -> (k: int)
    requires
        0 <= n,
        base <= x < base + moved_before(known, n),
        base + moved_before(known, n) <= usize::MAX,
    ensures
        0 <= k < n,
        !known.contains_key(k as usize),
        renumbered(base, known, 0, n)[k] == x,
{
    let k = moved(known, 0, n)[x - base];
    lemma_moved_at(known, n, x - base);
    lemma_renumbered_at(base, known, n, k);
    k
}

/// The mapping that merging returns leads from each item to one of the same name, and from what the
/// item belongs to to what that one belongs to. This holds of items that were moved as well as of
/// those that were there already.
pub proof fn merging_maps_parents(into: ResolveView, from: ResolveView)
    requires
        comparable(from, into),
        merged(into, from).0.fits(),
    ensures
        merged(into, from) matches (after, Ok(map)) ==> {
            &&& forall|k: int|
                0 <= k < from.packages.len() ==> {
                    let new = after.packages[(#[trigger] map.packages[k]) as int];
                    &&& new.name == from.packages[k].name
                    &&& new.url == from.packages[k].url
                }
            &&& forall|k: int|
                0 <= k < from.documents.len() ==> {
                    let new = after.documents[(#[trigger] map.documents[k]) as int];
                    &&& new.name == from.documents[k].name
                    &&& new.package == mapped_id(map.packages, from.documents[k].package)
                }
            &&& forall|k: int|
                0 <= k < from.interfaces.len() ==> {
                    let new = after.interfaces[(#[trigger] map.interfaces[k]) as int];
                    &&& new.name == from.interfaces[k].name
                    &&& new.document == map.documents[from.interfaces[k].document as int]
                }
            &&& forall|k: int|
                0 <= k < from.worlds.len() ==> {
                    let new = after.worlds[(#[trigger] map.worlds[k]) as int];
                    &&& new.name == from.worlds[k].name
                    &&& new.document == map.documents[from.worlds[k].document as int]
                }
            &&& forall|k: int|
                0 <= k < from.types.len() ==> {
                    let new = after.types[(#[trigger] map.types[k]) as int];
                    &&& new.name == from.types[k].name
                    &&& new.owner == mapped_owner(map, from.types[k].owner)
                }
        },
{
    parented_resolves_merge(from, into);
    if merged(into, from).1.is_ok() && matched(from, into).is_ok() {
        let plan = matched(from, into)->Ok_0;
        let (after, map) = (merged(into, from).0, merged(into, from).1->Ok_0);
        matched_items_correspond(from, into);
        merging_keeps_items(into, from);
        merging_keeps_valid(into, from);
        merging_maps_items(into, from);
        assert forall|k: int| 0 <= k < from.packages.len() implies {
            let new = after.packages[(#[trigger] map.packages[k]) as int];
            &&& new.name == from.packages[k].name
            &&& new.url == from.packages[k].url
        } by {
            if plan.packages.contains_key(k as usize) {
                assert(plan.package_homed(from, into, k as usize));
            }
        }
        assert forall|k: int| 0 <= k < from.documents.len() implies {
            let new = after.documents[(#[trigger] map.documents[k]) as int];
            &&& new.name == from.documents[k].name
            &&& new.package == mapped_id(map.packages, from.documents[k].package)
        } by {
            assert(from.document_valid(k));
            if plan.documents.contains_key(k as usize) {
                assert(plan.document_homed(from, into, k as usize));
                let p = from.documents[k].package.unwrap();
                assert(map.packages[p as int] == plan.packages[p]);
            }
        }
        assert forall|k: int| 0 <= k < from.interfaces.len() implies {
            let new = after.interfaces[(#[trigger] map.interfaces[k]) as int];
            &&& new.name == from.interfaces[k].name
            &&& new.document == map.documents[from.interfaces[k].document as int]
        } by {
            assert(from.interface_valid(k));
            if plan.interfaces.contains_key(k as usize) {
                assert(plan.interface_homed(from, into, k as usize));
                let d = from.interfaces[k].document;
                assert(map.documents[d as int] == plan.documents[d]);
                let x = map.interfaces[k] as int;
                assert(after.interfaces[x] == into.interfaces[x]);
            }
        }
        assert forall|k: int| 0 <= k < from.worlds.len() implies {
            let new = after.worlds[(#[trigger] map.worlds[k]) as int];
            &&& new.name == from.worlds[k].name
            &&& new.document == map.documents[from.worlds[k].document as int]
        } by {
            assert(from.world_valid(k));
            if plan.worlds.contains_key(k as usize) {
                assert(plan.world_homed(from, into, k as usize));
                let d = from.worlds[k].document;
                assert(map.documents[d as int] == plan.documents[d]);
                let x = map.worlds[k] as int;
                assert(after.worlds[x] == into.worlds[x]);
            }
        }
        assert forall|k: int| 0 <= k < from.types.len() implies {
            let new = after.types[(#[trigger] map.types[k]) as int];
            &&& new.name == from.types[k].name
            &&& new.owner == mapped_owner(map, from.types[k].owner)
        } by {
            assert(from.type_valid(k));
            if plan.types.contains_key(k as usize) {
                assert(plan.type_homed(from, into, k as usize));
                match from.types[k].owner {
                    TypeOwner::Interface(i) => {
                        assert(map.interfaces[i as int] == plan.interfaces[i]);
                    },
                    TypeOwner::World(w) => {
                        assert(map.worlds[w as int] == plan.worlds[w]);
                    },
                    TypeOwner::Unowned => {},
                }
                let x = map.types[k] as int;
                assert(after.types[x] == into.types[x]);
            }
        }
    }
}

/// Merging unions packages by name and URL: a package that has the name and the URL of one that was
/// there before becomes that one, and no others do. If no two packages were the same in this
/// respect before then no two are afterwards.
pub proof fn merging_unions_packages(into: ResolveView, from: ResolveView)
    requires
        comparable(from, into),
        packages_differ(into),
        merged(into, from).0.fits(),
    ensures
        merged(into, from) matches (after, Ok(map)) ==> {
            &&& forall|p: int, q: int|
                #![trigger from.packages[p], into.packages[q]]
                0 <= p < from.packages.len() && 0 <= q < into.packages.len() ==> (same_package(
                    from.packages[p],
                    into.packages[q],
                ) <==> map.packages[p] == q)
            &&& packages_differ(after)
        },
{
    parented_resolves_merge(from, into);
    if merged(into, from).1.is_ok() && matched(from, into).is_ok() {
        let plan = matched(from, into)->Ok_0;
        let (after, map) = (merged(into, from).0, merged(into, from).1->Ok_0);
        merging_maps_parents(into, from);
        merging_maps_items(into, from);
        merging_keeps_items(into, from);
        matched_items_correspond(from, into);
        lemma_matched_within(from, into);
        lemma_union_len(into, from, plan);
        assert forall|p: int, q: int|
            #![trigger from.packages[p], into.packages[q]]
            0 <= p < from.packages.len() && 0 <= q < into.packages.len() implies (same_package(
            from.packages[p],
            into.packages[q],
        ) <==> map.packages[p] == q) by {
            lemma_find_package(into.packages, from.packages[p], into.packages.len());
            if plan.packages.contains_key(p as usize) {
                assert(plan.package_homed(from, into, p as usize));
                let r = map.packages[p] as int;
                assert(same_package(from.packages[p], into.packages[r]));
                if q != r && same_package(from.packages[p], into.packages[q]) {
                    assert(same_package(into.packages[q], into.packages[r]));
                    assert(same_package(into.packages[r], into.packages[q]));
                }
            } else {
                lemma_renumbered_at(
                    into.packages.len(),
                    plan.packages,
                    from.packages.len() as int,
                    p,
                );
            }
        }
        assert forall|x: int, y: int|
            #![trigger after.packages[x], after.packages[y]]
            0 <= x < y < after.packages.len() implies !same_package(
            after.packages[x],
            after.packages[y],
        ) by {
            if y < into.packages.len() {
                assert(!same_package(into.packages[x], into.packages[y]));
            } else {
                let q = lemma_source(
                    into.packages.len(),
                    plan.packages,
                    from.packages.len() as int,
                    y,
                );
                assert(map.packages[q] == y);
                if x < into.packages.len() {
                    assert(!same_package(from.packages[q], into.packages[x]));
                } else {
                    let p = lemma_source(
                        into.packages.len(),
                        plan.packages,
                        from.packages.len() as int,
                        x,
                    );
                    assert(map.packages[p] == x);
                    assert(!same_package(from.packages[p], from.packages[q]));
                    assert(!same_package(from.packages[q], from.packages[p]));
                }
            }
        }
    }
}

/// What is to be listed is listed.
proof fn lemma_added_contains(new: Seq<Addition>, ids: Seq<usize>, n: nat, k: int) -> (i: int)
    requires
        0 <= k < n <= new.len(),
    ensures
        0 <= i < added_to(new, ids, new[k].1 as int, n).len(),
        added_to(new, ids, new[k].1 as int, n)[i] == (new[k].0, ids[new[k].2 as int]),
    decreases n,
{
    if k == n - 1 {
        added_to(new, ids, new[k].1 as int, (n - 1) as nat).len() as int
    } else {
        lemma_added_contains(new, ids, (n - 1) as nat, k)
    }
}

/// What the packages list: what they listed before, followed by what is new. Packages that were
/// moved list what they listed before, renumbered.
pub proof fn lemma_packages_after(
    into: ResolveView,
    from: ResolveView,
    plan: Plan,
    after: ResolveView,
    map: RemapView,
    q: int,
) -> (k: int)
    requires
        merge_of(into, from, plan, after, map),
        0 <= q < after.packages.len(),
    ensures
        q < into.packages.len() ==> after.packages[q].documents == into.packages[q].documents
            + added_to(plan.new_documents, map.documents, q, plan.new_documents.len()),
        q >= into.packages.len() ==> {
            &&& 0 <= k < from.packages.len()
            &&& !plan.packages.contains_key(k as usize)
            &&& map.packages[k] == q
            &&& after.packages[q].documents == mapped_ids(
                map.documents,
                from.packages[k].documents,
            )
        },
{
    lemma_matched_within(from, into);
    lemma_union_len(into, from, plan);
    lemma_unioned(into, from, plan);
    merging_maps_items(into, from);
    if q < into.packages.len() {
        assert(joined(into, from, plan).packages[q] == into.packages[q]);
        0
    } else {
        lemma_source(into.packages.len(), plan.packages, from.packages.len() as int, q)
    }
}

pub proof fn lemma_documents_after(
    into: ResolveView,
    from: ResolveView,
    plan: Plan,
    after: ResolveView,
    map: RemapView,
    x: int,
) -> (k: int)
    requires
        merge_of(into, from, plan, after, map),
        0 <= x < after.documents.len(),
    ensures
        x < into.documents.len() ==> {
            &&& after.documents[x].interfaces == into.documents[x].interfaces + added_to(
                plan.new_interfaces,
                map.interfaces,
                x,
                plan.new_interfaces.len(),
            )
            &&& after.documents[x].worlds == into.documents[x].worlds + added_to(
                plan.new_worlds,
                map.worlds,
                x,
                plan.new_worlds.len(),
            )
            &&& after.documents[x].name == into.documents[x].name
            &&& after.documents[x].package == into.documents[x].package
        },
        x >= into.documents.len() ==> {
            &&& 0 <= k < from.documents.len()
            &&& !plan.documents.contains_key(k as usize)
            &&& map.documents[k] == x
            &&& after.documents[x].interfaces == mapped_ids(
                map.interfaces,
                from.documents[k].interfaces,
            )
            &&& after.documents[x].worlds == mapped_ids(map.worlds, from.documents[k].worlds)
        },
{
    lemma_matched_within(from, into);
    lemma_union_len(into, from, plan);
    lemma_unioned(into, from, plan);
    merging_maps_items(into, from);
    if x < into.documents.len() {
        assert(joined(into, from, plan).documents[x] == into.documents[x]);
        0
    } else {
        lemma_source(into.documents.len(), plan.documents, from.documents.len() as int, x)
    }
}

proof fn lemma_package_lists(
    into: ResolveView,
    from: ResolveView,
    plan: Plan,
    after: ResolveView,
    map: RemapView,
    q: int,
)
    requires
        merge_of(into, from, plan, after, map),
        0 <= q < after.packages.len(),
    ensures
        after.package_lists(q),
{
    matched_items_correspond(from, into);
    merging_keeps_items(into, from);
    merging_keeps_valid(into, from);
    merging_maps_parents(into, from);
    merging_maps_items(into, from);
    let k = lemma_packages_after(into, from, plan, after, map, q);
    let list = after.packages[q].documents;
    assert forall|j: int| 0 <= j < list.len() implies {
        let (name, id) = #[trigger] list[j];
        &&& after.documents[id as int].package == Some(q as usize)
        &&& after.documents[id as int].name == name
    } by {
        if q < into.packages.len() {
            let old = into.packages[q].documents;
            if j < old.len() {
                assert(list[j] == old[j]);
                assert(into.package_lists(q));
                assert(into.package_valid(q));
                assert(old[j].1 < into.documents.len());
                assert(after.documents[old[j].1 as int].name == into.documents[old[j].1 as int].name);
            } else {
                let new = plan.new_documents;
                let i = lemma_added_from(new, map.documents, q, new.len(), j - old.len());
                let e = new[i];
                assert(plan.new_document_homed(from, e));
                assert(list[j] == (e.0, map.documents[e.2 as int]));
                let p = from.documents[e.2 as int].package.unwrap();
                assert(from.document_valid(e.2 as int));
                assert(map.packages[p as int] == plan.packages[p]);
            }
        } else {
            let old = from.packages[k].documents;
            assert(list[j] == (old[j].0, map.documents[old[j].1 as int]));
            assert(from.package_lists(k));
            assert(from.package_valid(k));
            assert(old[j].1 < from.documents.len());
            assert(from.documents[old[j].1 as int].package == Some(k as usize));
        }
    }
}

proof fn lemma_document_listed(
    into: ResolveView,
    from: ResolveView,
    plan: Plan,
    after: ResolveView,
    map: RemapView,
    x: int,
)
    requires
        merge_of(into, from, plan, after, map),
        0 <= x < after.documents.len(),
    ensures
        after.document_listed(x),
{
    if x < into.documents.len() {
        merging_keeps_items(into, from);
        merging_keeps_valid(into, from);
        assert(into.document_listed(x));
        assert(into.document_valid(x));
        assert(after.documents[x].name == into.documents[x].name);
        let p = into.documents[x].package.unwrap();
        let name = into.documents[x].name;
        let old = into.packages[p as int].documents;
        lemma_find(old, name);
        let j = find(old, name).unwrap();
        assert(old[j] == (name, x as usize));
        assert(old.is_prefix_of(after.packages[p as int].documents));
        assert(after.packages[p as int].documents[j] == old[j]);
        assert(after.package_valid(p as int));
        lemma_lookup_at(after.packages[p as int].documents, j);
    } else {
        let d = lemma_documents_after(into, from, plan, after, map, x);
        lemma_moved_document_listed(into, from, plan, after, map, d);
    }
}

proof fn lemma_moved_document_listed(
    into: ResolveView,
    from: ResolveView,
    plan: Plan,
    after: ResolveView,
    map: RemapView,
    d: int,
)
    requires
        merge_of(into, from, plan, after, map),
        0 <= d < from.documents.len(),
        !plan.documents.contains_key(d as usize),
    ensures
        after.document_listed(map.documents[d] as int),
{
    let x = map.documents[d];
    assert(from.document_listed(d));
    assert(from.document_valid(d));
    let p = from.documents[d].package.unwrap();
    let name = from.documents[d].name;
    let old = from.packages[p as int].documents;
    lemma_find(old, name);
    let j = find(old, name).unwrap();
    assert(old[j] == (name, d as usize));
    let q = map.packages[p as int] as int;
    let list = after.packages[q].documents;
    merging_keeps_valid(into, from);
    merging_maps_parents(into, from);
    assert(after.documents[x as int].name == name);
    assert(after.documents[x as int].package == Some(q as usize));
    assert(after.package_valid(q));
    merging_maps_items(into, from);
    if plan.packages.contains_key(p) {
        lemma_packages_after(into, from, plan, after, map, q);
        matched_items_correspond(from, into);
        assert(plan.package_done(from, p));
        assert(queued(plan.new_documents, old[j].1));
        let new = plan.new_documents;
        let i = choose|i: int| 0 <= i < new.len() && (#[trigger] new[i]).2 == d as usize;
        assert(plan.new_document_homed(from, new[i]));
        let at = lemma_added_contains(new, map.documents, new.len(), i);
        assert(list[into.packages[q].documents.len() + at] == (name, x));
        lemma_lookup_at(list, into.packages[q].documents.len() + at);
    } else {
        assert(after.packages[q] == moved_package(map.documents, from.packages[p as int]));
        assert(list[j] == (name, x));
        lemma_lookup_at(list, j);
    }
}

/// The interfaces that a document lists.
proof fn lemma_document_lists_interfaces(
    into: ResolveView,
    from: ResolveView,
    plan: Plan,
    after: ResolveView,
    map: RemapView,
    x: int,
)
    requires
        merge_of(into, from, plan, after, map),
        0 <= x < after.documents.len(),
    ensures
        forall|j: int|
            0 <= j < after.documents[x].interfaces.len() ==> {
                let (name, id) = #[trigger] after.documents[x].interfaces[j];
                &&& after.interfaces[id as int].document == x
                &&& after.interfaces[id as int].name == Some(name)
            },
{
    matched_items_correspond(from, into);
    merging_maps_parents(into, from);
    merging_maps_items(into, from);
    let d = lemma_documents_after(into, from, plan, after, map, x);
    let list = after.documents[x].interfaces;
    assert forall|j: int| 0 <= j < list.len() implies {
        let (name, id) = #[trigger] list[j];
        &&& after.interfaces[id as int].document == x
        &&& after.interfaces[id as int].name == Some(name)
    } by {
        if x < into.documents.len() {
            let old = into.documents[x].interfaces;
            if j < old.len() {
                assert(list[j] == old[j]);
                assert(into.document_lists(x));
                assert(into.document_valid(x));
                assert(old[j].1 < into.interfaces.len());
                merging_keeps_items(into, from);
                assert(after.interfaces[old[j].1 as int] == into.interfaces[old[j].1 as int]);
            } else {
                let new = plan.new_interfaces;
                let i = lemma_added_from(new, map.interfaces, x, new.len(), j - old.len());
                let e = new[i];
                assert(plan.new_interface_homed(from, e));
                assert(list[j] == (e.0, map.interfaces[e.2 as int]));
                let c = from.interfaces[e.2 as int].document;
                assert(from.interface_valid(e.2 as int));
                assert(map.documents[c as int] == plan.documents[c]);
            }
        } else {
            let old = from.documents[d].interfaces;
            assert(list[j] == (old[j].0, map.interfaces[old[j].1 as int]));
            assert(from.document_lists(d));
            assert(from.document_valid(d));
            assert(old[j].1 < from.interfaces.len());
            assert(from.interfaces[old[j].1 as int].document == d);
        }
    }
}

/// The worlds that a document lists.
proof fn lemma_document_lists_worlds(
    into: ResolveView,
    from: ResolveView,
    plan: Plan,
    after: ResolveView,
    map: RemapView,
    x: int,
)
    requires
        merge_of(into, from, plan, after, map),
        0 <= x < after.documents.len(),
    ensures
        forall|j: int|
            0 <= j < after.documents[x].worlds.len() ==> {
                let (name, id) = #[trigger] after.documents[x].worlds[j];
                &&& after.worlds[id as int].document == x
                &&& after.worlds[id as int].name == name
            },
{
    matched_items_correspond(from, into);
    merging_maps_parents(into, from);
    merging_maps_items(into, from);
    let d = lemma_documents_after(into, from, plan, after, map, x);
    let list = after.documents[x].worlds;
    assert forall|j: int| 0 <= j < list.len() implies {
        let (name, id) = #[trigger] list[j];
        &&& after.worlds[id as int].document == x
        &&& after.worlds[id as int].name == name
    } by {
        if x < into.documents.len() {
            let old = into.documents[x].worlds;
            if j < old.len() {
                assert(list[j] == old[j]);
                assert(into.document_lists(x));
                assert(into.document_valid(x));
                assert(old[j].1 < into.worlds.len());
                merging_keeps_items(into, from);
                assert(after.worlds[old[j].1 as int] == into.worlds[old[j].1 as int]);
            } else {
                let new = plan.new_worlds;
                let i = lemma_added_from(new, map.worlds, x, new.len(), j - old.len());
                let e = new[i];
                assert(plan.new_world_homed(from, e));
                assert(list[j] == (e.0, map.worlds[e.2 as int]));
                let c = from.worlds[e.2 as int].document;
                assert(from.world_valid(e.2 as int));
                assert(map.documents[c as int] == plan.documents[c]);
            }
        } else {
            let old = from.documents[d].worlds;
            assert(list[j] == (old[j].0, map.worlds[old[j].1 as int]));
            assert(from.document_lists(d));
            assert(from.document_valid(d));
            assert(old[j].1 < from.worlds.len());
            assert(from.worlds[old[j].1 as int].document == d);
        }
    }
}

proof fn lemma_document_defaults(
    into: ResolveView,
    from: ResolveView,
    plan: Plan,
    after: ResolveView,
    map: RemapView,
    x: int,
)
    requires
        merge_of(into, from, plan, after, map),
        0 <= x < after.documents.len(),
    ensures
        after.document_defaults(x),
{
    let d = lemma_documents_after(into, from, plan, after, map, x);
    if x < into.documents.len() {
        merging_keeps_items(into, from);
        assert(into.document_defaults(x));
        assert(into.document_valid(x));
        let old = into.documents[x];
        assert(after.documents[x].default_interface == old.default_interface);
        assert(after.documents[x].default_world == old.default_world);
        if let Some(id) = old.default_interface {
            assert(after.interfaces[id as int] == into.interfaces[id as int]);
        }
        if let Some(id) = old.default_world {
            assert(after.worlds[id as int] == into.worlds[id as int]);
        }
    } else {
        merging_maps_items(into, from);
        merging_maps_parents(into, from);
        assert(from.document_defaults(d));
        assert(from.document_valid(d));
        let old = from.documents[d];
        assert(map.documents[d] == x);
        if let Some(id) = old.default_interface {
            assert(after.documents[x].default_interface == Some(map.interfaces[id as int]));
        }
        if let Some(id) = old.default_world {
            assert(after.documents[x].default_world == Some(map.worlds[id as int]));
        }
    }
}

proof fn lemma_interface_listed(
    into: ResolveView,
    from: ResolveView,
    plan: Plan,
    after: ResolveView,
    map: RemapView,
    x: int,
)
    requires
        merge_of(into, from, plan, after, map),
        0 <= x < after.interfaces.len(),
    ensures
        after.interface_listed(x),
{
    if x < into.interfaces.len() {
        merging_keeps_items(into, from);
        merging_keeps_valid(into, from);
        assert(after.interfaces[x] == into.interfaces[x]);
        assert(into.interface_listed(x));
        assert(into.interface_valid(x));
        if let Some(name) = into.interfaces[x].name {
            let d = into.interfaces[x].document as int;
            let old = into.documents[d].interfaces;
            let list = after.documents[d].interfaces;
            lemma_find(old, name);
            let j = find(old, name).unwrap();
            assert(old[j] == (name, x as usize));
            assert(old.is_prefix_of(list));
            assert(list[j] == old[j]);
            assert(after.document_valid(d));
            lemma_lookup_at(list, j);
        }
    } else {
        lemma_matched_within(from, into);
        let i = lemma_source(
            into.interfaces.len(),
            plan.interfaces,
            from.interfaces.len() as int,
            x,
        );
        lemma_moved_interface_listed(into, from, plan, after, map, i);
    }
}

proof fn lemma_moved_interface_listed(
    into: ResolveView,
    from: ResolveView,
    plan: Plan,
    after: ResolveView,
    map: RemapView,
    i: int,
)
    requires
        merge_of(into, from, plan, after, map),
        0 <= i < from.interfaces.len(),
        !plan.interfaces.contains_key(i as usize),
    ensures
        after.interface_listed(map.interfaces[i] as int),
{
    let x = map.interfaces[i];
    merging_maps_parents(into, from);
    assert(after.interfaces[x as int].name == from.interfaces[i].name);
    assert(from.interface_listed(i));
    assert(from.interface_valid(i));
    if let Some(name) = from.interfaces[i].name {
        let d = from.interfaces[i].document;
        let old = from.documents[d as int].interfaces;
        lemma_find(old, name);
        let j = find(old, name).unwrap();
        assert(old[j] == (name, i as usize));
        let y = map.documents[d as int] as int;
        let list = after.documents[y].interfaces;
        assert(after.interfaces[x as int].document == y);
        merging_keeps_valid(into, from);
        assert(after.document_valid(y));
        merging_maps_items(into, from);
        if plan.documents.contains_key(d) {
            lemma_documents_after(into, from, plan, after, map, y);
            matched_items_correspond(from, into);
            assert(plan.document_done(from, d));
            assert(queued(plan.new_interfaces, old[j].1));
            let new = plan.new_interfaces;
            let k = choose|k: int| 0 <= k < new.len() && (#[trigger] new[k]).2 == i as usize;
            assert(plan.new_interface_homed(from, new[k]));
            let at = lemma_added_contains(new, map.interfaces, new.len(), k);
            assert(list[into.documents[y].interfaces.len() + at] == (name, x));
            lemma_lookup_at(list, into.documents[y].interfaces.len() + at);
        } else {
            assert(list == mapped_ids(map.interfaces, old));
            assert(list[j] == (name, x));
            lemma_lookup_at(list, j);
        }
    }
}

proof fn lemma_world_listed(
    into: ResolveView,
    from: ResolveView,
    plan: Plan,
    after: ResolveView,
    map: RemapView,
    x: int,
)
    requires
        merge_of(into, from, plan, after, map),
        0 <= x < after.worlds.len(),
    ensures
        after.world_listed(x),
{
    if x < into.worlds.len() {
        merging_keeps_items(into, from);
        merging_keeps_valid(into, from);
        assert(after.worlds[x] == into.worlds[x]);
        assert(into.world_listed(x));
        assert(into.world_valid(x));
        let name = into.worlds[x].name;
        let d = into.worlds[x].document as int;
        let old = into.documents[d].worlds;
        let list = after.documents[d].worlds;
        lemma_find(old, name);
        let j = find(old, name).unwrap();
        assert(old[j] == (name, x as usize));
        assert(old.is_prefix_of(list));
        assert(list[j] == old[j]);
        assert(after.document_valid(d));
        lemma_lookup_at(list, j);
    } else {
        lemma_matched_within(from, into);
        let w = lemma_source(into.worlds.len(), plan.worlds, from.worlds.len() as int, x);
        lemma_moved_world_listed(into, from, plan, after, map, w);
    }
}

proof fn lemma_moved_world_listed(
    into: ResolveView,
    from: ResolveView,
    plan: Plan,
    after: ResolveView,
    map: RemapView,
    w: int,
)
    requires
        merge_of(into, from, plan, after, map),
        0 <= w < from.worlds.len(),
        !plan.worlds.contains_key(w as usize),
    ensures
        after.world_listed(map.worlds[w] as int),
{
    let x = map.worlds[w];
    merging_maps_parents(into, from);
    assert(after.worlds[x as int].name == from.worlds[w].name);
    assert(from.world_listed(w));
    assert(from.world_valid(w));
    let name = from.worlds[w].name;
    let d = from.worlds[w].document;
    let old = from.documents[d as int].worlds;
    lemma_find(old, name);
    let j = find(old, name).unwrap();
    assert(old[j] == (name, w as usize));
    let y = map.documents[d as int] as int;
    let list = after.documents[y].worlds;
    assert(after.worlds[x as int].document == y);
    merging_keeps_valid(into, from);
    assert(after.document_valid(y));
    merging_maps_items(into, from);
    if plan.documents.contains_key(d) {
        lemma_documents_after(into, from, plan, after, map, y);
        matched_items_correspond(from, into);
        assert(plan.document_done(from, d));
        assert(queued(plan.new_worlds, old[j].1));
        let new = plan.new_worlds;
        let k = choose|k: int| 0 <= k < new.len() && (#[trigger] new[k]).2 == w as usize;
        assert(plan.new_world_homed(from, new[k]));
        let at = lemma_added_contains(new, map.worlds, new.len(), k);
        assert(list[into.documents[y].worlds.len() + at] == (name, x));
        lemma_lookup_at(list, into.documents[y].worlds.len() + at);
    } else {
        assert(list == mapped_ids(map.worlds, old));
        assert(list[j] == (name, x));
        lemma_lookup_at(list, j);
    }
}

proof fn lemma_interface_lists(
    into: ResolveView,
    from: ResolveView,
    plan: Plan,
    after: ResolveView,
    map: RemapView,
    x: int,
)
    requires
        merge_of(into, from, plan, after, map),
        0 <= x < after.interfaces.len(),
    ensures
        after.interface_lists(x),
{
    let list = after.interfaces[x].types;
    if x < into.interfaces.len() {
        merging_keeps_items(into, from);
        assert(after.interfaces[x] == into.interfaces[x]);
        assert(into.interface_lists(x));
        assert(into.interface_valid(x));
        assert forall|j: int| 0 <= j < list.len() implies {
            let (name, id) = #[trigger] list[j];
            &&& after.types[id as int].owner == TypeOwner::Interface(x as usize)
            &&& after.types[id as int].name == Some(name)
        } by {
            assert(into.interfaces[x].types[j] == list[j]);
            assert(list[j].1 < into.types.len());
            assert(after.types[list[j].1 as int] == into.types[list[j].1 as int]);
        }
    } else {
        lemma_matched_within(from, into);
        let i = lemma_source(
            into.interfaces.len(),
            plan.interfaces,
            from.interfaces.len() as int,
            x,
        );
        merging_maps_items(into, from);
        merging_maps_parents(into, from);
        let old = from.interfaces[i].types;
        assert(map.interfaces[i] == x);
        assert(list == mapped_ids(map.types, old));
        assert(from.interface_lists(i));
        assert(from.interface_valid(i));
        assert forall|j: int| 0 <= j < list.len() implies {
            let (name, id) = #[trigger] list[j];
            &&& after.types[id as int].owner == TypeOwner::Interface(x as usize)
            &&& after.types[id as int].name == Some(name)
        } by {
            assert(list[j] == (old[j].0, map.types[old[j].1 as int]));
            assert(old[j].1 < from.types.len());
            assert(from.types[old[j].1 as int].owner == TypeOwner::Interface(i as usize));
        }
    }
}

proof fn lemma_type_listed(
    into: ResolveView,
    from: ResolveView,
    plan: Plan,
    after: ResolveView,
    map: RemapView,
    y: int,
)
    requires
        merge_of(into, from, plan, after, map),
        0 <= y < after.types.len(),
    ensures
        after.type_listed(y),
{
    if y < into.types.len() {
        merging_keeps_items(into, from);
        assert(after.types[y] == into.types[y]);
        assert(into.type_listed(y));
        assert(into.type_valid(y));
        if let TypeOwner::Interface(i) = into.types[y].owner {
            assert(after.interfaces[i as int] == into.interfaces[i as int]);
        }
    } else {
        lemma_matched_within(from, into);
        let t = lemma_source(into.types.len(), plan.types, from.types.len() as int, y);
        merging_maps_parents(into, from);
        assert(map.types[t] == y);
        assert(after.types[y].owner == mapped_owner(map, from.types[t].owner));
        assert(from.type_listed(t));
        assert(from.type_valid(t));
        if let TypeOwner::Interface(i) = from.types[t].owner {
            let name = from.types[t].name.unwrap();
            let old = from.interfaces[i as int].types;
            lemma_find(old, name);
            let j = find(old, name).unwrap();
            assert(old[j] == (name, t as usize));
            matched_items_correspond(from, into);
            if plan.interfaces.contains_key(i) {
                assert(plan.interface_done(from, i));
                assert(plan.types.contains_key(old[j].1));
            }
            merging_maps_items(into, from);
            let x = map.interfaces[i as int] as int;
            let list = after.interfaces[x].types;
            assert(list == mapped_ids(map.types, old));
            assert(list[j] == (name, y as usize));
            merging_keeps_valid(into, from);
            assert(after.interface_valid(x));
            lemma_lookup_at(list, j);
        }
    }
}

/// Where the items of a world come from.
proof fn lemma_worlds_after(
    into: ResolveView,
    from: ResolveView,
    plan: Plan,
    after: ResolveView,
    map: RemapView,
    x: int,
) -> (w: int)
    requires
        merge_of(into, from, plan, after, map),
        0 <= x < after.worlds.len(),
    ensures
        x < into.worlds.len() ==> after.worlds[x] == into.worlds[x],
        x >= into.worlds.len() ==> {
            &&& 0 <= w < from.worlds.len()
            &&& !plan.worlds.contains_key(w as usize)
            &&& map.worlds[w] == x
            &&& after.worlds[x].document == map.documents[from.worlds[w].document as int]
            &&& forall|import: bool|
                (#[trigger] after.world_items(x, import)).len() == from.world_items(
                    w,
                    import,
                ).len()
            &&& forall|import: bool, j: int|
                0 <= j < from.world_items(w, import).len() ==> #[trigger] after.world_items(
                    x,
                    import,
                )[j] == (
                    from.world_items(w, import)[j].0,
                    mapped_item(map.item_map(), from.world_items(w, import)[j].1),
                )
        },
{
    lemma_matched_within(from, into);
    merging_maps_items(into, from);
    merging_keeps_items(into, from);
    if x < into.worlds.len() {
        0
    } else {
        let w = lemma_source(into.worlds.len(), plan.worlds, from.worlds.len() as int, x);
        let expected = moved_world(map.item_map(), from.worlds[w]);
        assert(after.worlds[x].imports == expected.imports);
        assert(after.worlds[x].exports == expected.exports);
        w
    }
}

proof fn lemma_world_lists(
    into: ResolveView,
    from: ResolveView,
    plan: Plan,
    after: ResolveView,
    map: RemapView,
    x: int,
)
    requires
        merge_of(into, from, plan, after, map),
        0 <= x < after.worlds.len(),
    ensures
        after.world_lists(x),
{
    let w = lemma_worlds_after(into, from, plan, after, map, x);
    if x < into.worlds.len() {
        merging_keeps_items(into, from);
        assert(into.world_lists(x));
        assert(into.world_valid(x));
        let world = into.worlds[x];
        assert forall|j: int| 0 <= j < world.imports.len() implies match #[trigger] world.imports[j] {
            (name, ItemView::Type(id)) => {
                &&& after.types[id as int].owner == TypeOwner::World(x as usize)
                &&& after.types[id as int].name == Some(name)
            },
            (_, ItemView::Interface(id)) => after.interfaces[id as int].name.is_none()
                ==> after.interfaces[id as int].document == world.document,
            _ => true,
        } by {
            assert(item_within(world.imports[j].1, into.interfaces.len(), into.types.len()));
            match world.imports[j].1 {
                ItemView::Type(id) => {
                    assert(after.types[id as int] == into.types[id as int]);
                },
                ItemView::Interface(id) => {
                    assert(after.interfaces[id as int] == into.interfaces[id as int]);
                },
                _ => {},
            }
        }
        assert forall|j: int| 0 <= j < world.exports.len() implies match #[trigger] world.exports[j] {
            (_, ItemView::Type(_)) => false,
            (_, ItemView::Interface(id)) => after.interfaces[id as int].name.is_none()
                ==> after.interfaces[id as int].document == world.document,
            _ => true,
        } by {
            assert(item_within(world.exports[j].1, into.interfaces.len(), into.types.len()));
            if let ItemView::Interface(id) = world.exports[j].1 {
                assert(after.interfaces[id as int] == into.interfaces[id as int]);
            }
        }
    } else {
        merging_maps_parents(into, from);
        assert(from.world_lists(w));
        assert(from.world_valid(w));
        let old = from.worlds[w];
        let world = after.worlds[x];
        assert forall|j: int| 0 <= j < world.imports.len() implies match #[trigger] world.imports[j] {
            (name, ItemView::Type(id)) => {
                &&& after.types[id as int].owner == TypeOwner::World(x as usize)
                &&& after.types[id as int].name == Some(name)
            },
            (_, ItemView::Interface(id)) => after.interfaces[id as int].name.is_none()
                ==> after.interfaces[id as int].document == world.document,
            _ => true,
        } by {
            assert(after.world_items(x, true)[j] == world.imports[j]);
            assert(after.world_items(x, true).len() == old.imports.len());
            assert(from.world_items(w, true)[j] == old.imports[j]);
            assert(item_within(old.imports[j].1, from.interfaces.len(), from.types.len()));
            match old.imports[j].1 {
                ItemView::Type(t) => {
                    assert(world.imports[j].1 == ItemView::Type(map.types[t as int]));
                    assert(from.types[t as int].owner == TypeOwner::World(w as usize));
                },
                ItemView::Interface(i) => {
                    assert(world.imports[j].1 == ItemView::Interface(map.interfaces[i as int]));
                },
                _ => {},
            }
        }
        assert forall|j: int| 0 <= j < world.exports.len() implies match #[trigger] world.exports[j] {
            (_, ItemView::Type(_)) => false,
            (_, ItemView::Interface(id)) => after.interfaces[id as int].name.is_none()
                ==> after.interfaces[id as int].document == world.document,
            _ => true,
        } by {
            assert(after.world_items(x, false)[j] == world.exports[j]);
            assert(after.world_items(x, false).len() == old.exports.len());
            assert(from.world_items(w, false)[j] == old.exports[j]);
            assert(item_within(old.exports[j].1, from.interfaces.len(), from.types.len()));
            if let ItemView::Interface(i) = old.exports[j].1 {
                assert(world.exports[j].1 == ItemView::Interface(map.interfaces[i as int]));
            }
        }
    }
}

/// An interface without a name that stands in a world that was moved was moved with it.
proof fn lemma_moved_unnamed(
    into: ResolveView,
    from: ResolveView,
    plan: Plan,
    after: ResolveView,
    map: RemapView,
    x: int,
    import: bool,
    j: int,
    id: InterfaceId,
) -> (result: (int, int))
    requires
        merge_of(into, from, plan, after, map),
        into.worlds.len() <= x < after.worlds.len(),
        after.stands_at(id, x, import, j),
        after.interfaces[id as int].name.is_none(),
    ensures
        ({
            let (w, i) = result;
            &&& 0 <= w < from.worlds.len()
            &&& 0 <= i < from.interfaces.len()
            &&& map.worlds[w] == x
            &&& map.interfaces[i] == id
            &&& from.stands_at(i as usize, w, import, j)
            &&& from.interfaces[i].name.is_none()
            &&& !plan.interfaces.contains_key(i as usize)
            &&& !plan.worlds.contains_key(w as usize)
        }),
{
    let w = lemma_worlds_after(into, from, plan, after, map, x);
    merging_maps_parents(into, from);
    matched_items_correspond(from, into);
    assert(from.world_valid(w));
    assert(after.world_items(x, import).len() == from.world_items(w, import).len());
    let item = from.world_items(w, import)[j].1;
    assert(after.world_items(x, import)[j].1 == mapped_item(map.item_map(), item));
    assert(item_within(item, from.interfaces.len(), from.types.len()));
    let i = item->Interface_0;
    assert(map.interfaces[i as int] == id);
    assert(from.stands_at(i, w, import, j));
    if plan.interfaces.contains_key(i) {
        assert(plan.interface_homed(from, into, i));
        let (v, d, k) = choose|v: usize, d: bool, k: int|
            plan.worlds.contains_key(v) && #[trigger] from.stands_at(i, v as int, d, k);
        assert(from.stands_at(i, v as int, d, k));
    }
    (w, i as int)
}

proof fn lemma_unnamed_once(
    into: ResolveView,
    from: ResolveView,
    plan: Plan,
    after: ResolveView,
    map: RemapView,
)
    requires
        merge_of(into, from, plan, after, map),
    ensures
        after.unnamed_once(),
{
    assert forall|id: InterfaceId, v: int, a: bool, i: int, w: int, b: bool, j: int|
        #![trigger after.stands_at(id, v, a, i), after.stands_at(id, w, b, j)]
        after.stands_at(id, v, a, i) && after.stands_at(id, w, b, j) && id < after.interfaces.len()
            && after.interfaces[id as int].name.is_none() implies v == w && a == b && i == j by {
        lemma_unnamed_place(into, from, plan, after, map, id, v, a, i, w, b, j);
    }
}

proof fn lemma_unnamed_place(
    into: ResolveView,
    from: ResolveView,
    plan: Plan,
    after: ResolveView,
    map: RemapView,
    id: InterfaceId,
    v: int,
    a: bool,
    i: int,
    w: int,
    b: bool,
    j: int,
)
    requires
        merge_of(into, from, plan, after, map),
        after.stands_at(id, v, a, i),
        after.stands_at(id, w, b, j),
        id < after.interfaces.len(),
        after.interfaces[id as int].name.is_none(),
    ensures
        v == w && a == b && i == j,
{
    lemma_matched_within(from, into);
    merging_keeps_items(into, from);
    let base = into.interfaces.len();
    let n = from.interfaces.len() as int;
    if v < into.worlds.len() {
        lemma_old_place(into, from, plan, after, map, id, v, a, i);
    }
    if w < into.worlds.len() {
        lemma_old_place(into, from, plan, after, map, id, w, b, j);
    }
    if v >= into.worlds.len() {
        let (x, k) = lemma_moved_unnamed(into, from, plan, after, map, v, a, i, id);
        lemma_renumbered_at(base, plan.interfaces, n, k);
        if w >= into.worlds.len() {
            let (y, l) = lemma_moved_unnamed(into, from, plan, after, map, w, b, j, id);
            lemma_renumbered_at(base, plan.interfaces, n, l);
            assert(from.stands_at(k as usize, x, a, i));
            assert(from.stands_at(k as usize, y, b, j));
        }
    } else if w >= into.worlds.len() {
        let (y, l) = lemma_moved_unnamed(into, from, plan, after, map, w, b, j, id);
        lemma_renumbered_at(base, plan.interfaces, n, l);
    } else {
        assert(after.interfaces[id as int] == into.interfaces[id as int]);
    }
}

/// A place of a world that was there before.
proof fn lemma_old_place(
    into: ResolveView,
    from: ResolveView,
    plan: Plan,
    after: ResolveView,
    map: RemapView,
    id: InterfaceId,
    v: int,
    a: bool,
    i: int,
)
    requires
        merge_of(into, from, plan, after, map),
        after.stands_at(id, v, a, i),
        v < into.worlds.len(),
    ensures
        into.stands_at(id, v, a, i),
        id < into.interfaces.len(),
{
    lemma_worlds_after(into, from, plan, after, map, v);
    assert(into.world_valid(v));
    assert(into.world_items(v, a) == after.world_items(v, a));
    assert(item_within(into.world_items(v, a)[i].1, into.interfaces.len(), into.types.len()));
}

/// If every item of two resolves can be traced back to its package then so can every item of the
/// resolve that one of them was merged into.
pub proof fn merging_keeps_parents(into: ResolveView, from: ResolveView)
    requires
        comparable(from, into),
        merged(into, from).0.fits(),
    ensures
        merged(into, from).1.is_ok() ==> merged(into, from).0.parented(),
{
    parented_resolves_merge(from, into);
    if merged(into, from).1.is_ok() && matched(from, into).is_ok() {
        let plan = matched(from, into)->Ok_0;
        let (after, map) = (merged(into, from).0, merged(into, from).1->Ok_0);
        assert(merge_of(into, from, plan, after, map));
        assert forall|i: int| 0 <= i < after.packages.len() implies #[trigger] after.package_lists(
            i,
        ) by {
            lemma_package_lists(into, from, plan, after, map, i);
        }
        assert forall|i: int| 0 <= i < after.documents.len() implies
            #[trigger] after.document_listed(i) by {
            lemma_document_listed(into, from, plan, after, map, i);
        }
        assert forall|i: int| 0 <= i < after.documents.len() implies
            #[trigger] after.document_lists(i) by {
            lemma_document_lists_interfaces(into, from, plan, after, map, i);
            lemma_document_lists_worlds(into, from, plan, after, map, i);
        }
        assert forall|i: int| 0 <= i < after.documents.len() implies
            #[trigger] after.document_defaults(i) by {
            lemma_document_defaults(into, from, plan, after, map, i);
        }
        assert forall|i: int| 0 <= i < after.interfaces.len() implies
            #[trigger] after.interface_listed(i) by {
            lemma_interface_listed(into, from, plan, after, map, i);
        }
        assert forall|i: int| 0 <= i < after.interfaces.len() implies
            #[trigger] after.interface_lists(i) by {
            lemma_interface_lists(into, from, plan, after, map, i);
        }
        assert forall|i: int| 0 <= i < after.worlds.len() implies #[trigger] after.world_listed(
            i,
        ) by {
            lemma_world_listed(into, from, plan, after, map, i);
        }
        assert forall|i: int| 0 <= i < after.worlds.len() implies #[trigger] after.world_lists(
            i,
        ) by {
            lemma_world_lists(into, from, plan, after, map, i);
        }
        assert forall|i: int| 0 <= i < after.types.len() implies #[trigger] after.type_listed(i) by {
            lemma_type_listed(into, from, plan, after, map, i);
        }
        lemma_unnamed_once(into, from, plan, after, map);
    }
}

/// Another world can list these items too: they do not belong to the world that lists them now.
pub open spec fn shareable(resolve: ResolveView, items: ItemList) -> bool {
    forall|j: int|
        0 <= j < items.len() ==> match (#[trigger] items[j]).1 {
            ItemView::Type(_) => false,
            ItemView::Interface(id) => resolve.interfaces[id as int].name.is_some(),
            ItemView::Function(_) => true,
        }
}

/// Merging one world into another leaves every item traceable, if what the other world gains are
/// functions and interfaces with a name.
pub proof fn merging_worlds_keeps_parents(resolve: ResolveView, from: WorldId, into: WorldId)
    requires
        resolve.valid(),
        resolve.parented(),
        from < resolve.worlds.len(),
        into < resolve.worlds.len(),
        shareable(
            resolve,
            missing(resolve.worlds[from as int].imports, resolve.worlds[into as int].imports),
        ),
        shareable(
            resolve,
            missing(resolve.worlds[from as int].exports, resolve.worlds[into as int].exports),
        ),
    ensures
        worlds_merged(resolve, from, into).0.parented(),
{
    let (a, b) = (resolve.worlds[from as int], resolve.worlds[into as int]);
    let (after, result) = worlds_merged(resolve, from, into);
    if result.is_ok() {
        let (imports, exports) = (missing(a.imports, b.imports), missing(a.exports, b.exports));
        let new = union_of(a, b);
        assert forall|i: int| 0 <= i < after.worlds.len() implies after.worlds[i].name
            == resolve.worlds[i].name && (#[trigger] after.worlds[i]).document
            == resolve.worlds[i].document by {}
        assert forall|i: int| 0 <= i < after.packages.len() implies #[trigger] after.package_lists(
            i,
        ) by {
            assert(resolve.package_lists(i));
        }
        assert forall|i: int|
            0 <= i < after.documents.len() implies #[trigger] after.document_listed(i) by {
            assert(resolve.document_listed(i));
        }
        assert forall|i: int|
            #![trigger after.document_lists(i)]
            #![trigger after.document_defaults(i)]
            0 <= i < after.documents.len() implies after.document_lists(i)
            && after.document_defaults(i) by {
            assert(resolve.document_lists(i));
            assert(resolve.document_defaults(i));
            assert(resolve.document_valid(i));
        }
        assert forall|i: int|
            #![trigger after.interface_listed(i)]
            #![trigger after.interface_lists(i)]
            0 <= i < after.interfaces.len() implies after.interface_listed(i)
            && after.interface_lists(i) by {
            assert(resolve.interface_listed(i));
            assert(resolve.interface_lists(i));
        }
        assert forall|i: int| 0 <= i < after.types.len() implies #[trigger] after.type_listed(
            i,
        ) by {
            assert(resolve.type_listed(i));
        }
        assert forall|i: int| 0 <= i < after.worlds.len() implies #[trigger] after.world_listed(
            i,
        ) by {
            assert(resolve.world_listed(i));
        }
        assert forall|i: int| 0 <= i < after.worlds.len() implies #[trigger] after.world_lists(
            i,
        ) by {
            assert(resolve.world_lists(i));
        }
        assert forall|id: InterfaceId, w: int, import: bool, j: int|
            id < resolve.interfaces.len() && resolve.interfaces[id as int].name.is_none()
                && #[trigger] after.stands_at(id, w, import, j) implies resolve.stands_at(
            id,
            w,
            import,
            j,
        ) by {
            assert(new.imports == b.imports + imports);
            assert(new.exports == b.exports + exports);
            assert(after.world_items(w, import)[j].1 == ItemView::Interface(id));
            if w == into {
                if import && j >= b.imports.len() {
                    assert(imports[j - b.imports.len()] == new.imports[j]);
                }
                if !import && j >= b.exports.len() {
                    assert(exports[j - b.exports.len()] == new.exports[j]);
                }
            }
        }
    }
}

} // verus!
