//! What merging one resolve into another keeps.
use vstd::prelude::*;

use crate::elaborate::below;
use crate::matching::{
    additions_within, known_within, lemma_matched_within, listed_once, matched, Addition, Plan,
};
use crate::merge::{
    can_merge, joined, lemma_with_interfaces_len, merged, merged_map, moved_package, unioned,
    with_documents, with_interfaces, with_worlds,
};
use crate::moving::{
    interface_owner, moved, moved_document, moved_interface, moved_type, moved_world, renumbered,
    world_owner, Known,
};
use crate::names::{distinct, find, lemma_find, put};
use crate::remap::{
    ids_within, item_within, items_within, mapped_id, mapped_ids, mapped_item, mapped_items,
    ItemMap, RemapView,
};
use crate::resolve::ResolveView;
use crate::types::{
    DocumentView, InterfaceView, ItemView, PackageView, TypeDefView, TypeOwner, WorldView,
};
use crate::validity::{
    lemma_functions_within_more, lemma_items_within_more, lemma_mapped_function,
    lemma_mapped_functions, lemma_mapped_ids, lemma_mapped_kind, prefix_below,
};

verus! {

/// How many of the items before position `j` move.
pub open spec fn moved_before(known: Known, j: int) -> nat {
    moved(known, 0, j).len()
}

pub proof fn lemma_moved_before_grows(known: Known, j: int, n: int)
    requires
        0 <= j <= n,
    ensures
        moved_before(known, j) <= moved_before(known, n),
        moved(known, 0, j) == moved(known, 0, n).take(moved_before(known, j) as int),
    decreases n - j,
{
    if j < n {
        lemma_moved_before_grows(known, j, n - 1);
        assert(moved(known, 0, n - 1).take(moved_before(known, j) as int) =~= moved(
            known,
            0,
            n,
        ).take(moved_before(known, j) as int));
    } else {
        assert(moved(known, 0, n).take(moved_before(known, n) as int) =~= moved(known, 0, n));
    }
}

/// The new id of one item.
pub proof fn lemma_renumbered_at(base: nat, known: Known, n: int, j: int)
    requires
        0 <= j < n,
    ensures
        renumbered(base, known, 0, n).len() == n,
        renumbered(base, known, 0, n)[j] == if known.contains_key(j as usize) {
            known[j as usize]
        } else {
            (base + moved_before(known, j)) as usize
        },
        !known.contains_key(j as usize) ==> moved_before(known, j) < moved_before(known, n) && moved(
            known,
            0,
            n,
        )[moved_before(known, j) as int] == j,
    decreases n,
{
    lemma_renumbered_len(base, known, n - 1);
    if j < n - 1 {
        lemma_renumbered_at(base, known, n - 1, j);
    }
    lemma_moved_before_grows(known, j + 1, n);
    if !known.contains_key(j as usize) {
        let at = moved_before(known, j) as int;
        assert(moved(known, 0, j + 1)[at] == j);
        assert(moved(known, 0, n).take(at + 1)[at] == j);
    }
}

proof fn lemma_renumbered_len(base: nat, known: Known, n: int)
    requires
        0 <= n,
    ensures
        renumbered(base, known, 0, n).len() == n,
    decreases n,
{
    if n > 0 {
        lemma_renumbered_len(base, known, n - 1);
    }
}

/// Where the item at a position of the arena comes from.
pub proof fn lemma_moved_at(known: Known, n: int, at: int)
    requires
        0 <= n,
        0 <= at < moved_before(known, n),
    ensures
        0 <= moved(known, 0, n)[at] < n,
        !known.contains_key(moved(known, 0, n)[at] as usize),
        moved_before(known, moved(known, 0, n)[at]) == at,
    decreases n,
{
    if n > 0 {
        if at < moved_before(known, n - 1) {
            lemma_moved_at(known, n - 1, at);
        }
    }
}

/// New ids are positions in the arena that the items move to, and those of the items before one
/// that moves are positions before it.
proof fn lemma_renumbered_below(base: nat, known: Known, n: nat)
    requires
        known_within(known, n, base),
        base + moved_before(known, n as int) <= usize::MAX,
    ensures
        renumbered(base, known, 0, n as int).len() == n,
        below(renumbered(base, known, 0, n as int), base + moved_before(known, n as int)),
        forall|at: int|
            0 <= at < moved_before(known, n as int) ==> prefix_below(
                renumbered(base, known, 0, n as int),
                #[trigger] moved(known, 0, n as int)[at] as nat,
                (base + at) as nat,
            ),
{
    let ids = renumbered(base, known, 0, n as int);
    lemma_renumbered_len(base, known, n as int);
    assert forall|j: int| 0 <= j < n implies #[trigger] ids[j] < base + moved_before(
        known,
        n as int,
    ) by {
        lemma_renumbered_at(base, known, n as int, j);
    }
    assert forall|at: int| 0 <= at < moved_before(known, n as int) implies prefix_below(
        ids,
        #[trigger] moved(known, 0, n as int)[at] as nat,
        (base + at) as nat,
    ) by {
        let k = moved(known, 0, n as int)[at];
        lemma_moved_at(known, n as int, at);
        assert forall|j: int| 0 <= j < k implies #[trigger] ids[j] < base + at by {
            lemma_renumbered_at(base, known, n as int, j);
            if !known.contains_key(j as usize) {
                lemma_renumbered_at(base, known, k, j);
            }
        }
    }
}

/// What is known of two resolves once one was merged into the other.
pub open spec fn merge_ready(into: ResolveView, from: ResolveView, plan: Plan) -> bool {
    &&& into.usable()
    &&& from.valid()
    &&& plan.within(from, into)
    &&& joined(into, from, plan).fits()
}

/// Every old id has a new one, which is an id of the resolve that was merged into.
proof fn lemma_merged_map(into: ResolveView, from: ResolveView, plan: Plan)
    requires
        merge_ready(into, from, plan),
    ensures
        ({
            let map = merged_map(into, from, plan);
            let after = joined(into, from, plan);
            &&& map.types.len() == from.types.len()
            &&& map.interfaces.len() == from.interfaces.len()
            &&& map.worlds.len() == from.worlds.len()
            &&& map.documents.len() == from.documents.len()
            &&& map.packages.len() == from.packages.len()
            &&& below(map.types, after.types.len())
            &&& below(map.interfaces, after.interfaces.len())
            &&& below(map.worlds, after.worlds.len())
            &&& below(map.documents, after.documents.len())
            &&& below(map.packages, after.packages.len())
        }),
{
    let after = joined(into, from, plan);
    assert(after.types.len() == into.types.len() + moved_before(
        plan.types,
        from.types.len() as int,
    ));
    assert(after.interfaces.len() == into.interfaces.len() + moved_before(
        plan.interfaces,
        from.interfaces.len() as int,
    ));
    assert(after.worlds.len() == into.worlds.len() + moved_before(
        plan.worlds,
        from.worlds.len() as int,
    ));
    assert(after.documents.len() == into.documents.len() + moved_before(
        plan.documents,
        from.documents.len() as int,
    ));
    assert(after.packages.len() == into.packages.len() + moved_before(
        plan.packages,
        from.packages.len() as int,
    ));
    lemma_renumbered_below(into.types.len(), plan.types, from.types.len());
    lemma_renumbered_below(into.interfaces.len(), plan.interfaces, from.interfaces.len());
    lemma_renumbered_below(into.worlds.len(), plan.worlds, from.worlds.len());
    lemma_renumbered_below(into.documents.len(), plan.documents, from.documents.len());
    lemma_renumbered_below(into.packages.len(), plan.packages, from.packages.len());
}

/// An owner that was renumbered.
pub open spec fn mapped_owner(map: RemapView, owner: TypeOwner) -> TypeOwner {
    world_owner(map.worlds, interface_owner(map.interfaces, owner))
}

proof fn lemma_joined_types(into: ResolveView, from: ResolveView, plan: Plan)
    requires
        merge_ready(into, from, plan),
    ensures
        forall|i: int|
            0 <= i < joined(into, from, plan).types.len() ==> #[trigger] joined(
                into,
                from,
                plan,
            ).type_usable(i),
        into.valid() ==> forall|i: int|
            0 <= i < joined(into, from, plan).types.len() ==> #[trigger] joined(
                into,
                from,
                plan,
            ).type_valid(i),
{
    let map = merged_map(into, from, plan);
    let after = joined(into, from, plan);
    let base = into.types.len();
    let n = from.types.len();
    lemma_merged_map(into, from, plan);
    lemma_renumbered_below(base, plan.types, n);
    assert forall|i: int|
        #![trigger after.type_usable(i)]
        #![trigger after.type_valid(i)]
        0 <= i < after.types.len() implies after.type_usable(i) && (into.valid()
        ==> after.type_valid(i)) by {
        if i < base {
            assert(into.type_usable(i));
            assert(into.valid() ==> into.type_valid(i));
            assert(after.types[i] == into.types[i]);
        } else {
            let at = i - base;
            let k = moved(plan.types, 0, n as int)[at];
            lemma_moved_at(plan.types, n as int, at);
            assert(from.type_valid(k));
            assert(after.types[i].kind == moved_type(map.types, from.types[k]).kind);
            assert(after.types[i].owner == mapped_owner(map, from.types[k].owner));
            lemma_mapped_kind(map.types, from.types[k].kind, k as nat, i as nat);
        }
    }
}

proof fn lemma_joined_interfaces(into: ResolveView, from: ResolveView, plan: Plan)
    requires
        merge_ready(into, from, plan),
    ensures
        forall|i: int|
            0 <= i < joined(into, from, plan).interfaces.len() ==> #[trigger] joined(
                into,
                from,
                plan,
            ).interface_usable(i),
        into.valid() ==> forall|i: int|
            0 <= i < joined(into, from, plan).interfaces.len() ==> #[trigger] joined(
                into,
                from,
                plan,
            ).interface_valid(i),
{
    let map = merged_map(into, from, plan);
    let after = joined(into, from, plan);
    let base = into.interfaces.len();
    let n = from.interfaces.len();
    let types = after.types.len();
    lemma_merged_map(into, from, plan);
    assert forall|i: int|
        #![trigger after.interface_usable(i)]
        #![trigger after.interface_valid(i)]
        0 <= i < after.interfaces.len() implies after.interface_usable(i) && (into.valid()
        ==> after.interface_valid(i)) by {
        if i < base {
            assert(into.interface_usable(i));
            assert(into.valid() ==> into.interface_valid(i));
            assert(after.interfaces[i] == into.interfaces[i]);
            lemma_functions_within_more(into.interfaces[i].functions, into.types.len(), types);
        } else {
            let at = i - base;
            let k = moved(plan.interfaces, 0, n as int)[at];
            lemma_moved_at(plan.interfaces, n as int, at);
            let iface = from.interfaces[k];
            assert(from.interface_valid(k));
            assert(after.interfaces[i].types == moved_interface(map.types, iface).types);
            assert(after.interfaces[i].functions == moved_interface(map.types, iface).functions);
            assert(after.interfaces[i].document == map.documents[iface.document as int]);
            lemma_mapped_ids(map.types, iface.types, from.types.len(), types);
            lemma_mapped_functions(map.types, iface.functions, from.types.len(), types);
        }
    }
}

proof fn lemma_mapped_items(
    map: ItemMap,
    items: Seq<(Seq<char>, ItemView)>,
    interfaces: nat,
    types: nat,
)
    requires
        items_within(items, map.interfaces.len(), map.types.len()),
        distinct(items),
        below(map.interfaces, interfaces),
        below(map.types, types),
    ensures
        items_within(mapped_items(map, items), interfaces, types),
        distinct(mapped_items(map, items)),
{
    let mapped = mapped_items(map, items);
    assert forall|i: int| 0 <= i < mapped.len() implies item_within(
        (#[trigger] mapped[i]).1,
        interfaces,
        types,
    ) by {
        assert(item_within(items[i].1, map.interfaces.len(), map.types.len()));
        assert(mapped[i].1 == mapped_item(map, items[i].1));
        if let ItemView::Function(f) = items[i].1 {
            lemma_mapped_function(map.types, f, map.types.len(), types);
        }
    }
    assert forall|i: int, j: int|
        #![trigger mapped[i], mapped[j]]
        0 <= i < j < mapped.len() implies mapped[i].0 != mapped[j].0 by {
        assert(items[i].0 != items[j].0);
    }
}

proof fn lemma_joined_worlds(into: ResolveView, from: ResolveView, plan: Plan)
    requires
        merge_ready(into, from, plan),
    ensures
        forall|i: int|
            0 <= i < joined(into, from, plan).worlds.len() ==> #[trigger] joined(
                into,
                from,
                plan,
            ).world_usable(i),
        into.valid() ==> forall|i: int|
            0 <= i < joined(into, from, plan).worlds.len() ==> #[trigger] joined(
                into,
                from,
                plan,
            ).world_valid(i),
{
    let map = merged_map(into, from, plan);
    let after = joined(into, from, plan);
    let base = into.worlds.len();
    let n = from.worlds.len();
    lemma_merged_map(into, from, plan);
    assert forall|i: int|
        #![trigger after.world_usable(i)]
        #![trigger after.world_valid(i)]
        0 <= i < after.worlds.len() implies after.world_usable(i) && (into.valid()
        ==> after.world_valid(i)) by {
        let (c, d) = (after.interfaces.len(), after.types.len());
        if i < base {
            assert(into.world_usable(i));
            assert(into.valid() ==> into.world_valid(i));
            assert(after.worlds[i] == into.worlds[i]);
            let (a, b) = (into.interfaces.len(), into.types.len());
            lemma_items_within_more(into.worlds[i].imports, a, b, c, d);
            lemma_items_within_more(into.worlds[i].exports, a, b, c, d);
        } else {
            let at = i - base;
            let k = moved(plan.worlds, 0, n as int)[at];
            lemma_moved_at(plan.worlds, n as int, at);
            let world = from.worlds[k];
            assert(from.world_valid(k));
            assert(after.worlds[i].imports == moved_world(map.item_map(), world).imports);
            assert(after.worlds[i].exports == moved_world(map.item_map(), world).exports);
            assert(after.worlds[i].document == map.documents[world.document as int]);
            lemma_mapped_items(map.item_map(), world.imports, c, d);
            lemma_mapped_items(map.item_map(), world.exports, c, d);
        }
    }
}

proof fn lemma_joined_documents(into: ResolveView, from: ResolveView, plan: Plan)
    requires
        merge_ready(into, from, plan),
    ensures
        forall|i: int|
            0 <= i < joined(into, from, plan).documents.len() ==> #[trigger] joined(
                into,
                from,
                plan,
            ).document_valid(i),
        forall|i: int|
            0 <= i < joined(into, from, plan).packages.len() ==> #[trigger] joined(
                into,
                from,
                plan,
            ).package_valid(i),
{
    let map = merged_map(into, from, plan);
    let after = joined(into, from, plan);
    lemma_merged_map(into, from, plan);
    assert forall|i: int| 0 <= i < after.documents.len() implies #[trigger] after.document_valid(
        i,
    ) by {
        let base = into.documents.len();
        let n = from.documents.len();
        if i < base {
            assert(into.document_valid(i));
            assert(after.documents[i] == into.documents[i]);
        } else {
            let at = i - base;
            let k = moved(plan.documents, 0, n as int)[at];
            lemma_moved_at(plan.documents, n as int, at);
            let doc = from.documents[k];
            let expected = moved_document(map.interfaces, map.worlds, doc);
            assert(from.document_valid(k));
            assert(after.documents[i].interfaces == expected.interfaces);
            assert(after.documents[i].worlds == expected.worlds);
            assert(after.documents[i].default_interface == expected.default_interface);
            assert(after.documents[i].default_world == expected.default_world);
            assert(after.documents[i].package == mapped_id(map.packages, doc.package));
            lemma_mapped_ids(
                map.interfaces,
                doc.interfaces,
                from.interfaces.len(),
                after.interfaces.len(),
            );
            lemma_mapped_ids(map.worlds, doc.worlds, from.worlds.len(), after.worlds.len());
        }
    }
    assert forall|i: int| 0 <= i < after.packages.len() implies #[trigger] after.package_valid(
        i,
    ) by {
        let base = into.packages.len();
        let n = from.packages.len();
        if i < base {
            assert(into.package_valid(i));
            assert(after.packages[i] == into.packages[i]);
        } else {
            let at = i - base;
            let k = moved(plan.packages, 0, n as int)[at];
            lemma_moved_at(plan.packages, n as int, at);
            let package = from.packages[k];
            assert(from.package_valid(k));
            assert(after.packages[i].documents == mapped_ids(map.documents, package.documents));
            lemma_mapped_ids(
                map.documents,
                package.documents,
                from.documents.len(),
                after.documents.len(),
            );
        }
    }
}

/// Putting an id under a name keeps names different and ids in range.
pub proof fn lemma_put_valid(
    entries: Seq<(Seq<char>, usize)>,
    name: Seq<char>,
    id: usize,
    n: nat,
)
    requires
        distinct(entries),
        ids_within(entries, n),
        id < n,
    ensures
        distinct(put(entries, name, id)),
        ids_within(put(entries, name, id), n),
{
    lemma_find(entries, name);
    let after = put(entries, name, id);
    assert forall|i: int, j: int|
        #![trigger after[i], after[j]]
        0 <= i < j < after.len() implies after[i].0 != after[j].0 by {
        if let Some(k) = find(entries, name) {
            assert(after[i].0 == entries[i].0 && after[j].0 == entries[j].0);
        } else {
            assert(after[i] == entries[i]);
            if j < entries.len() {
                assert(after[j] == entries[j]);
            }
        }
    }
    assert forall|i: int| 0 <= i < after.len() implies (#[trigger] after[i]).1 < n by {
        if i < entries.len() {
            assert(entries[i].1 < n);
        }
    }
}

/// Listing documents in packages keeps the packages valid.
proof fn lemma_with_documents(
    before: ResolveView,
    ids: Seq<usize>,
    new: Seq<Addition>,
    n: nat,
)
    requires
        n <= new.len(),
        additions_within(new, before.packages.len(), ids.len()),
        below(ids, before.documents.len()),
        forall|i: int| 0 <= i < before.packages.len() ==> #[trigger] before.package_valid(i),
    ensures
        ({
            let packages = with_documents(before.packages, ids, new, n);
            &&& packages.len() == before.packages.len()
            &&& forall|i: int|
                0 <= i < packages.len() ==> #[trigger] (ResolveView {
                    packages,
                    ..before
                }).package_valid(i)
        }),
    decreases n,
{
    if n > 0 {
        lemma_with_documents(before, ids, new, (n - 1) as nat);
        let front = with_documents(before.packages, ids, new, (n - 1) as nat);
        let packages = with_documents(before.packages, ids, new, n);
        let (name, target, id) = new[n - 1];
        assert((ResolveView { packages: front, ..before }).package_valid(target as int));
        lemma_put_valid(
            front[target as int].documents,
            name,
            ids[id as int],
            before.documents.len(),
        );
        assert forall|i: int| 0 <= i < packages.len() implies #[trigger] (ResolveView {
            packages,
            ..before
        }).package_valid(i) by {
            assert((ResolveView { packages: front, ..before }).package_valid(i));
        }
    } else {
        assert(before =~= ResolveView { packages: before.packages, ..before });
    }
}

/// Listing interfaces in documents keeps the documents valid.
proof fn lemma_with_interfaces(
    before: ResolveView,
    ids: Seq<usize>,
    new: Seq<Addition>,
    n: nat,
)
    requires
        n <= new.len(),
        additions_within(new, before.documents.len(), ids.len()),
        below(ids, before.interfaces.len()),
        forall|i: int| 0 <= i < before.documents.len() ==> #[trigger] before.document_valid(i),
    ensures
        ({
            let documents = with_interfaces(before.documents, ids, new, n);
            &&& documents.len() == before.documents.len()
            &&& forall|i: int|
                0 <= i < documents.len() ==> #[trigger] (ResolveView {
                    documents,
                    ..before
                }).document_valid(i)
        }),
    decreases n,
{
    if n > 0 {
        lemma_with_interfaces(before, ids, new, (n - 1) as nat);
        let front = with_interfaces(before.documents, ids, new, (n - 1) as nat);
        let documents = with_interfaces(before.documents, ids, new, n);
        let (name, target, id) = new[n - 1];
        assert((ResolveView { documents: front, ..before }).document_valid(target as int));
        lemma_put_valid(
            front[target as int].interfaces,
            name,
            ids[id as int],
            before.interfaces.len(),
        );
        assert forall|i: int| 0 <= i < documents.len() implies #[trigger] (ResolveView {
            documents,
            ..before
        }).document_valid(i) by {
            assert((ResolveView { documents: front, ..before }).document_valid(i));
        }
    } else {
        assert(before =~= ResolveView { documents: before.documents, ..before });
    }
}

/// Listing worlds in documents keeps the documents valid.
proof fn lemma_with_worlds(
    before: ResolveView,
    ids: Seq<usize>,
    new: Seq<Addition>,
    n: nat,
)
    requires
        n <= new.len(),
        additions_within(new, before.documents.len(), ids.len()),
        below(ids, before.worlds.len()),
        forall|i: int| 0 <= i < before.documents.len() ==> #[trigger] before.document_valid(i),
    ensures
        ({
            let documents = with_worlds(before.documents, ids, new, n);
            &&& documents.len() == before.documents.len()
            &&& forall|i: int|
                0 <= i < documents.len() ==> #[trigger] (ResolveView {
                    documents,
                    ..before
                }).document_valid(i)
        }),
    decreases n,
{
    if n > 0 {
        lemma_with_worlds(before, ids, new, (n - 1) as nat);
        let front = with_worlds(before.documents, ids, new, (n - 1) as nat);
        let documents = with_worlds(before.documents, ids, new, n);
        let (name, target, id) = new[n - 1];
        assert((ResolveView { documents: front, ..before }).document_valid(target as int));
        lemma_put_valid(front[target as int].worlds, name, ids[id as int], before.worlds.len());
        assert forall|i: int| 0 <= i < documents.len() implies #[trigger] (ResolveView {
            documents,
            ..before
        }).document_valid(i) by {
            assert((ResolveView { documents: front, ..before }).document_valid(i));
        }
    } else {
        assert(before =~= ResolveView { documents: before.documents, ..before });
    }
}

/// The new entries of one of the items that list others.
pub open spec fn added_to(new: Seq<Addition>, ids: Seq<usize>, at: int, n: nat) -> Seq<
    (Seq<char>, usize),
>
    decreases n,
{
    if n == 0 {
        Seq::empty()
    } else {
        let front = added_to(new, ids, at, (n - 1) as nat);
        let (name, target, id) = new[n - 1];
        if target == at {
            front.push((name, ids[id as int]))
        } else {
            front
        }
    }
}

pub proof fn lemma_added_from(
    new: Seq<Addition>,
    ids: Seq<usize>,
    at: int,
    n: nat,
    i: int,
) -> (j: int)
    requires
        0 <= i < added_to(new, ids, at, n).len(),
    ensures
        0 <= j < n,
        new[j].1 == at,
        added_to(new, ids, at, n)[i] == (new[j].0, ids[new[j].2 as int]),
    decreases n,
{
    let front = added_to(new, ids, at, (n - 1) as nat);
    if i < front.len() {
        lemma_added_from(new, ids, at, (n - 1) as nat, i)
    } else {
        n - 1
    }
}

/// A name that an item does not list yet is not among its new entries so far either.
pub proof fn lemma_none_added(
    listed: Seq<(Seq<char>, usize)>,
    new: Seq<Addition>,
    ids: Seq<usize>,
    n: nat,
)
    requires
        n < new.len(),
        listed_once(new),
        find(listed, new[n as int].0).is_none(),
    ensures
        find(listed + added_to(new, ids, new[n as int].1 as int, n), new[n as int].0).is_none(),
{
    let (name, target, _) = new[n as int];
    let front = added_to(new, ids, target as int, n);
    lemma_find(listed, name);
    lemma_find(listed + front, name);
    if let Some(i) = find(listed + front, name) {
        if i < listed.len() {
            assert(listed[i].0 == name);
        } else {
            let j = lemma_added_from(new, ids, target as int, n, i - listed.len());
            assert(new[j].0 == name);
        }
    }
}

/// What listing documents leaves in each package: what it lists already, followed by what is new.
pub proof fn lemma_with_documents_lists(
    packages: Seq<PackageView>,
    ids: Seq<usize>,
    new: Seq<Addition>,
    n: nat,
    at: int,
)
    requires
        n <= new.len(),
        0 <= at < packages.len(),
        additions_within(new, packages.len(), ids.len()),
        listed_once(new),
        forall|i: int|
            0 <= i < new.len() ==> find(
                packages[(#[trigger] new[i]).1 as int].documents,
                new[i].0,
            ).is_none(),
    ensures
        with_documents(packages, ids, new, n).len() == packages.len(),
        with_documents(packages, ids, new, n)[at] == (PackageView {
            documents: packages[at].documents + added_to(new, ids, at, n),
            ..packages[at]
        }),
    decreases n,
{
    if n > 0 {
        let m = (n - 1) as nat;
        lemma_with_documents_lists(packages, ids, new, m, at);
        let (name, target, id) = new[n - 1];
        if target == at {
            let listed = packages[at].documents;
            let front = added_to(new, ids, at, m);
            lemma_none_added(listed, new, ids, m);
            assert((listed + front).push((name, ids[id as int])) =~= listed + front.push(
                (name, ids[id as int]),
            ));
        }
    } else {
        assert(packages[at].documents + added_to(new, ids, at, n) =~= packages[at].documents);
    }
}

/// What listing interfaces leaves in each document: what it lists already, followed by what is new.
pub proof fn lemma_with_interfaces_lists(
    documents: Seq<DocumentView>,
    ids: Seq<usize>,
    new: Seq<Addition>,
    n: nat,
    at: int,
)
    requires
        n <= new.len(),
        0 <= at < documents.len(),
        additions_within(new, documents.len(), ids.len()),
        listed_once(new),
        forall|i: int|
            0 <= i < new.len() ==> find(
                documents[(#[trigger] new[i]).1 as int].interfaces,
                new[i].0,
            ).is_none(),
    ensures
        with_interfaces(documents, ids, new, n).len() == documents.len(),
        with_interfaces(documents, ids, new, n)[at] == (DocumentView {
            interfaces: documents[at].interfaces + added_to(new, ids, at, n),
            ..documents[at]
        }),
    decreases n,
{
    if n > 0 {
        let m = (n - 1) as nat;
        lemma_with_interfaces_lists(documents, ids, new, m, at);
        let (name, target, id) = new[n - 1];
        if target == at {
            let listed = documents[at].interfaces;
            let front = added_to(new, ids, at, m);
            lemma_none_added(listed, new, ids, m);
            assert((listed + front).push((name, ids[id as int])) =~= listed + front.push(
                (name, ids[id as int]),
            ));
        }
    } else {
        assert(documents[at].interfaces + added_to(new, ids, at, n) =~= documents[at].interfaces);
    }
}

/// What listing worlds leaves in each document: what it lists already, followed by what is new.
pub proof fn lemma_with_worlds_lists(
    documents: Seq<DocumentView>,
    ids: Seq<usize>,
    new: Seq<Addition>,
    n: nat,
    at: int,
)
    requires
        n <= new.len(),
        0 <= at < documents.len(),
        additions_within(new, documents.len(), ids.len()),
        listed_once(new),
        forall|i: int|
            0 <= i < new.len() ==> find(
                documents[(#[trigger] new[i]).1 as int].worlds,
                new[i].0,
            ).is_none(),
    ensures
        with_worlds(documents, ids, new, n).len() == documents.len(),
        with_worlds(documents, ids, new, n)[at] == (DocumentView {
            worlds: documents[at].worlds + added_to(new, ids, at, n),
            ..documents[at]
        }),
    decreases n,
{
    if n > 0 {
        let m = (n - 1) as nat;
        lemma_with_worlds_lists(documents, ids, new, m, at);
        let (name, target, id) = new[n - 1];
        if target == at {
            let listed = documents[at].worlds;
            let front = added_to(new, ids, at, m);
            lemma_none_added(listed, new, ids, m);
            assert((listed + front).push((name, ids[id as int])) =~= listed + front.push(
                (name, ids[id as int]),
            ));
        }
    } else {
        assert(documents[at].worlds + added_to(new, ids, at, n) =~= documents[at].worlds);
    }
}

/// The documents and the packages of a resolve after another one was merged into it.
pub proof fn lemma_unioned(into: ResolveView, from: ResolveView, plan: Plan)
    requires
        merge_ready(into, from, plan),
        plan.lists_once(),
    ensures
        ({
            let map = merged_map(into, from, plan);
            let before = joined(into, from, plan);
            let after = unioned(into, from, plan);
            &&& after.documents.len() == before.documents.len()
            &&& after.packages.len() == before.packages.len()
            &&& forall|i: int|
                0 <= i < after.documents.len() ==> (#[trigger] after.documents[i]) == (
                DocumentView {
                    interfaces: before.documents[i].interfaces + added_to(
                        plan.new_interfaces,
                        map.interfaces,
                        i,
                        plan.new_interfaces.len(),
                    ),
                    worlds: before.documents[i].worlds + added_to(
                        plan.new_worlds,
                        map.worlds,
                        i,
                        plan.new_worlds.len(),
                    ),
                    ..before.documents[i]
                })
            &&& forall|i: int|
                0 <= i < after.packages.len() ==> (#[trigger] after.packages[i]) == (PackageView {
                    documents: before.packages[i].documents + added_to(
                        plan.new_documents,
                        map.documents,
                        i,
                        plan.new_documents.len(),
                    ),
                    ..before.packages[i]
                })
        }),
{
    let map = merged_map(into, from, plan);
    let before = joined(into, from, plan);
    let after = unioned(into, from, plan);
    lemma_merged_map(into, from, plan);
    let (a, b, c) = (plan.new_interfaces, plan.new_worlds, plan.new_documents);
    let middle = with_interfaces(before.documents, map.interfaces, a, a.len());
    assert forall|i: int| 0 <= i < before.documents.len() implies middle.len()
        == before.documents.len() && (#[trigger] middle[i]) == (DocumentView {
        interfaces: before.documents[i].interfaces + added_to(a, map.interfaces, i, a.len()),
        ..before.documents[i]
    }) by {
        lemma_with_interfaces_lists(before.documents, map.interfaces, a, a.len(), i);
    }
    if before.documents.len() > 0 {
        assert(middle[0] == middle[0]);
    } else {
        assert(a.len() == 0) by {
            if a.len() > 0 {
                assert(a[0].1 < before.documents.len());
            }
        }
    }
    assert(middle.len() == before.documents.len());
    assert forall|i: int| 0 <= i < before.documents.len() implies after.documents.len()
        == before.documents.len() && (#[trigger] after.documents[i]) == (DocumentView {
        interfaces: before.documents[i].interfaces + added_to(a, map.interfaces, i, a.len()),
        worlds: before.documents[i].worlds + added_to(b, map.worlds, i, b.len()),
        ..before.documents[i]
    }) by {
        assert forall|j: int| 0 <= j < b.len() implies find(
            middle[(#[trigger] b[j]).1 as int].worlds,
            b[j].0,
        ).is_none() by {
            assert(middle[b[j].1 as int].worlds == before.documents[b[j].1 as int].worlds);
        }
        lemma_with_worlds_lists(middle, map.worlds, b, b.len(), i);
    }
    if before.documents.len() > 0 {
        assert(after.documents[0] == after.documents[0]);
    } else {
        assert(b.len() == 0) by {
            if b.len() > 0 {
                assert(b[0].1 < before.documents.len());
            }
        }
    }
    assert forall|i: int| 0 <= i < before.packages.len() implies after.packages.len()
        == before.packages.len() && (#[trigger] after.packages[i]) == (PackageView {
        documents: before.packages[i].documents + added_to(c, map.documents, i, c.len()),
        ..before.packages[i]
    }) by {
        lemma_with_documents_lists(before.packages, map.documents, c, c.len(), i);
    }
    if before.packages.len() > 0 {
        assert(after.packages[0] == after.packages[0]);
    } else {
        assert(c.len() == 0) by {
            if c.len() > 0 {
                assert(c[0].1 < before.packages.len());
            }
        }
    }
}

/// Nothing is listed anew but in what was there before.
pub proof fn lemma_nothing_added(new: Seq<Addition>, ids: Seq<usize>, at: int, n: nat)
    requires
        n <= new.len(),
        forall|i: int| 0 <= i < new.len() ==> (#[trigger] new[i]).1 < at,
    ensures
        added_to(new, ids, at, n) == Seq::<(Seq<char>, usize)>::empty(),
    decreases n,
{
    if n > 0 {
        lemma_nothing_added(new, ids, at, (n - 1) as nat);
    }
}

/// Merging a resolve into a usable one leaves that usable, and if it was valid then it still is.
/// Every id of the one that was merged gets a new id there.
pub proof fn merging_keeps_valid(into: ResolveView, from: ResolveView)
    requires
        can_merge(into, from),
        merged(into, from).0.fits(),
    ensures
        merged(into, from).0.usable(),
        merged(into, from) matches (after, Ok(map)) ==> {
            &&& into.valid() ==> after.valid()
            &&& map.types.len() == from.types.len()
            &&& map.interfaces.len() == from.interfaces.len()
            &&& map.worlds.len() == from.worlds.len()
            &&& map.documents.len() == from.documents.len()
            &&& map.packages.len() == from.packages.len()
            &&& below(map.types, after.types.len())
            &&& below(map.interfaces, after.interfaces.len())
            &&& below(map.worlds, after.worlds.len())
            &&& below(map.documents, after.documents.len())
            &&& below(map.packages, after.packages.len())
        },
{
    if merged(into, from).1.is_ok() && matched(from, into).is_ok() {
        let plan = matched(from, into)->Ok_0;
        let map = merged_map(into, from, plan);
        let before = joined(into, from, plan);
        let after = unioned(into, from, plan);
        lemma_matched_within(from, into);
        lemma_union_len(into, from, plan);
        lemma_merged_map(into, from, plan);
        lemma_joined_types(into, from, plan);
        lemma_joined_interfaces(into, from, plan);
        lemma_joined_worlds(into, from, plan);
        lemma_joined_documents(into, from, plan);
        let (a, b, c) = (plan.new_interfaces, plan.new_worlds, plan.new_documents);
        lemma_with_documents(before, map.documents, c, c.len());
        lemma_with_interfaces(before, map.interfaces, a, a.len());
        let middle = ResolveView {
            documents: with_interfaces(before.documents, map.interfaces, a, a.len()),
            ..before
        };
        lemma_with_worlds(middle, map.worlds, b, b.len());
        let listed = ResolveView { packages: after.packages, ..before };
        let last = ResolveView { documents: after.documents, ..middle };
        assert forall|i: int|
            #![trigger after.type_usable(i)]
            #![trigger after.type_valid(i)]
            0 <= i < after.types.len() implies after.type_usable(i) && (into.valid()
            ==> after.type_valid(i)) by {
            assert(before.type_usable(i));
            assert(into.valid() ==> before.type_valid(i));
        }
        assert forall|i: int|
            #![trigger after.interface_usable(i)]
            #![trigger after.interface_valid(i)]
            0 <= i < after.interfaces.len() implies after.interface_usable(i) && (into.valid()
            ==> after.interface_valid(i)) by {
            assert(before.interface_usable(i));
            assert(into.valid() ==> before.interface_valid(i));
        }
        assert forall|i: int|
            #![trigger after.world_usable(i)]
            #![trigger after.world_valid(i)]
            0 <= i < after.worlds.len() implies after.world_usable(i) && (into.valid()
            ==> after.world_valid(i)) by {
            assert(before.world_usable(i));
            assert(into.valid() ==> before.world_valid(i));
        }
        assert forall|i: int| 0 <= i < after.documents.len() implies
            #[trigger] after.document_valid(i) by {
            assert(last.document_valid(i));
        }
        assert forall|i: int| 0 <= i < after.packages.len() implies #[trigger] after.package_valid(
            i,
        ) by {
            assert(listed.package_valid(i));
        }
    }
}

/// Listing items adds none.
pub proof fn lemma_union_len(into: ResolveView, from: ResolveView, plan: Plan)
    requires
        plan.within(from, into),
    ensures
        unioned(into, from, plan).documents.len() == joined(into, from, plan).documents.len(),
        unioned(into, from, plan).packages.len() == joined(into, from, plan).packages.len(),
{
    let map = merged_map(into, from, plan);
    let before = joined(into, from, plan);
    let (a, b, c) = (plan.new_interfaces, plan.new_worlds, plan.new_documents);
    lemma_with_interfaces_len(before.documents, map.interfaces, a, a.len());
    lemma_with_worlds_len(
        with_interfaces(before.documents, map.interfaces, a, a.len()),
        map.worlds,
        b,
        b.len(),
    );
    lemma_with_documents_len(before.packages, map.documents, c, c.len());
}

proof fn lemma_with_worlds_len(
    documents: Seq<DocumentView>,
    ids: Seq<usize>,
    new: Seq<Addition>,
    n: nat,
)
    requires
        n <= new.len(),
        forall|i: int| 0 <= i < new.len() ==> (#[trigger] new[i]).1 < documents.len(),
    ensures
        with_worlds(documents, ids, new, n).len() == documents.len(),
    decreases n,
{
    if n > 0 {
        lemma_with_worlds_len(documents, ids, new, (n - 1) as nat);
    }
}

proof fn lemma_with_documents_len(
    packages: Seq<PackageView>,
    ids: Seq<usize>,
    new: Seq<Addition>,
    n: nat,
)
    requires
        n <= new.len(),
        forall|i: int| 0 <= i < new.len() ==> (#[trigger] new[i]).1 < packages.len(),
    ensures
        with_documents(packages, ids, new, n).len() == packages.len(),
    decreases n,
{
    if n > 0 {
        lemma_with_documents_len(packages, ids, new, (n - 1) as nat);
    }
}

/// Whatever comes of merging one resolve into another, types, interfaces and worlds that were there
/// before stay as they are and where they are. So do documents and packages, but for what they
/// list: what they listed before is followed by what the other resolve has in addition.
pub proof fn merging_keeps_items(into: ResolveView, from: ResolveView)
    requires
        can_merge(into, from),
        merged(into, from).0.fits(),
    ensures
        ({
            let after = merged(into, from).0;
            let result = merged(into, from).1;
            &&& result matches Err(_) ==> after == into
            &&& into.types.is_prefix_of(after.types)
            &&& into.interfaces.is_prefix_of(after.interfaces)
            &&& into.worlds.is_prefix_of(after.worlds)
            &&& into.documents.len() <= after.documents.len()
            &&& into.packages.len() <= after.packages.len()
            &&& forall|i: int|
                0 <= i < into.documents.len() ==> {
                    let old = into.documents[i];
                    let new = #[trigger] after.documents[i];
                    &&& new == (DocumentView {
                        interfaces: new.interfaces,
                        worlds: new.worlds,
                        ..old
                    })
                    &&& old.interfaces.is_prefix_of(new.interfaces)
                    &&& old.worlds.is_prefix_of(new.worlds)
                }
            &&& forall|i: int|
                0 <= i < into.packages.len() ==> {
                    let old = into.packages[i];
                    let new = #[trigger] after.packages[i];
                    &&& new == (PackageView { documents: new.documents, ..old })
                    &&& old.documents.is_prefix_of(new.documents)
                }
        }),
{
    let (after, result) = merged(into, from);
    if matched(from, into).is_ok() && result.is_ok() {
        let plan = matched(from, into)->Ok_0;
        let before = joined(into, from, plan);
        lemma_matched_within(from, into);
        lemma_union_len(into, from, plan);
        lemma_unioned(into, from, plan);
        assert(into.types =~= after.types.take(into.types.len() as int));
        assert(into.interfaces =~= after.interfaces.take(into.interfaces.len() as int));
        assert(into.worlds =~= after.worlds.take(into.worlds.len() as int));
        assert forall|i: int| 0 <= i < into.documents.len() implies {
            let old = into.documents[i];
            let new = #[trigger] after.documents[i];
            &&& new == (DocumentView { interfaces: new.interfaces, worlds: new.worlds, ..old })
            &&& old.interfaces.is_prefix_of(new.interfaces)
            &&& old.worlds.is_prefix_of(new.worlds)
        } by {
            assert(before.documents[i] == into.documents[i]);
        }
        assert forall|i: int| 0 <= i < into.packages.len() implies {
            let old = into.packages[i];
            let new = #[trigger] after.packages[i];
            &&& new == (PackageView { documents: new.documents, ..old })
            &&& old.documents.is_prefix_of(new.documents)
        } by {
            assert(before.packages[i] == into.packages[i]);
        }
    }
}

/// The mapping that merging returns leads from each item that was not there before to a copy of it
/// that refers to the new ids of what the item referred to. Items that were there before keep their
/// ids.
pub proof fn merging_maps_items(into: ResolveView, from: ResolveView)
    requires
        can_merge(into, from),
        merged(into, from).0.fits(),
        merged(into, from).1.is_ok(),
        matched(from, into).is_ok(),
    ensures
        ({
            let plan = matched(from, into)->Ok_0;
            let after = merged(into, from).0;
            let map = merged(into, from).1->Ok_0;
            &&& forall|k: int|
                0 <= k < from.types.len() ==> if plan.types.contains_key(k as usize) {
                    (#[trigger] map.types[k]) == plan.types[k as usize] && map.types[k]
                        < into.types.len()
                } else {
                    after.types[map.types[k] as int] == (TypeDefView {
                        owner: mapped_owner(map, from.types[k].owner),
                        ..moved_type(map.types, from.types[k])
                    })
                }
            &&& forall|k: int|
                0 <= k < from.interfaces.len() ==> if plan.interfaces.contains_key(k as usize) {
                    (#[trigger] map.interfaces[k]) == plan.interfaces[k as usize]
                        && map.interfaces[k] < into.interfaces.len()
                } else {
                    after.interfaces[map.interfaces[k] as int] == (InterfaceView {
                        document: map.documents[from.interfaces[k].document as int],
                        ..moved_interface(map.types, from.interfaces[k])
                    })
                }
            &&& forall|k: int|
                0 <= k < from.worlds.len() ==> if plan.worlds.contains_key(k as usize) {
                    (#[trigger] map.worlds[k]) == plan.worlds[k as usize] && map.worlds[k]
                        < into.worlds.len()
                } else {
                    after.worlds[map.worlds[k] as int] == (WorldView {
                        document: map.documents[from.worlds[k].document as int],
                        ..moved_world(map.item_map(), from.worlds[k])
                    })
                }
            &&& forall|k: int|
                0 <= k < from.documents.len() ==> if plan.documents.contains_key(k as usize) {
                    (#[trigger] map.documents[k]) == plan.documents[k as usize] && map.documents[k]
                        < into.documents.len()
                } else {
                    after.documents[map.documents[k] as int] == (DocumentView {
                        package: mapped_id(map.packages, from.documents[k].package),
                        ..moved_document(map.interfaces, map.worlds, from.documents[k])
                    })
                }
            &&& forall|k: int|
                0 <= k < from.packages.len() ==> if plan.packages.contains_key(k as usize) {
                    (#[trigger] map.packages[k]) == plan.packages[k as usize] && map.packages[k]
                        < into.packages.len()
                } else {
                    after.packages[map.packages[k] as int] == moved_package(
                        map.documents,
                        from.packages[k],
                    )
                }
        }),
{
    let plan = matched(from, into)->Ok_0;
    let map = merged_map(into, from, plan);
    let before = joined(into, from, plan);
    let after = unioned(into, from, plan);
    lemma_matched_within(from, into);
    lemma_union_len(into, from, plan);
    lemma_unioned(into, from, plan);
    assert forall|k: int| 0 <= k < from.types.len() implies if plan.types.contains_key(
        k as usize,
    ) {
        (#[trigger] map.types[k]) == plan.types[k as usize] && map.types[k] < into.types.len()
    } else {
        after.types[map.types[k] as int] == (TypeDefView {
            owner: mapped_owner(map, from.types[k].owner),
            ..moved_type(map.types, from.types[k])
        })
    } by {
        lemma_renumbered_at(into.types.len(), plan.types, from.types.len() as int, k);
    }
    assert forall|k: int| 0 <= k < from.interfaces.len() implies if plan.interfaces.contains_key(
        k as usize,
    ) {
        (#[trigger] map.interfaces[k]) == plan.interfaces[k as usize] && map.interfaces[k]
            < into.interfaces.len()
    } else {
        after.interfaces[map.interfaces[k] as int] == (InterfaceView {
            document: map.documents[from.interfaces[k].document as int],
            ..moved_interface(map.types, from.interfaces[k])
        })
    } by {
        lemma_renumbered_at(
            into.interfaces.len(),
            plan.interfaces,
            from.interfaces.len() as int,
            k,
        );
    }
    assert forall|k: int| 0 <= k < from.worlds.len() implies if plan.worlds.contains_key(
        k as usize,
    ) {
        (#[trigger] map.worlds[k]) == plan.worlds[k as usize] && map.worlds[k] < into.worlds.len()
    } else {
        after.worlds[map.worlds[k] as int] == (WorldView {
            document: map.documents[from.worlds[k].document as int],
            ..moved_world(map.item_map(), from.worlds[k])
        })
    } by {
        lemma_renumbered_at(into.worlds.len(), plan.worlds, from.worlds.len() as int, k);
    }
    assert forall|k: int| 0 <= k < from.documents.len() implies if plan.documents.contains_key(
        k as usize,
    ) {
        (#[trigger] map.documents[k]) == plan.documents[k as usize] && map.documents[k]
            < into.documents.len()
    } else {
        after.documents[map.documents[k] as int] == (DocumentView {
            package: mapped_id(map.packages, from.documents[k].package),
            ..moved_document(map.interfaces, map.worlds, from.documents[k])
        })
    } by {
        lemma_renumbered_at(into.documents.len(), plan.documents, from.documents.len() as int, k);
        if !plan.documents.contains_key(k as usize) {
            let at = map.documents[k] as int;
            let (a, b) = (plan.new_interfaces, plan.new_worlds);
            lemma_nothing_added(a, map.interfaces, at, a.len());
            lemma_nothing_added(b, map.worlds, at, b.len());
            assert(after.documents[at].interfaces =~= before.documents[at].interfaces);
            assert(after.documents[at].worlds =~= before.documents[at].worlds);
        }
    }
    assert forall|k: int| 0 <= k < from.packages.len() implies if plan.packages.contains_key(
        k as usize,
    ) {
        (#[trigger] map.packages[k]) == plan.packages[k as usize] && map.packages[k]
            < into.packages.len()
    } else {
        after.packages[map.packages[k] as int] == moved_package(map.documents, from.packages[k])
    } by {
        lemma_renumbered_at(into.packages.len(), plan.packages, from.packages.len() as int, k);
        if !plan.packages.contains_key(k as usize) {
            let at = map.packages[k] as int;
            let c = plan.new_documents;
            lemma_nothing_added(c, map.documents, at, c.len());
            assert(after.packages[at].documents =~= before.packages[at].documents);
        }
    }
}

} // verus!
