//! Which items two resolves share when one is merged into the other, and where the others go.
use vstd::prelude::*;

use crate::again::{lemma_document_found, lemma_interface_found, lemma_world_found};
use crate::agreement::{
    alike, counterparts, packages_agree, resolves_that_agree_can_be_merged, told_apart,
};
use crate::correspondence::{
    comparable, matched_items_correspond, packages_differ, parented_resolves_merge,
};
use crate::counterparts::item_found;
use crate::held::functions_found;
use crate::lineage::{
    lemma_source, merge_of, merging_keeps_parents, merging_maps_parents, merging_unions_packages,
};
use crate::matching::{lemma_matched_within, matched, same_package};
use crate::merge::merged;
use crate::merge_laws::{
    lemma_renumbered_at, lemma_union_len, merging_keeps_items, merging_keeps_valid, moved_before,
};
use crate::moving::{renumbered, Known};
use crate::names::{find, lemma_find, lookup};
use crate::references::{lacks, lemma_lacks, lemma_listed};
use crate::remap::{item_within, RemapView};
use crate::resolve::ResolveView;
use crate::types::{DocumentId, InterfaceId, ItemView, PackageId, TypeId, TypeOwner, WorldId};
use crate::worlds::ItemList;

verus! {

/// Ids that are not below `base` go up by one each, without a gap, to `len`.
pub open spec fn goes_up(ids: Seq<usize>, base: nat, len: nat) -> bool {
    &&& forall|k: int| 0 <= k < ids.len() ==> #[trigger] ids[k] < len
    &&& forall|k: int, l: int|
        #![trigger ids[k], ids[l]]
        0 <= k < l < ids.len() && ids[k] >= base && ids[l] >= base ==> ids[k] < ids[l]
    &&& forall|x: usize| base <= x < len ==> #[trigger] ids.contains(x)
}

proof fn lemma_goes_up(base: nat, known: Known, n: int)
    requires
        0 <= n,
        forall|k: usize| k < n && #[trigger] known.contains_key(k) ==> known[k] < base,
        base + moved_before(known, n) <= usize::MAX,
    ensures
        goes_up(renumbered(base, known, 0, n), base, base + moved_before(known, n)),
{
    let ids = renumbered(base, known, 0, n);
    if n > 0 {
        lemma_renumbered_at(base, known, n, 0);
    }
    assert forall|k: int| 0 <= k < ids.len() implies #[trigger] ids[k] < base + moved_before(
        known,
        n,
    ) by {
        lemma_renumbered_at(base, known, n, k);
        assert(known.contains_key(k as usize) || !known.contains_key(k as usize));
    }
    assert forall|k: int, l: int|
        #![trigger ids[k], ids[l]]
        0 <= k < l < ids.len() && ids[k] >= base && ids[l] >= base implies ids[k] < ids[l] by {
        lemma_renumbered_at(base, known, n, k);
        lemma_renumbered_at(base, known, n, l);
        lemma_renumbered_at(base, known, l, k);
    }
    assert forall|x: usize| base <= x < base + moved_before(known, n) implies
        #[trigger] ids.contains(x) by {
        let k = lemma_source(base, known, n, x as int);
        lemma_renumbered_at(base, known, n, k);
        assert(ids[k] == x);
    }
}

/// What merging adds goes behind what was there before, in the order in which the other resolve has
/// it: the new ids go up by one each, without a gap.
pub proof fn added_items_follow_in_order(into: ResolveView, from: ResolveView)
    requires
        comparable(from, into),
        merged(into, from).0.fits(),
    ensures
        merged(into, from) matches (after, Ok(map)) ==> {
            &&& goes_up(map.types, into.types.len(), after.types.len())
            &&& goes_up(map.interfaces, into.interfaces.len(), after.interfaces.len())
            &&& goes_up(map.worlds, into.worlds.len(), after.worlds.len())
            &&& goes_up(map.documents, into.documents.len(), after.documents.len())
            &&& goes_up(map.packages, into.packages.len(), after.packages.len())
        },
{
    parented_resolves_merge(from, into);
    if let (after, Ok(map)) = merged(into, from) {
        let plan = matched(from, into)->Ok_0;
        lemma_matched_within(from, into);
        lemma_union_len(into, from, plan);
        lemma_goes_up(into.types.len(), plan.types, from.types.len() as int);
        lemma_goes_up(into.interfaces.len(), plan.interfaces, from.interfaces.len() as int);
        lemma_goes_up(into.worlds.len(), plan.worlds, from.worlds.len() as int);
        lemma_goes_up(into.documents.len(), plan.documents, from.documents.len() as int);
        lemma_goes_up(into.packages.len(), plan.packages, from.packages.len() as int);
    }
}

/// What stands under a name at the start of a longer list stands there in the longer one.
proof fn lemma_prefix_found<V>(
    short: Seq<(Seq<char>, V)>,
    long: Seq<(Seq<char>, V)>,
    name: Seq<char>,
    value: V,
)
    requires
        short.is_prefix_of(long),
        lookup(short, name) == Some(value),
    ensures
        lookup(long, name) == Some(value),
{
    lemma_find(short, name);
    lemma_find(long, name);
    let i = find(short, name).unwrap();
    assert(long[i] == short[i]);
    let j = find(long, name).unwrap();
    if j < i {
        assert(long[j] == short[j]);
    }
}

/// The packages of two resolves that become one when they are merged are those that are alike: they
/// have the same name and the same URL.
pub proof fn alike_packages_become_one(
    into: ResolveView,
    from: ResolveView,
    p: PackageId,
    q: PackageId,
)
    requires
        comparable(from, into),
        merged(into, from).0.fits(),
        p < from.packages.len(),
        q < into.packages.len(),
    ensures
        merged(into, from).1 matches Ok(map) ==> (map.packages[p as int] == q <==> alike(
            from.packages[p as int],
            into.packages[q as int],
        )),
{
    if merged(into, from).1.is_ok() {
        resolves_that_agree_can_be_merged(into, from);
        assert(packages_differ(into)) by {
            assert forall|a: int, b: int|
                #![trigger into.packages[a], into.packages[b]]
                0 <= a < b < into.packages.len() implies !same_package(
                into.packages[a],
                into.packages[b],
            ) by {
                assert(!alike(into.packages[a], into.packages[b]));
            }
        }
        merging_unions_packages(into, from);
        assert(same_package(from.packages[p as int], into.packages[q as int]) <==> alike(
            from.packages[p as int],
            into.packages[q as int],
        ));
        assert(from.packages[p as int] == from.packages[p as int]);
        assert(into.packages[q as int] == into.packages[q as int]);
    }
}

/// Two documents have the same name in packages that are alike.
pub open spec fn same_document(
    from: ResolveView,
    into: ResolveView,
    d: DocumentId,
    e: DocumentId,
) -> bool {
    let (a, b) = (from.documents[d as int], into.documents[e as int]);
    &&& a.name == b.name
    &&& a.package matches Some(p) && b.package matches Some(q) && alike(
        from.packages[p as int],
        into.packages[q as int],
    )
}

/// The documents that become one are those of the same name in packages that are alike.
pub proof fn same_documents_become_one(
    into: ResolveView,
    from: ResolveView,
    d: DocumentId,
    e: DocumentId,
)
    requires
        comparable(from, into),
        merged(into, from).0.fits(),
        d < from.documents.len(),
        e < into.documents.len(),
    ensures
        merged(into, from).1 matches Ok(map) ==> (map.documents[d as int] == e <==> same_document(
            from,
            into,
            d,
            e,
        )),
{
    if let (after, Ok(map)) = merged(into, from) {
        parented_resolves_merge(from, into);
        merging_maps_parents(into, from);
        merging_keeps_items(into, from);
        merging_keeps_parents(into, from);
        merging_keeps_valid(into, from);
        assert(from.document_listed(d as int));
        assert(from.document_valid(d as int));
        assert(into.document_listed(e as int));
        assert(into.document_valid(e as int));
        let x = map.documents[d as int];
        assert(x < after.documents.len());
        let p = from.documents[d as int].package.unwrap();
        let q = into.documents[e as int].package.unwrap();
        let name = from.documents[d as int].name;
        alike_packages_become_one(into, from, p, q);
        assert(after.documents[x as int].name == name);
        if x == e {
            assert(after.documents[e as int].package == into.documents[e as int].package);
        }
        if same_document(from, into, d, e) {
            assert(after.document_listed(x as int));
            assert(after.packages[q as int].documents == after.packages[q as int].documents);
            assert(into.packages[q as int].documents.is_prefix_of(
                after.packages[q as int].documents,
            ));
            lemma_prefix_found(
                into.packages[q as int].documents,
                after.packages[q as int].documents,
                name,
                e,
            );
        }
    }
}

/// The interfaces with a name that become one are counterparts: they have the same name, in
/// documents of the same name in packages that are alike. So are the worlds.
pub proof fn counterparts_become_one(
    into: ResolveView,
    from: ResolveView,
    a: InterfaceId,
    b: InterfaceId,
    v: WorldId,
    w: WorldId,
)
    requires
        comparable(from, into),
        merged(into, from).0.fits(),
    ensures
        merged(into, from).1 matches Ok(map) ==> {
            &&& a < from.interfaces.len() && b < into.interfaces.len()
                && from.interfaces[a as int].name.is_some() ==> (map.interfaces[a as int] == b
                <==> counterparts(from, into, a, b))
            &&& v < from.worlds.len() && w < into.worlds.len() ==> (map.worlds[v as int] == w <==> {
                &&& from.worlds[v as int].name == into.worlds[w as int].name
                &&& same_document(
                    from,
                    into,
                    from.worlds[v as int].document,
                    into.worlds[w as int].document,
                )
            })
        },
{
    if let (after, Ok(map)) = merged(into, from) {
        parented_resolves_merge(from, into);
        merging_maps_parents(into, from);
        merging_keeps_items(into, from);
        merging_keeps_parents(into, from);
        merging_keeps_valid(into, from);
        if a < from.interfaces.len() && b < into.interfaces.len()
            && from.interfaces[a as int].name.is_some() {
            let name = from.interfaces[a as int].name.unwrap();
            let (d, e) = (from.interfaces[a as int].document, into.interfaces[b as int].document);
            assert(from.interface_valid(a as int));
            assert(into.interface_valid(b as int));
            same_documents_become_one(into, from, d, e);
            let x = map.interfaces[a as int];
            assert(x < after.interfaces.len());
            assert(after.interfaces[x as int].name == Some(name));
            assert(after.interface_listed(x as int));
            assert(into.interface_listed(b as int));
            if x == b {
                assert(after.interfaces[b as int] == into.interfaces[b as int]);
            }
            if counterparts(from, into, a, b) {
                assert(into.documents[e as int].interfaces.is_prefix_of(
                    after.documents[e as int].interfaces,
                ));
                lemma_prefix_found(
                    into.documents[e as int].interfaces,
                    after.documents[e as int].interfaces,
                    name,
                    b,
                );
            }
        }
        if v < from.worlds.len() && w < into.worlds.len() {
            let name = from.worlds[v as int].name;
            let (d, e) = (from.worlds[v as int].document, into.worlds[w as int].document);
            assert(from.world_valid(v as int));
            assert(into.world_valid(w as int));
            same_documents_become_one(into, from, d, e);
            let x = map.worlds[v as int];
            assert(x < after.worlds.len());
            assert(after.worlds[x as int].name == name);
            assert(after.world_listed(x as int));
            assert(into.world_listed(w as int));
            if x == w {
                assert(after.worlds[w as int] == into.worlds[w as int]);
            }
            if from.worlds[v as int].name == into.worlds[w as int].name && same_document(
                from,
                into,
                d,
                e,
            ) {
                assert(into.documents[e as int].worlds.is_prefix_of(
                    after.documents[e as int].worlds,
                ));
                lemma_prefix_found(
                    into.documents[e as int].worlds,
                    after.documents[e as int].worlds,
                    name,
                    w,
                );
            }
        }
    }
}

/// Where no package of one resolve is like any of another, merging it into that one adds all of its
/// packages, behind those that are there, and nothing stands in the way, unless two of those that
/// are there are alike.
pub proof fn packages_that_are_not_there_are_added(into: ResolveView, from: ResolveView)
    requires
        comparable(from, into),
        told_apart(into),
        merged(into, from).0.fits(),
        forall|p: int, q: int|
            #![trigger from.packages[p], into.packages[q]]
            0 <= p < from.packages.len() && 0 <= q < into.packages.len() ==> !alike(
                from.packages[p],
                into.packages[q],
            ),
    ensures
        merged(into, from) matches (after, Ok(map)) && {
            &&& after.packages.len() == into.packages.len() + from.packages.len()
            &&& map.packages == Seq::new(
                from.packages.len(),
                |k: int| (into.packages.len() + k) as usize,
            )
        },
{
    parented_resolves_merge(from, into);
    assert(packages_agree(from, into, from.packages.len()));
    resolves_that_agree_can_be_merged(into, from);
    let (after, result) = merged(into, from);
    let map = result->Ok_0;
    merging_keeps_valid(into, from);
    merging_keeps_items(into, from);
    added_items_follow_in_order(into, from);
    assert forall|p: PackageId| p < from.packages.len() implies #[trigger] map.packages[p as int]
        >= into.packages.len() by {
        let q = map.packages[p as int];
        if q < into.packages.len() {
            alike_packages_become_one(into, from, p, q);
            assert(!alike(from.packages[p as int], into.packages[q as int]));
        }
    }
    assert(from.fits());
    lemma_counts_up(map.packages, into.packages.len(), after.packages.len());
    assert(map.packages =~= Seq::new(
        from.packages.len(),
        |k: int| (into.packages.len() + k) as usize,
    ));
}

/// Ids that go up without a gap, none of them below `base`, count up from there.
proof fn lemma_counts_up(ids: Seq<usize>, base: nat, len: nat)
    requires
        goes_up(ids, base, len),
        base <= len <= usize::MAX,
        forall|k: int| 0 <= k < ids.len() ==> #[trigger] ids[k] >= base,
    ensures
        len == base + ids.len(),
        forall|k: int| 0 <= k < ids.len() ==> #[trigger] ids[k] == base + k,
{
    assert forall|k: int| 0 <= k < ids.len() implies #[trigger] ids[k] == base + k by {
        lemma_counts_up_to(ids, base, len, k);
    }
    if len > base + ids.len() {
        let x = (base + ids.len()) as usize;
        assert(ids.contains(x));
        let k = choose|k: int| 0 <= k < ids.len() && #[trigger] ids[k] == x;
        assert(ids[k] == base + k);
    }
    if len < base + ids.len() {
        assert(ids[ids.len() - 1] == base + ids.len() - 1);
    }
}

proof fn lemma_counts_up_to(ids: Seq<usize>, base: nat, len: nat, k: int)
    requires
        goes_up(ids, base, len),
        forall|k: int| 0 <= k < ids.len() ==> #[trigger] ids[k] >= base,
        0 <= k < ids.len(),
    ensures
        ids[k] == base + k,
    decreases k,
{
    if k > 0 {
        lemma_counts_up_to(ids, base, len, k - 1);
        assert(ids[k - 1] < ids[k]);
    }
    if ids[k] > base + k {
        let x = (base + k) as usize;
        assert(base <= x < len);
        assert(ids.contains(x));
        let l = choose|l: int| 0 <= l < ids.len() && #[trigger] ids[l] == x;
        if l < k {
            lemma_counts_up_to(ids, base, len, l);
        } else if l > k {
            assert(ids[k] < ids[l]);
        }
    }
}

/// An entry of a world is found in another one, under the same name, by the new ids.
pub open spec fn entry_kept(
    map: RemapView,
    entry: (Seq<char>, ItemView),
    items: ItemList,
) -> bool {
    match entry.1 {
        ItemView::Interface(a) => items.contains(
            (entry.0, ItemView::Interface(map.interfaces[a as int])),
        ),
        ItemView::Type(a) => items.contains((entry.0, ItemView::Type(map.types[a as int]))),
        ItemView::Function(_) => exists|j: int|
            0 <= j < items.len() && (#[trigger] items[j]).0 == entry.0 && items[j].1 is Function,
    }
}

/// Whatever an item lists is listed by what it becomes when its resolve is merged into another one,
/// under the same name and by the new ids. This holds of items that were moved as well as of those
/// that were there already.
pub proof fn merged_items_list_the_same(into: ResolveView, from: ResolveView)
    requires
        comparable(from, into),
        merged(into, from).0.fits(),
    ensures
        merged(into, from) matches (after, Ok(map)) ==> {
            &&& forall|p: int, j: int|
                #![trigger from.packages[p].documents[j]]
                0 <= p < from.packages.len() && 0 <= j < from.packages[p].documents.len() ==> {
                    let (name, d) = from.packages[p].documents[j];
                    after.packages[map.packages[p] as int].documents.contains(
                        (name, map.documents[d as int]),
                    )
                }
            &&& forall|d: int, j: int|
                #![trigger from.documents[d].interfaces[j]]
                0 <= d < from.documents.len() && 0 <= j < from.documents[d].interfaces.len() ==> {
                    let (name, i) = from.documents[d].interfaces[j];
                    after.documents[map.documents[d] as int].interfaces.contains(
                        (name, map.interfaces[i as int]),
                    )
                }
            &&& forall|d: int, j: int|
                #![trigger from.documents[d].worlds[j]]
                0 <= d < from.documents.len() && 0 <= j < from.documents[d].worlds.len() ==> {
                    let (name, w) = from.documents[d].worlds[j];
                    after.documents[map.documents[d] as int].worlds.contains(
                        (name, map.worlds[w as int]),
                    )
                }
            &&& forall|i: int, j: int|
                #![trigger from.interfaces[i].types[j]]
                0 <= i < from.interfaces.len() && 0 <= j < from.interfaces[i].types.len() ==> {
                    let (name, t) = from.interfaces[i].types[j];
                    after.interfaces[map.interfaces[i] as int].types.contains(
                        (name, map.types[t as int]),
                    )
                }
            &&& forall|i: int, j: int|
                #![trigger from.interfaces[i].functions[j]]
                0 <= i < from.interfaces.len() && 0 <= j < from.interfaces[i].functions.len()
                    ==> !lacks(
                    after.interfaces[map.interfaces[i] as int].functions,
                    from.interfaces[i].functions[j].0,
                )
            &&& forall|w: int|
                0 <= w < from.worlds.len() ==> {
                    let old = #[trigger] from.worlds[w];
                    let new = after.worlds[map.worlds[w] as int];
                    &&& new.imports.len() == old.imports.len()
                    &&& new.exports.len() == old.exports.len()
                    &&& forall|j: int|
                        0 <= j < old.imports.len() ==> entry_kept(
                            map,
                            #[trigger] old.imports[j],
                            new.imports,
                        )
                    &&& forall|j: int|
                        0 <= j < old.exports.len() ==> entry_kept(
                            map,
                            #[trigger] old.exports[j],
                            new.exports,
                        )
                }
        },
{
    parented_resolves_merge(from, into);
    if let (after, Ok(map)) = merged(into, from) {
        let plan = matched(from, into)->Ok_0;
        assert(merge_of(into, from, plan, after, map));
        merging_keeps_parents(into, from);
        merging_maps_parents(into, from);
        merging_keeps_valid(into, from);
        assert forall|p: int, j: int|
            #![trigger from.packages[p].documents[j]]
            0 <= p < from.packages.len() && 0 <= j < from.packages[p].documents.len() implies {
            let (name, d) = from.packages[p].documents[j];
            after.packages[map.packages[p] as int].documents.contains(
                (name, map.documents[d as int]),
            )
        } by {
            let (name, d) = from.packages[p].documents[j];
            assert(from.package_lists(p));
            assert(from.package_valid(p));
            assert(from.packages[p].documents[j].1 < from.documents.len());
            let x = map.documents[d as int];
            assert(x < after.documents.len());
            assert(after.document_listed(x as int));
            assert(after.documents[x as int].name == name);
            assert(from.fits());
            lemma_listed(after.packages[map.packages[p] as int].documents, name);
        }
        assert forall|d: int, j: int|
            #![trigger from.documents[d].interfaces[j]]
            0 <= d < from.documents.len() && 0 <= j < from.documents[d].interfaces.len() implies {
            let (name, i) = from.documents[d].interfaces[j];
            after.documents[map.documents[d] as int].interfaces.contains(
                (name, map.interfaces[i as int]),
            )
        } by {
            lemma_document_found(into, from, plan, after, map, d);
            let (name, i) = from.documents[d].interfaces[j];
            lemma_listed(after.documents[map.documents[d] as int].interfaces, name);
        }
        assert forall|d: int, j: int|
            #![trigger from.documents[d].worlds[j]]
            0 <= d < from.documents.len() && 0 <= j < from.documents[d].worlds.len() implies {
            let (name, w) = from.documents[d].worlds[j];
            after.documents[map.documents[d] as int].worlds.contains((name, map.worlds[w as int]))
        } by {
            lemma_document_found(into, from, plan, after, map, d);
            let (name, w) = from.documents[d].worlds[j];
            lemma_listed(after.documents[map.documents[d] as int].worlds, name);
        }
        assert forall|i: int, j: int|
            #![trigger from.interfaces[i].types[j]]
            0 <= i < from.interfaces.len() && 0 <= j < from.interfaces[i].types.len() implies {
            let (name, t) = from.interfaces[i].types[j];
            after.interfaces[map.interfaces[i] as int].types.contains((name, map.types[t as int]))
        } by {
            lemma_interface_found(into, from, plan, after, map, i);
            let (name, t) = from.interfaces[i].types[j];
            lemma_listed(after.interfaces[map.interfaces[i] as int].types, name);
        }
        assert forall|i: int, j: int|
            #![trigger from.interfaces[i].functions[j]]
            0 <= i < from.interfaces.len() && 0 <= j
                < from.interfaces[i].functions.len() implies !lacks(
            after.interfaces[map.interfaces[i] as int].functions,
            from.interfaces[i].functions[j].0,
        ) by {
            lemma_interface_found(into, from, plan, after, map, i);
            let (a, b) = (from.interfaces[i], after.interfaces[map.interfaces[i] as int]);
            assert(functions_found(a, b));
            assert(find(b.functions, a.functions[j].0).is_some());
            lemma_lacks(b.functions, a.functions[j].0);
        }
        assert forall|w: int| 0 <= w < from.worlds.len() implies {
            let old = #[trigger] from.worlds[w];
            let new = after.worlds[map.worlds[w] as int];
            &&& new.imports.len() == old.imports.len()
            &&& new.exports.len() == old.exports.len()
            &&& forall|j: int|
                0 <= j < old.imports.len() ==> entry_kept(
                    map,
                    #[trigger] old.imports[j],
                    new.imports,
                )
            &&& forall|j: int|
                0 <= j < old.exports.len() ==> entry_kept(
                    map,
                    #[trigger] old.exports[j],
                    new.exports,
                )
        } by {
            lemma_world_found(into, from, plan, after, map, w);
            let (old, new) = (from.worlds[w], after.worlds[map.worlds[w] as int]);
            assert forall|j: int| 0 <= j < old.imports.len() implies entry_kept(
                map,
                #[trigger] old.imports[j],
                new.imports,
            ) by {
                assert(item_found(map, old.imports[j], new.imports));
                lemma_entry_kept(map, old.imports[j], new.imports);
            }
            assert forall|j: int| 0 <= j < old.exports.len() implies entry_kept(
                map,
                #[trigger] old.exports[j],
                new.exports,
            ) by {
                assert(item_found(map, old.exports[j], new.exports));
                lemma_entry_kept(map, old.exports[j], new.exports);
            }
        }
    }
}

proof fn lemma_entry_kept(
    map: RemapView,
    entry: (Seq<char>, ItemView),
    items: ItemList,
)
    requires
        item_found(map, entry, items),
    ensures
        entry_kept(map, entry, items),
{
    lemma_listed(items, entry.0);
    lemma_find(items, entry.0);
    let i = find(items, entry.0).unwrap();
    assert(items[i].0 == entry.0);
}

/// What was matched keeps its place, and what was not is added.
pub proof fn lemma_matched_below(into: ResolveView, from: ResolveView)
    requires
        comparable(from, into),
        merged(into, from).0.fits(),
        merged(into, from).1.is_ok(),
    ensures
        ({
            let plan = matched(from, into)->Ok_0;
            let map = merged(into, from).1->Ok_0;
            &&& forall|t: TypeId|
                t < from.types.len() ==> (#[trigger] plan.types.contains_key(t)
                    <==> map.types[t as int] < into.types.len())
            &&& forall|i: InterfaceId|
                i < from.interfaces.len() ==> (#[trigger] plan.interfaces.contains_key(i)
                    <==> map.interfaces[i as int] < into.interfaces.len())
            &&& forall|w: WorldId|
                w < from.worlds.len() ==> (#[trigger] plan.worlds.contains_key(w)
                    <==> map.worlds[w as int] < into.worlds.len())
            &&& forall|d: DocumentId|
                d < from.documents.len() ==> (#[trigger] plan.documents.contains_key(d)
                    <==> map.documents[d as int] < into.documents.len()) && (
                plan.documents.contains_key(d) ==> map.documents[d as int] == plan.documents[d])
            &&& forall|p: PackageId|
                p < from.packages.len() ==> (#[trigger] plan.packages.contains_key(p)
                    <==> map.packages[p as int] < into.packages.len()) && (
                plan.packages.contains_key(p) ==> map.packages[p as int] == plan.packages[p])
        }),
{
    parented_resolves_merge(from, into);
    let plan = matched(from, into)->Ok_0;
    let map = merged(into, from).1->Ok_0;
    lemma_matched_within(from, into);
    lemma_union_len(into, from, plan);
    assert forall|t: TypeId| t < from.types.len() implies (#[trigger] plan.types.contains_key(t)
        <==> map.types[t as int] < into.types.len()) by {
        lemma_renumbered_at(into.types.len(), plan.types, from.types.len() as int, t as int);
    }
    assert forall|i: InterfaceId| i < from.interfaces.len() implies (
    #[trigger] plan.interfaces.contains_key(i) <==> map.interfaces[i as int]
        < into.interfaces.len()) by {
        lemma_renumbered_at(
            into.interfaces.len(),
            plan.interfaces,
            from.interfaces.len() as int,
            i as int,
        );
    }
    assert forall|w: WorldId| w < from.worlds.len() implies (#[trigger] plan.worlds.contains_key(w)
        <==> map.worlds[w as int] < into.worlds.len()) by {
        lemma_renumbered_at(into.worlds.len(), plan.worlds, from.worlds.len() as int, w as int);
    }
    assert forall|d: DocumentId| d < from.documents.len() implies (
    #[trigger] plan.documents.contains_key(d) <==> map.documents[d as int] < into.documents.len())
        && (plan.documents.contains_key(d) ==> map.documents[d as int] == plan.documents[d]) by {
        lemma_renumbered_at(
            into.documents.len(),
            plan.documents,
            from.documents.len() as int,
            d as int,
        );
    }
    assert forall|p: PackageId| p < from.packages.len() implies (
    #[trigger] plan.packages.contains_key(p) <==> map.packages[p as int] < into.packages.len()) && (
    plan.packages.contains_key(p) ==> map.packages[p as int] == plan.packages[p]) by {
        lemma_renumbered_at(
            into.packages.len(),
            plan.packages,
            from.packages.len() as int,
            p as int,
        );
    }
}

/// A type becomes one that was there if and only if the interface that it belongs to does. A type
/// that belongs to a world does so only if the world does, and then if the world imports it. A type
/// that belongs to neither is always added. An interface without a name becomes one that was there
/// if and only if it stands in a world that does.
pub proof fn types_become_one_with_their_owners(
    into: ResolveView,
    from: ResolveView,
    t: TypeId,
    a: InterfaceId,
)
    requires
        comparable(from, into),
        merged(into, from).0.fits(),
    ensures
        merged(into, from).1 matches Ok(map) ==> {
            &&& t < from.types.len() ==> match from.types[t as int].owner {
                TypeOwner::Interface(i) => map.types[t as int] < into.types.len()
                    <==> map.interfaces[i as int] < into.interfaces.len(),
                TypeOwner::World(w) => {
                    &&& map.types[t as int] < into.types.len() ==> map.worlds[w as int]
                        < into.worlds.len()
                    &&& map.worlds[w as int] < into.worlds.len() && (exists|j: int|
                        0 <= j < from.worlds[w as int].imports.len() && (
                        #[trigger] from.worlds[w as int].imports[j]).1 == ItemView::Type(t))
                        ==> map.types[t as int] < into.types.len()
                },
                TypeOwner::Unowned => map.types[t as int] >= into.types.len(),
            }
            &&& a < from.interfaces.len() && from.interfaces[a as int].name.is_none() ==> (
            map.interfaces[a as int] < into.interfaces.len() <==> exists|
                w: int,
                import: bool,
                j: int,
            | #[trigger]
                from.stands_at(a, w, import, j) && map.worlds[w] < into.worlds.len())
        },
{
    if let (after, Ok(map)) = merged(into, from) {
        parented_resolves_merge(from, into);
        let plan = matched(from, into)->Ok_0;
        lemma_matched_below(into, from);
        matched_items_correspond(from, into);
        merged_items_list_the_same(into, from);
        merging_keeps_items(into, from);
        if t < from.types.len() {
            assert(from.type_valid(t as int));
            if plan.types.contains_key(t) {
                assert(plan.type_homed(from, into, t));
            }
            match from.types[t as int].owner {
                TypeOwner::Interface(i) => {
                    let x = map.interfaces[i as int];
                    if plan.types.contains_key(t) {
                        assert(plan.interfaces.contains_key(i));
                    }
                    if x < into.interfaces.len() {
                        assert(from.type_listed(t as int));
                        let name = from.types[t as int].name.unwrap();
                        let listed = from.interfaces[i as int].types;
                        lemma_listed(listed, name);
                        let j = choose|j: int| 0 <= j < listed.len() && listed[j] == (name, t);
                        assert(from.interfaces[i as int].types[j] == (name, t));
                        assert(after.interfaces[x as int] == into.interfaces[x as int]);
                        let held = into.interfaces[x as int].types;
                        let k = choose|k: int|
                            0 <= k < held.len() && held[k] == (name, map.types[t as int]);
                        assert(into.interface_valid(x as int));
                        assert(held[k].1 < into.types.len());
                    }
                },
                TypeOwner::World(w) => {
                    let x = map.worlds[w as int];
                    if plan.types.contains_key(t) {
                        assert(plan.worlds.contains_key(w));
                    }
                    if x < into.worlds.len() && exists|j: int|
                        0 <= j < from.worlds[w as int].imports.len() && (
                        #[trigger] from.worlds[w as int].imports[j]).1 == ItemView::Type(t) {
                        let j = choose|j: int|
                            0 <= j < from.worlds[w as int].imports.len() && (
                            #[trigger] from.worlds[w as int].imports[j]).1 == ItemView::Type(t);
                        let entry = from.worlds[w as int].imports[j];
                        assert(after.worlds[x as int] == into.worlds[x as int]);
                        assert(entry_kept(map, entry, after.worlds[x as int].imports));
                        let held = into.worlds[x as int].imports;
                        let k = choose|k: int|
                            0 <= k < held.len() && held[k] == (
                                entry.0,
                                ItemView::Type(map.types[t as int]),
                            );
                        assert(into.world_valid(x as int));
                        assert(item_within(
                            held[k].1,
                            into.interfaces.len(),
                            into.types.len(),
                        ));
                    }
                },
                TypeOwner::Unowned => {},
            }
        }
        if a < from.interfaces.len() && from.interfaces[a as int].name.is_none() {
            if plan.interfaces.contains_key(a) {
                assert(plan.interface_homed(from, into, a));
                let (w, import, j) = choose|w: WorldId, import: bool, j: int|
                    plan.worlds.contains_key(w) && #[trigger] from.stands_at(
                        a,
                        w as int,
                        import,
                        j,
                    );
                assert(from.stands_at(a, w as int, import, j));
                assert(map.worlds[w as int] < into.worlds.len());
            }
            if exists|w: int, import: bool, j: int| #[trigger]
                from.stands_at(a, w, import, j) && map.worlds[w] < into.worlds.len() {
                let (w, import, j) = choose|w: int, import: bool, j: int| #[trigger]
                    from.stands_at(a, w, import, j) && map.worlds[w] < into.worlds.len();
                let x = map.worlds[w];
                let entry = from.world_items(w, import)[j];
                assert(after.worlds[x as int] == into.worlds[x as int]);
                let held = into.world_items(x as int, import);
                assert(from.worlds[w].imports == from.worlds[w].imports);
                if import {
                    assert(entry_kept(map, from.worlds[w].imports[j], held));
                } else {
                    assert(entry_kept(map, from.worlds[w].exports[j], held));
                }
                let k = choose|k: int|
                    0 <= k < held.len() && held[k] == (
                        entry.0,
                        ItemView::Interface(map.interfaces[a as int]),
                    );
                assert(into.world_valid(x as int));
                assert(item_within(held[k].1, into.interfaces.len(), into.types.len()));
            }
        }
    }
}

} // verus!
