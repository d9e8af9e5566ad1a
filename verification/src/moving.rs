//! Moving of items from one set of arenas to another: where each item goes, and what becomes of
//! the ids inside of it.
use id_arena::Arena;
use std::collections::HashMap;
use vstd::prelude::*;

use crate::arena::{self, Items};
use crate::remap::{
    functions_within, ids_within, items_within, kind_within, mapped_functions, mapped_id,
    mapped_ids, mapped_items, mapped_kind, ItemMap, Remap,
};
use crate::resolve::document_within;
use crate::types::{
    views, Document, DocumentId, DocumentView, Interface, InterfaceId, InterfaceView, KindView,
    PackageId, TypeDef, TypeDefView, TypeId, TypeOwner, World, WorldId, WorldView,
};

verus! {

/// Items that are there already, by the position that they have in the arena that is left.
pub type Known = Map<usize, usize>;

/// The positions from `start` to `n` of the items that have to move.
pub open spec fn moved(known: Known, start: int, n: int) -> Seq<int>
    decreases n - start,
{
    if n <= start {
        Seq::empty()
    } else if known.contains_key((n - 1) as usize) {
        moved(known, start, n - 1)
    } else {
        moved(known, start, n - 1).push(n - 1)
    }
}

/// The new ids of the items from `start` to `n`, with `base` items in the arena that they move to:
/// those that are there already keep their place, and the others follow in order.
pub open spec fn renumbered(base: nat, known: Known, start: int, n: int) -> Seq<usize>
    decreases n - start,
{
    if n <= start {
        Seq::empty()
    } else {
        renumbered(base, known, start, n - 1).push(
            if known.contains_key((n - 1) as usize) {
                known[(n - 1) as usize]
            } else {
                (base + moved(known, start, n - 1).len()) as usize
            },
        )
    }
}

/// The items at some positions.
pub open spec fn picked<T>(items: Seq<T>, positions: Seq<int>) -> Seq<T> {
    Seq::new(positions.len(), |i: int| items[positions[i]])
}

/// `n` ids that follow on `base` others.
pub open spec fn fresh(base: nat, n: nat) -> Seq<usize> {
    Seq::new(n, |i: int| (base + i) as usize)
}

pub open spec fn moved_type(ids: Seq<TypeId>, ty: TypeDefView) -> TypeDefView {
    TypeDefView { kind: mapped_kind(ids, ty.kind), ..ty }
}

pub open spec fn moved_types(ids: Seq<TypeId>, types: Seq<TypeDefView>) -> Seq<TypeDefView> {
    Seq::new(types.len(), |i: int| moved_type(ids, types[i]))
}

pub open spec fn moved_interface(ids: Seq<TypeId>, iface: InterfaceView) -> InterfaceView {
    InterfaceView {
        types: mapped_ids(ids, iface.types),
        functions: mapped_functions(ids, iface.functions),
        ..iface
    }
}

pub open spec fn moved_interfaces(ids: Seq<TypeId>, interfaces: Seq<InterfaceView>) -> Seq<
    InterfaceView,
> {
    Seq::new(interfaces.len(), |i: int| moved_interface(ids, interfaces[i]))
}

pub open spec fn moved_world(map: ItemMap, world: WorldView) -> WorldView {
    WorldView {
        imports: mapped_items(map, world.imports),
        exports: mapped_items(map, world.exports),
        ..world
    }
}

pub open spec fn moved_worlds(map: ItemMap, worlds: Seq<WorldView>) -> Seq<WorldView> {
    Seq::new(worlds.len(), |i: int| moved_world(map, worlds[i]))
}

pub open spec fn moved_document(
    interfaces: Seq<InterfaceId>,
    worlds: Seq<WorldId>,
    doc: DocumentView,
) -> DocumentView {
    DocumentView {
        interfaces: mapped_ids(interfaces, doc.interfaces),
        worlds: mapped_ids(worlds, doc.worlds),
        default_interface: mapped_id(interfaces, doc.default_interface),
        default_world: mapped_id(worlds, doc.default_world),
        ..doc
    }
}

pub open spec fn moved_documents(
    interfaces: Seq<InterfaceId>,
    worlds: Seq<WorldId>,
    documents: Seq<DocumentView>,
) -> Seq<DocumentView> {
    Seq::new(documents.len(), |i: int| moved_document(interfaces, worlds, documents[i]))
}

/// An owner whose interface was renumbered.
pub open spec fn interface_owner(ids: Seq<InterfaceId>, owner: TypeOwner) -> TypeOwner {
    match owner {
        TypeOwner::Interface(id) => TypeOwner::Interface(ids[id as int]),
        owner => owner,
    }
}

/// An owner whose world was renumbered.
pub open spec fn world_owner(ids: Seq<WorldId>, owner: TypeOwner) -> TypeOwner {
    match owner {
        TypeOwner::World(id) => TypeOwner::World(ids[id as int]),
        owner => owner,
    }
}

/// The types from `start` on follow the renumbering of the interfaces that own them.
pub open spec fn owned_by_interfaces(
    types: Seq<TypeDefView>,
    start: int,
    ids: Seq<InterfaceId>,
) -> Seq<TypeDefView> {
    Seq::new(
        types.len(),
        |i: int|
            if i < start {
                types[i]
            } else {
                TypeDefView { owner: interface_owner(ids, types[i].owner), ..types[i] }
            },
    )
}

/// The types from `start` on follow the renumbering of the worlds that own them.
pub open spec fn owned_by_worlds(
    types: Seq<TypeDefView>,
    start: int,
    ids: Seq<WorldId>,
) -> Seq<TypeDefView> {
    Seq::new(
        types.len(),
        |i: int|
            if i < start {
                types[i]
            } else {
                TypeDefView { owner: world_owner(ids, types[i].owner), ..types[i] }
            },
    )
}

/// The interfaces from `start` on follow the renumbering of their documents.
pub open spec fn interfaces_in_documents(
    interfaces: Seq<InterfaceView>,
    start: int,
    ids: Seq<DocumentId>,
) -> Seq<InterfaceView> {
    Seq::new(
        interfaces.len(),
        |i: int|
            if i < start {
                interfaces[i]
            } else {
                InterfaceView {
                    document: ids[interfaces[i].document as int],
                    ..interfaces[i]
                }
            },
    )
}

/// The worlds from `start` on follow the renumbering of their documents.
pub open spec fn worlds_in_documents(
    worlds: Seq<WorldView>,
    start: int,
    ids: Seq<DocumentId>,
) -> Seq<WorldView> {
    Seq::new(
        worlds.len(),
        |i: int|
            if i < start {
                worlds[i]
            } else {
                WorldView { document: ids[worlds[i].document as int], ..worlds[i] }
            },
    )
}

/// The documents from `start` on follow the renumbering of their packages.
pub open spec fn documents_in_packages(
    documents: Seq<DocumentView>,
    start: int,
    ids: Seq<PackageId>,
) -> Seq<DocumentView> {
    Seq::new(
        documents.len(),
        |i: int|
            if i < start {
                documents[i]
            } else {
                DocumentView { package: mapped_id(ids, documents[i].package), ..documents[i] }
            },
    )
}

/// The documents from `start` on belong to a package.
pub open spec fn documents_of_package(
    documents: Seq<DocumentView>,
    start: int,
    package: PackageId,
) -> Seq<DocumentView> {
    Seq::new(
        documents.len(),
        |i: int|
            if i < start {
                documents[i]
            } else {
                DocumentView { package: Some(package), ..documents[i] }
            },
    )
}

/// The new ids of some items start with those of the items before.
pub proof fn lemma_renumbered(base: nat, known: Known, start: int, k: int, n: int)
    requires
        start <= k <= n,
    ensures
        renumbered(base, known, start, n).len() == n - start,
        renumbered(base, known, start, n).take(k - start) == renumbered(base, known, start, k),
    decreases n - k,
{
    lemma_renumbered_len(base, known, start, n);
    lemma_renumbered_len(base, known, start, k);
    if k < n {
        lemma_renumbered(base, known, start, k, n - 1);
        lemma_renumbered_len(base, known, start, n - 1);
        assert(renumbered(base, known, start, n).take(k - start) =~= renumbered(
            base,
            known,
            start,
            n - 1,
        ).take(k - start));
    } else {
        assert(renumbered(base, known, start, n).take(k - start) =~= renumbered(
            base,
            known,
            start,
            k,
        ));
    }
}

proof fn lemma_renumbered_len(base: nat, known: Known, start: int, n: int)
    requires
        start <= n,
    ensures
        renumbered(base, known, start, n).len() == n - start,
    decreases n - start,
{
    if start < n {
        lemma_renumbered_len(base, known, start, n - 1);
    }
}

/// The positions of the items that move are those that nothing is known of, in order.
pub proof fn lemma_moved(known: Known, start: int, n: int)
    requires
        start <= n,
    ensures
        moved(known, start, n).len() <= n - start,
        forall|i: int|
            0 <= i < moved(known, start, n).len() ==> start <= #[trigger] moved(
                known,
                start,
                n,
            )[i] < n && !known.contains_key(moved(known, start, n)[i] as usize),
    decreases n - start,
{
    if start < n {
        lemma_moved(known, start, n - 1);
    }
}

/// Where nothing is known, everything moves, to the ids that come next.
pub proof fn lemma_nothing_known(base: nat, start: int, n: int)
    requires
        start <= n,
    ensures
        moved(Map::empty(), start, n) == Seq::new((n - start) as nat, |i: int| start + i),
        renumbered(base, Map::empty(), start, n) == fresh(base, (n - start) as nat),
    decreases n - start,
{
    if start < n {
        lemma_nothing_known(base, start, n - 1);
    }
    assert(moved(Map::empty(), start, n) =~= Seq::new((n - start) as nat, |i: int| start + i));
    assert(renumbered(base, Map::empty(), start, n) =~= fresh(base, (n - start) as nat));
}

/// A definition depends on the new ids of those types only that stand before it.
pub proof fn lemma_kind_prefix(ids: Seq<TypeId>, k: int, kind: KindView)
    requires
        0 <= k <= ids.len(),
        kind_within(kind, k as nat),
    ensures
        mapped_kind(ids.take(k), kind) == mapped_kind(ids, kind),
{
    assert(mapped_kind(ids.take(k), kind) =~= mapped_kind(ids, kind));
}

impl Remap {
    /// Moves types, but for those that are known. Note that types are sorted topologically which
    /// means that what a type refers to was renumbered before it. Also note though that the owner
    /// of a type isn't updated here due to interfaces not being known yet.
    pub(crate) fn move_types(
        &mut self,
        arena: &mut Arena<TypeDef>,
        items: Vec<TypeDef>,
        known: &HashMap<TypeId, TypeId>,
    )
        requires
            old(self).types@.len() <= items@.len(),
            forall|k: int|
                old(self).types@.len() <= k < items@.len() && !known@.contains_key(k as usize)
                    ==> kind_within((#[trigger] items@[k]).kind@, k as nat) && items@[k].kind@
                    != KindView::Unknown,
        ensures
            final(self).interfaces == old(self).interfaces,
            final(self).worlds == old(self).worlds,
            final(self).documents == old(self).documents,
            final(self).packages == old(self).packages,
            final(self).types@ == old(self).types@ + renumbered(
                old(arena).items().len(),
                known@,
                old(self).types@.len() as int,
                items@.len() as int,
            ),
            views(final(arena).items()) == views(old(arena).items()) + moved_types(
                final(self).types@,
                picked(
                    views(items@),
                    moved(known@, old(self).types@.len() as int, items@.len() as int),
                ),
            ),
    {
        broadcast use vstd::std_specs::hash::group_hash_axioms;

        let start: usize = self.types.len();
        let ghost before = self.types@;
        let ghost target = views(arena.items());
        let ghost base = arena.items().len();
        let ghost all = items@;
        let ghost ids = before + renumbered(base, known@, start as int, all.len() as int);
        proof {
            lemma_renumbered(base, known@, start as int, start as int, all.len() as int);
            assert(ids.take(start as int) =~= before);
            assert(views(arena.items()) =~= target + moved_types(
                ids,
                picked(views(all), moved(known@, start as int, start as int)),
            ));
        }
        let n: usize = items.len();
        let mut k: usize = 0;
        for item in it: items
            invariant
                it.seq() == all,
                n == all.len(),
                k == it.index(),
                start == before.len(),
                start <= all.len(),
                base == target.len(),
                ids == before + renumbered(base, known@, start as int, all.len() as int),
                ids.len() == all.len(),
                forall|k: int|
                    start <= k < all.len() && !known@.contains_key(k as usize) ==> kind_within(
                        (#[trigger] all[k]).kind@,
                        k as nat,
                    ) && all[k].kind@ != KindView::Unknown,
                self.interfaces == old(self).interfaces,
                self.worlds == old(self).worlds,
                self.documents == old(self).documents,
                self.packages == old(self).packages,
                k <= start ==> self.types@ == before && views(arena.items()) == target
                    + moved_types(
                    ids,
                    picked(views(all), moved(known@, start as int, start as int)),
                ),
                start <= k ==> self.types@ == ids.take(k as int) && views(arena.items())
                    == target + moved_types(
                    ids,
                    picked(views(all), moved(known@, start as int, k as int)),
                ),
        {
            assert(item == all[k as int]);
            if k >= start {
                proof {
                    lemma_renumbered(base, known@, start as int, k as int, all.len() as int);
                    lemma_renumbered(base, known@, start as int, k + 1, all.len() as int);
                    assert(ids.take(k as int) =~= before + renumbered(
                        base,
                        known@,
                        start as int,
                        k as int,
                    ));
                    assert(ids.take(k + 1) =~= ids.take(k as int).push(ids[k as int]));
                    assert(ids[k as int] == renumbered(
                        base,
                        known@,
                        start as int,
                        all.len() as int,
                    ).take(k + 1 - start)[k - start]);
                }
                match known.get(&k) {
                    Some(id) => self.types.push(*id),
                    None => {
                        let mut item = item;
                        self.update_typedef(&mut item);
                        proof {
                            lemma_kind_prefix(ids, k as int, all[k as int].kind@);
                        }
                        let ghost positions = moved(known@, start as int, k as int);
                        let ghost arena_before = arena.items();
                        let id: usize = arena::add_item(arena, item);
                        proof {
                            assert(views(arena.items()) =~= views(arena_before).push(item@));
                            assert(picked(views(all), positions.push(k as int)) =~= picked(
                                views(all),
                                positions,
                            ).push(views(all)[k as int]));
                            assert(moved_types(
                                ids,
                                picked(views(all), positions).push(views(all)[k as int]),
                            ) =~= moved_types(ids, picked(views(all), positions)).push(item@));
                            assert(views(arena.items()) =~= target + moved_types(
                                ids,
                                picked(views(all), positions.push(k as int)),
                            ));
                        }
                        self.types.push(id);
                    },
                }
            }
            k = k + 1;
        }
        assert(ids.take(all.len() as int) =~= ids);
    }

    /// Moves interfaces, but for those that are known, after the types. The document of an
    /// interface isn't updated here due to documents not being known yet.
    pub(crate) fn move_interfaces(
        &mut self,
        arena: &mut Arena<Interface>,
        items: Vec<Interface>,
        known: &HashMap<InterfaceId, InterfaceId>,
    )
        requires
            old(self).interfaces@.len() <= items@.len(),
            old(arena).items().len() <= usize::MAX,
            forall|k: int|
                old(self).interfaces@.len() <= k < items@.len() && !known@.contains_key(k as usize)
                    ==> ids_within(
                        (#[trigger] items@[k])@.types,
                        old(self).types@.len(),
                    ) && functions_within(items@[k]@.functions, old(self).types@.len()),
        ensures
            final(arena).items().len() <= usize::MAX,
            final(self).types == old(self).types,
            final(self).worlds == old(self).worlds,
            final(self).documents == old(self).documents,
            final(self).packages == old(self).packages,
            final(self).interfaces@ == old(self).interfaces@ + renumbered(
                old(arena).items().len(),
                known@,
                old(self).interfaces@.len() as int,
                items@.len() as int,
            ),
            views(final(arena).items()) == views(old(arena).items()) + moved_interfaces(
                old(self).types@,
                picked(
                    views(items@),
                    moved(known@, old(self).interfaces@.len() as int, items@.len() as int),
                ),
            ),
    {
        broadcast use vstd::std_specs::hash::group_hash_axioms;

        let start: usize = self.interfaces.len();
        let ghost before = self.interfaces@;
        let ghost target = views(arena.items());
        let ghost base = arena.items().len();
        let ghost all = items@;
        let ghost ids = before + renumbered(base, known@, start as int, all.len() as int);
        proof {
            lemma_renumbered(base, known@, start as int, start as int, all.len() as int);
            assert(ids.take(start as int) =~= before);
            assert(views(arena.items()) =~= target + moved_interfaces(
                self.types@,
                picked(views(all), moved(known@, start as int, start as int)),
            ));
        }
        let n: usize = items.len();
        let mut k: usize = 0;
        for item in it: items
            invariant
                arena.items().len() <= usize::MAX,
                it.seq() == all,
                n == all.len(),
                k == it.index(),
                start == before.len(),
                start <= all.len(),
                base == target.len(),
                ids == before + renumbered(base, known@, start as int, all.len() as int),
                ids.len() == all.len(),
                forall|k: int|
                    start <= k < all.len() && !known@.contains_key(k as usize) ==> ids_within(
                        (#[trigger] all[k])@.types,
                        self.types@.len(),
                    ) && functions_within(all[k]@.functions, self.types@.len()),
                self.types == old(self).types,
                self.worlds == old(self).worlds,
                self.documents == old(self).documents,
                self.packages == old(self).packages,
                k <= start ==> self.interfaces@ == before && views(arena.items()) == target
                    + moved_interfaces(
                    self.types@,
                    picked(views(all), moved(known@, start as int, start as int)),
                ),
                start <= k ==> self.interfaces@ == ids.take(k as int) && views(arena.items())
                    == target + moved_interfaces(
                    self.types@,
                    picked(views(all), moved(known@, start as int, k as int)),
                ),
        {
            assert(item == all[k as int]);
            if k >= start {
                proof {
                    lemma_renumbered(base, known@, start as int, k as int, all.len() as int);
                    lemma_renumbered(base, known@, start as int, k + 1, all.len() as int);
                    assert(ids.take(k as int) =~= before + renumbered(
                        base,
                        known@,
                        start as int,
                        k as int,
                    ));
                    assert(ids.take(k + 1) =~= ids.take(k as int).push(ids[k as int]));
                    assert(ids[k as int] == renumbered(
                        base,
                        known@,
                        start as int,
                        all.len() as int,
                    ).take(k + 1 - start)[k - start]);
                }
                match known.get(&k) {
                    Some(id) => self.interfaces.push(*id),
                    None => {
                        let mut item = item;
                        self.update_interface(&mut item);
                        let ghost positions = moved(known@, start as int, k as int);
                        let ghost arena_before = arena.items();
                        let id: usize = arena::add_item(arena, item);
                        proof {
                            assert(views(arena.items()) =~= views(arena_before).push(item@));
                            assert(picked(views(all), positions.push(k as int)) =~= picked(
                                views(all),
                                positions,
                            ).push(views(all)[k as int]));
                            assert(moved_interfaces(
                                self.types@,
                                picked(views(all), positions).push(views(all)[k as int]),
                            ) =~= moved_interfaces(
                                self.types@,
                                picked(views(all), positions),
                            ).push(item@));
                            assert(views(arena.items()) =~= target + moved_interfaces(
                                self.types@,
                                picked(views(all), positions.push(k as int)),
                            ));
                        }
                        self.interfaces.push(id);
                    },
                }
            }
            k = k + 1;
        }
        assert(ids.take(all.len() as int) =~= ids);
    }

    /// Moves worlds, but for those that are known, after the interfaces. The document of a world
    /// isn't updated here due to documents not being known yet.
    pub(crate) fn move_worlds(
        &mut self,
        arena: &mut Arena<World>,
        items: Vec<World>,
        known: &HashMap<WorldId, WorldId>,
    )
        requires
            old(self).worlds@.len() <= items@.len(),
            forall|k: int|
                old(self).worlds@.len() <= k < items@.len() && !known@.contains_key(k as usize)
                    ==> items_within(
                        (#[trigger] items@[k])@.imports,
                        old(self).interfaces@.len(),
                        old(self).types@.len(),
                    ) && items_within(
                        items@[k]@.exports,
                        old(self).interfaces@.len(),
                        old(self).types@.len(),
                    ),
        ensures
            final(self).types == old(self).types,
            final(self).interfaces == old(self).interfaces,
            final(self).documents == old(self).documents,
            final(self).packages == old(self).packages,
            final(self).worlds@ == old(self).worlds@ + renumbered(
                old(arena).items().len(),
                known@,
                old(self).worlds@.len() as int,
                items@.len() as int,
            ),
            views(final(arena).items()) == views(old(arena).items()) + moved_worlds(
                old(self)@.item_map(),
                picked(
                    views(items@),
                    moved(known@, old(self).worlds@.len() as int, items@.len() as int),
                ),
            ),
    {
        broadcast use vstd::std_specs::hash::group_hash_axioms;

        let start: usize = self.worlds.len();
        let ghost before = self.worlds@;
        let ghost target = views(arena.items());
        let ghost base = arena.items().len();
        let ghost all = items@;
        let ghost ids = before + renumbered(base, known@, start as int, all.len() as int);
        proof {
            lemma_renumbered(base, known@, start as int, start as int, all.len() as int);
            assert(ids.take(start as int) =~= before);
            assert(views(arena.items()) =~= target + moved_worlds(
                self@.item_map(),
                picked(views(all), moved(known@, start as int, start as int)),
            ));
        }
        let n: usize = items.len();
        let mut k: usize = 0;
        for item in it: items
            invariant
                it.seq() == all,
                n == all.len(),
                k == it.index(),
                start == before.len(),
                start <= all.len(),
                base == target.len(),
                ids == before + renumbered(base, known@, start as int, all.len() as int),
                ids.len() == all.len(),
                forall|k: int|
                    start <= k < all.len() && !known@.contains_key(k as usize) ==> items_within(
                        (#[trigger] all[k])@.imports,
                        self.interfaces@.len(),
                        self.types@.len(),
                    ) && items_within(
                        all[k]@.exports,
                        self.interfaces@.len(),
                        self.types@.len(),
                    ),
                self.types == old(self).types,
                self.interfaces == old(self).interfaces,
                self.documents == old(self).documents,
                self.packages == old(self).packages,
                k <= start ==> self.worlds@ == before && views(arena.items()) == target
                    + moved_worlds(
                    self@.item_map(),
                    picked(views(all), moved(known@, start as int, start as int)),
                ),
                start <= k ==> self.worlds@ == ids.take(k as int) && views(arena.items())
                    == target + moved_worlds(
                    self@.item_map(),
                    picked(views(all), moved(known@, start as int, k as int)),
                ),
        {
            assert(item == all[k as int]);
            if k >= start {
                proof {
                    lemma_renumbered(base, known@, start as int, k as int, all.len() as int);
                    lemma_renumbered(base, known@, start as int, k + 1, all.len() as int);
                    assert(ids.take(k as int) =~= before + renumbered(
                        base,
                        known@,
                        start as int,
                        k as int,
                    ));
                    assert(ids.take(k + 1) =~= ids.take(k as int).push(ids[k as int]));
                    assert(ids[k as int] == renumbered(
                        base,
                        known@,
                        start as int,
                        all.len() as int,
                    ).take(k + 1 - start)[k - start]);
                }
                match known.get(&k) {
                    Some(id) => self.worlds.push(*id),
                    None => {
                        let mut item = item;
                        self.update_items(&mut item.imports);
                        self.update_items(&mut item.exports);
                        let ghost positions = moved(known@, start as int, k as int);
                        let ghost arena_before = arena.items();
                        let id: usize = arena::add_item(arena, item);
                        proof {
                            assert(views(arena.items()) =~= views(arena_before).push(item@));
                            assert(picked(views(all), positions.push(k as int)) =~= picked(
                                views(all),
                                positions,
                            ).push(views(all)[k as int]));
                            assert(moved_worlds(
                                self@.item_map(),
                                picked(views(all), positions).push(views(all)[k as int]),
                            ) =~= moved_worlds(
                                self@.item_map(),
                                picked(views(all), positions),
                            ).push(item@));
                            assert(views(arena.items()) =~= target + moved_worlds(
                                self@.item_map(),
                                picked(views(all), positions.push(k as int)),
                            ));
                        }
                        self.worlds.push(id);
                    },
                }
            }
            k = k + 1;
        }
        assert(ids.take(all.len() as int) =~= ids);
    }

    /// Moves documents, but for those that are known, after the worlds. The package of a document
    /// isn't updated here due to packages not being known yet.
    pub(crate) fn move_documents(
        &mut self,
        arena: &mut Arena<Document>,
        items: Vec<Document>,
        known: &HashMap<DocumentId, DocumentId>,
    )
        requires
            old(self).documents@.len() <= items@.len(),
            forall|k: int|
                old(self).documents@.len() <= k < items@.len() && !known@.contains_key(k as usize)
                    ==> document_within(
                        (#[trigger] items@[k])@,
                        old(self).interfaces@.len(),
                        old(self).worlds@.len(),
                    ),
        ensures
            final(self).types == old(self).types,
            final(self).interfaces == old(self).interfaces,
            final(self).worlds == old(self).worlds,
            final(self).packages == old(self).packages,
            final(self).documents@ == old(self).documents@ + renumbered(
                old(arena).items().len(),
                known@,
                old(self).documents@.len() as int,
                items@.len() as int,
            ),
            views(final(arena).items()) == views(old(arena).items()) + moved_documents(
                old(self).interfaces@,
                old(self).worlds@,
                picked(
                    views(items@),
                    moved(known@, old(self).documents@.len() as int, items@.len() as int),
                ),
            ),
    {
        broadcast use vstd::std_specs::hash::group_hash_axioms;

        let start: usize = self.documents.len();
        let ghost before = self.documents@;
        let ghost target = views(arena.items());
        let ghost base = arena.items().len();
        let ghost all = items@;
        let ghost ids = before + renumbered(base, known@, start as int, all.len() as int);
        proof {
            lemma_renumbered(base, known@, start as int, start as int, all.len() as int);
            assert(ids.take(start as int) =~= before);
            assert(views(arena.items()) =~= target + moved_documents(
                self.interfaces@,
                self.worlds@,
                picked(views(all), moved(known@, start as int, start as int)),
            ));
        }
        let n: usize = items.len();
        let mut k: usize = 0;
        for item in it: items
            invariant
                it.seq() == all,
                n == all.len(),
                k == it.index(),
                start == before.len(),
                start <= all.len(),
                base == target.len(),
                ids == before + renumbered(base, known@, start as int, all.len() as int),
                ids.len() == all.len(),
                forall|k: int|
                    start <= k < all.len() && !known@.contains_key(k as usize) ==> document_within(
                        (#[trigger] all[k])@,
                        self.interfaces@.len(),
                        self.worlds@.len(),
                    ),
                self.types == old(self).types,
                self.interfaces == old(self).interfaces,
                self.worlds == old(self).worlds,
                self.packages == old(self).packages,
                k <= start ==> self.documents@ == before && views(arena.items()) == target
                    + moved_documents(
                    self.interfaces@,
                self.worlds@,
                    picked(views(all), moved(known@, start as int, start as int)),
                ),
                start <= k ==> self.documents@ == ids.take(k as int) && views(arena.items())
                    == target + moved_documents(
                    self.interfaces@,
                self.worlds@,
                    picked(views(all), moved(known@, start as int, k as int)),
                ),
        {
            assert(item == all[k as int]);
            if k >= start {
                proof {
                    lemma_renumbered(base, known@, start as int, k as int, all.len() as int);
                    lemma_renumbered(base, known@, start as int, k + 1, all.len() as int);
                    assert(ids.take(k as int) =~= before + renumbered(
                        base,
                        known@,
                        start as int,
                        k as int,
                    ));
                    assert(ids.take(k + 1) =~= ids.take(k as int).push(ids[k as int]));
                    assert(ids[k as int] == renumbered(
                        base,
                        known@,
                        start as int,
                        all.len() as int,
                    ).take(k + 1 - start)[k - start]);
                }
                match known.get(&k) {
                    Some(id) => self.documents.push(*id),
                    None => {
                        let mut item = item;
                        self.update_document(&mut item);
                        let ghost positions = moved(known@, start as int, k as int);
                        let ghost arena_before = arena.items();
                        let id: usize = arena::add_item(arena, item);
                        proof {
                            assert(views(arena.items()) =~= views(arena_before).push(item@));
                            assert(picked(views(all), positions.push(k as int)) =~= picked(
                                views(all),
                                positions,
                            ).push(views(all)[k as int]));
                            assert(moved_documents(
                                self.interfaces@,
                self.worlds@,
                                picked(views(all), positions).push(views(all)[k as int]),
                            ) =~= moved_documents(
                                self.interfaces@,
                self.worlds@,
                                picked(views(all), positions),
                            ).push(item@));
                            assert(views(arena.items()) =~= target + moved_documents(
                                self.interfaces@,
                self.worlds@,
                                picked(views(all), positions.push(k as int)),
                            ));
                        }
                        self.documents.push(id);
                    },
                }
            }
            k = k + 1;
        }
        assert(ids.take(all.len() as int) =~= ids);
    }
}

/// Updates the interfaces that own types.
pub(crate) fn own_by_interfaces(ids: &Vec<usize>, arena: &mut Arena<TypeDef>, start: usize)
    requires
        start <= old(arena).items().len(),
        forall|i: int|
            start <= i < old(arena).items().len() ==> (
            (#[trigger] old(arena).items()[i]).owner matches TypeOwner::Interface(id) ==> id
                < ids@.len()),
    ensures
        final(arena).items().len() <= usize::MAX,
        views(final(arena).items()) == owned_by_interfaces(
            views(old(arena).items()),
            start as int,
            ids@,
        ),
{
    let ghost before = arena.items();
    let n: usize = arena::count(arena);
    for i in start..n
        invariant
            n == before.len(),
            arena.items().len() == n,
            start <= n,
            forall|i: int|
                start <= i < n ==> ((
                #[trigger] before[i]).owner matches TypeOwner::Interface(id) ==> id < ids@.len()),
            forall|j: int| 0 <= j < start ==> #[trigger] arena.items()[j] == before[j],
            forall|j: int|
                start <= j < i ==> (#[trigger] arena.items()[j])@ == owned_by_interfaces(
                    views(before),
                    start as int,
                    ids@,
                )[j],
            forall|j: int| i <= j < n ==> #[trigger] arena.items()[j] == before[j],
    {
        let item = arena::item_mut(arena, i);
        assert(*item == before[i as int]);
        if let TypeOwner::Interface(id) = item.owner {
            item.owner = TypeOwner::Interface(ids[id]);
        }
    }
    assert(views(arena.items()) =~= owned_by_interfaces(views(before), start as int, ids@));
}

/// Updates the worlds that own types.
pub(crate) fn own_by_worlds(ids: &Vec<usize>, arena: &mut Arena<TypeDef>, start: usize)
    requires
        start <= old(arena).items().len(),
        forall|i: int|
            start <= i < old(arena).items().len() ==> (
            (#[trigger] old(arena).items()[i]).owner matches TypeOwner::World(id) ==> id
                < ids@.len()),
    ensures
        final(arena).items().len() <= usize::MAX,
        views(final(arena).items()) == owned_by_worlds(
            views(old(arena).items()),
            start as int,
            ids@,
        ),
{
    let ghost before = arena.items();
    let n: usize = arena::count(arena);
    for i in start..n
        invariant
            n == before.len(),
            arena.items().len() == n,
            start <= n,
            forall|i: int|
                start <= i < n ==> ((
                #[trigger] before[i]).owner matches TypeOwner::World(id) ==> id < ids@.len()),
            forall|j: int| 0 <= j < start ==> #[trigger] arena.items()[j] == before[j],
            forall|j: int|
                start <= j < i ==> (#[trigger] arena.items()[j])@ == owned_by_worlds(
                    views(before),
                    start as int,
                    ids@,
                )[j],
            forall|j: int| i <= j < n ==> #[trigger] arena.items()[j] == before[j],
    {
        let item = arena::item_mut(arena, i);
        assert(*item == before[i as int]);
        if let TypeOwner::World(id) = item.owner {
            item.owner = TypeOwner::World(ids[id]);
        }
    }
    assert(views(arena.items()) =~= owned_by_worlds(views(before), start as int, ids@));
}

/// Updates the documents that interfaces are defined in.
pub(crate) fn place_interfaces(ids: &Vec<usize>, arena: &mut Arena<Interface>, start: usize)
    requires
        start <= old(arena).items().len(),
        forall|i: int|
            start <= i < old(arena).items().len() ==> (#[trigger] old(arena).items()[i]).document
                < ids@.len(),
    ensures
        final(arena).items().len() <= usize::MAX,
        views(final(arena).items()) == interfaces_in_documents(
            views(old(arena).items()),
            start as int,
            ids@,
        ),
{
    let ghost before = arena.items();
    let n: usize = arena::count(arena);
    for i in start..n
        invariant
            n == before.len(),
            arena.items().len() == n,
            start <= n,
            forall|i: int|
                start <= i < n ==> ((#[trigger] before[i]).document < ids@.len()),
            forall|j: int| 0 <= j < start ==> #[trigger] arena.items()[j] == before[j],
            forall|j: int|
                start <= j < i ==> (#[trigger] arena.items()[j])@ == interfaces_in_documents(
                    views(before),
                    start as int,
                    ids@,
                )[j],
            forall|j: int| i <= j < n ==> #[trigger] arena.items()[j] == before[j],
    {
        let item = arena::item_mut(arena, i);
        assert(*item == before[i as int]);
        item.document = ids[item.document];
    }
    assert(views(arena.items()) =~= interfaces_in_documents(views(before), start as int, ids@));
}

/// Updates the documents that worlds are defined in.
pub(crate) fn place_worlds(ids: &Vec<usize>, arena: &mut Arena<World>, start: usize)
    requires
        start <= old(arena).items().len(),
        forall|i: int|
            start <= i < old(arena).items().len() ==> (#[trigger] old(arena).items()[i]).document
                < ids@.len(),
    ensures
        final(arena).items().len() <= usize::MAX,
        views(final(arena).items()) == worlds_in_documents(
            views(old(arena).items()),
            start as int,
            ids@,
        ),
{
    let ghost before = arena.items();
    let n: usize = arena::count(arena);
    for i in start..n
        invariant
            n == before.len(),
            arena.items().len() == n,
            start <= n,
            forall|i: int|
                start <= i < n ==> ((#[trigger] before[i]).document < ids@.len()),
            forall|j: int| 0 <= j < start ==> #[trigger] arena.items()[j] == before[j],
            forall|j: int|
                start <= j < i ==> (#[trigger] arena.items()[j])@ == worlds_in_documents(
                    views(before),
                    start as int,
                    ids@,
                )[j],
            forall|j: int| i <= j < n ==> #[trigger] arena.items()[j] == before[j],
    {
        let item = arena::item_mut(arena, i);
        assert(*item == before[i as int]);
        item.document = ids[item.document];
    }
    assert(views(arena.items()) =~= worlds_in_documents(views(before), start as int, ids@));
}

/// Updates the packages that documents belong to.
pub(crate) fn place_documents(ids: &Vec<usize>, arena: &mut Arena<Document>, start: usize)
    requires
        start <= old(arena).items().len(),
        forall|i: int|
            start <= i < old(arena).items().len() ==> (
            (#[trigger] old(arena).items()[i]).package matches Some(id) ==> id
                < ids@.len()),
    ensures
        final(arena).items().len() <= usize::MAX,
        views(final(arena).items()) == documents_in_packages(
            views(old(arena).items()),
            start as int,
            ids@,
        ),
{
    let ghost before = arena.items();
    let n: usize = arena::count(arena);
    for i in start..n
        invariant
            n == before.len(),
            arena.items().len() == n,
            start <= n,
            forall|i: int|
                start <= i < n ==> ((#[trigger] before[i]).package matches Some(id) ==> id
                    < ids@.len()),
            forall|j: int| 0 <= j < start ==> #[trigger] arena.items()[j] == before[j],
            forall|j: int|
                start <= j < i ==> (#[trigger] arena.items()[j])@ == documents_in_packages(
                    views(before),
                    start as int,
                    ids@,
                )[j],
            forall|j: int| i <= j < n ==> #[trigger] arena.items()[j] == before[j],
    {
        let item = arena::item_mut(arena, i);
        assert(*item == before[i as int]);
        if let Some(id) = item.package {
            item.package = Some(ids[id]);
        }
    }
    assert(views(arena.items()) =~= documents_in_packages(views(before), start as int, ids@));
}

/// Makes documents part of a package.
pub(crate) fn assign_package(package: PackageId, arena: &mut Arena<Document>, start: usize)
    requires
        start <= old(arena).items().len(),
    ensures
        final(arena).items().len() <= usize::MAX,
        views(final(arena).items()) == documents_of_package(
            views(old(arena).items()),
            start as int,
            package,
        ),
{
    let ghost before = arena.items();
    let n: usize = arena::count(arena);
    for i in start..n
        invariant
            n == before.len(),
            arena.items().len() == n,
            start <= n,
            forall|j: int| 0 <= j < start ==> #[trigger] arena.items()[j] == before[j],
            forall|j: int|
                start <= j < i ==> (#[trigger] arena.items()[j])@ == documents_of_package(
                    views(before),
                    start as int,
                    package,
                )[j],
            forall|j: int| i <= j < n ==> #[trigger] arena.items()[j] == before[j],
    {
        let item = arena::item_mut(arena, i);
        assert(*item == before[i as int]);
        item.package = Some(package);
    }
    assert(views(arena.items()) =~= documents_of_package(views(before), start as int, package));
}

} // verus!
