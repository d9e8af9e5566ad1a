//! Merging of one resolve into another.
use id_arena::Arena;
use std::collections::HashMap;
use vstd::pervasive::runtime_assert;
use vstd::prelude::*;

use crate::arena::{self, Items};
use crate::error::{Error, ErrorView};
use crate::matching::{
    additions, additions_within, duplicate_error, first_duplicate, lemma_matched_within,
    listed_once, matched, Addition, MergeMap, NewItem, Plan, Stop,
};
use crate::merge_laws::{
    lemma_none_added, lemma_union_len, lemma_with_documents_lists, lemma_with_interfaces_lists,
    lemma_with_worlds_lists, merging_keeps_valid,
};
use crate::moving::{
    documents_in_packages, interface_owner, interfaces_in_documents, lemma_moved, lemma_renumbered,
    moved, moved_documents, moved_interfaces, moved_types, moved_worlds, own_by_interfaces,
    own_by_worlds, owned_by_interfaces, owned_by_worlds, picked, place_documents, place_interfaces,
    place_worlds, renumbered, worlds_in_documents, Known,
};
use crate::names::{self, find, put};
use crate::remap::{ids_within, mapped_ids, update_ids, Remap, RemapView};
use crate::resolve::{Resolve, ResolveView};
use crate::types::{
    views, Document, DocumentId, DocumentView, InterfaceId, Package, PackageId, PackageView, TypeId,
    TypeOwner, WorldId,
};

verus! {

/// The new id of everything in a resolve that is merged into another one: items that are there
/// already keep their place, and the others go behind those that are there.
pub open spec fn merged_map(into: ResolveView, from: ResolveView, plan: Plan) -> RemapView {
    RemapView {
        types: renumbered(into.types.len(), plan.types, 0, from.types.len() as int),
        interfaces: renumbered(
            into.interfaces.len(),
            plan.interfaces,
            0,
            from.interfaces.len() as int,
        ),
        worlds: renumbered(into.worlds.len(), plan.worlds, 0, from.worlds.len() as int),
        documents: renumbered(
            into.documents.len(),
            plan.documents,
            0,
            from.documents.len() as int,
        ),
        packages: renumbered(into.packages.len(), plan.packages, 0, from.packages.len() as int),
    }
}

pub open spec fn moved_package(ids: Seq<DocumentId>, package: PackageView) -> PackageView {
    PackageView { documents: mapped_ids(ids, package.documents), ..package }
}

pub open spec fn moved_packages(ids: Seq<DocumentId>, packages: Seq<PackageView>) -> Seq<
    PackageView,
> {
    Seq::new(packages.len(), |i: int| moved_package(ids, packages[i]))
}

/// The packages with the first `n` of some documents listed in them.
pub open spec fn with_documents(
    packages: Seq<PackageView>,
    ids: Seq<DocumentId>,
    new: Seq<Addition>,
    n: nat,
) -> Seq<PackageView>
    decreases n,
{
    if n == 0 {
        packages
    } else {
        let before = with_documents(packages, ids, new, (n - 1) as nat);
        let (name, target, id) = new[n - 1];
        before.update(
            target as int,
            PackageView {
                documents: put(before[target as int].documents, name, ids[id as int]),
                ..before[target as int]
            },
        )
    }
}

/// The documents with the first `n` of some interfaces listed in them.
pub open spec fn with_interfaces(
    documents: Seq<DocumentView>,
    ids: Seq<InterfaceId>,
    new: Seq<Addition>,
    n: nat,
) -> Seq<DocumentView>
    decreases n,
{
    if n == 0 {
        documents
    } else {
        let before = with_interfaces(documents, ids, new, (n - 1) as nat);
        let (name, target, id) = new[n - 1];
        before.update(
            target as int,
            DocumentView {
                interfaces: put(before[target as int].interfaces, name, ids[id as int]),
                ..before[target as int]
            },
        )
    }
}

/// The documents with the first `n` of some worlds listed in them.
pub open spec fn with_worlds(
    documents: Seq<DocumentView>,
    ids: Seq<WorldId>,
    new: Seq<Addition>,
    n: nat,
) -> Seq<DocumentView>
    decreases n,
{
    if n == 0 {
        documents
    } else {
        let before = with_worlds(documents, ids, new, (n - 1) as nat);
        let (name, target, id) = new[n - 1];
        before.update(
            target as int,
            DocumentView {
                worlds: put(before[target as int].worlds, name, ids[id as int]),
                ..before[target as int]
            },
        )
    }
}

/// A resolve once the items of another one that it does not have are in its arenas, and refer to
/// each other and to what was there before.
pub open spec fn joined(into: ResolveView, from: ResolveView, plan: Plan) -> ResolveView {
    let map = merged_map(into, from, plan);
    ResolveView {
        types: owned_by_worlds(
            owned_by_interfaces(
                into.types + moved_types(
                    map.types,
                    picked(from.types, moved(plan.types, 0, from.types.len() as int)),
                ),
                into.types.len() as int,
                map.interfaces,
            ),
            into.types.len() as int,
            map.worlds,
        ),
        interfaces: interfaces_in_documents(
            into.interfaces + moved_interfaces(
                map.types,
                picked(from.interfaces, moved(plan.interfaces, 0, from.interfaces.len() as int)),
            ),
            into.interfaces.len() as int,
            map.documents,
        ),
        worlds: worlds_in_documents(
            into.worlds + moved_worlds(
                map.item_map(),
                picked(from.worlds, moved(plan.worlds, 0, from.worlds.len() as int)),
            ),
            into.worlds.len() as int,
            map.documents,
        ),
        documents: documents_in_packages(
            into.documents + moved_documents(
                map.interfaces,
                map.worlds,
                picked(from.documents, moved(plan.documents, 0, from.documents.len() as int)),
            ),
            into.documents.len() as int,
            map.packages,
        ),
        packages: into.packages + moved_packages(
            map.documents,
            picked(from.packages, moved(plan.packages, 0, from.packages.len() as int)),
        ),
    }
}

/// A resolve once another one is merged into it: what was missing in packages and documents that
/// both have is listed there as well.
pub open spec fn unioned(into: ResolveView, from: ResolveView, plan: Plan) -> ResolveView {
    let map = merged_map(into, from, plan);
    let joined = joined(into, from, plan);
    ResolveView {
        documents: with_worlds(
            with_interfaces(
                joined.documents,
                map.interfaces,
                plan.new_interfaces,
                plan.new_interfaces.len(),
            ),
            map.worlds,
            plan.new_worlds,
            plan.new_worlds.len(),
        ),
        packages: with_documents(
            joined.packages,
            map.documents,
            plan.new_documents,
            plan.new_documents.len(),
        ),
        ..joined
    }
}

/// What merging one resolve into another makes of the latter, and what it returns. If the two
/// disagree then nothing changes.
pub open spec fn merged(into: ResolveView, from: ResolveView) -> (
    ResolveView,
    Result<RemapView, ErrorView>,
) {
    match first_duplicate(into.packages, into.packages.len()) {
        Some(i) => (into, Err(duplicate_error(into.packages[i]))),
        None => match matched(from, into) {
            Ok(plan) => (unioned(into, from, plan), Ok(merged_map(into, from, plan))),
            Err(Stop::Differs(error)) => (into, Err(error)),
            Err(Stop::Repeated) => (into, arbitrary()),
        },
    }
}

/// Two resolves can be merged: no item is matched twice, and if what is in both agrees then nothing
/// in `from` is left dangling and no item is listed twice.
pub open spec fn can_merge(into: ResolveView, from: ResolveView) -> bool {
    &&& into.usable()
    &&& from.usable()
    &&& first_duplicate(into.packages, into.packages.len()).is_none() ==> match matched(
        from,
        into,
    ) {
        Ok(plan) => from.valid() && plan.lists_once(),
        Err(stop) => stop != Stop::Repeated,
    }
}

impl Remap {
    /// Moves packages, but for those that are known, after the documents.
    fn move_packages(
        &mut self,
        arena: &mut Arena<Package>,
        items: Vec<Package>,
        known: &HashMap<PackageId, PackageId>,
    )
        requires
            old(self).packages@.len() == 0,
            old(arena).items().len() <= usize::MAX,
            forall|k: int|
                0 <= k < items@.len() ==> ids_within(
                    (#[trigger] items@[k])@.documents,
                    old(self).documents@.len(),
                ),
        ensures
            final(arena).items().len() <= usize::MAX,
            final(self).types == old(self).types,
            final(self).interfaces == old(self).interfaces,
            final(self).worlds == old(self).worlds,
            final(self).documents == old(self).documents,
            final(self).packages@ == renumbered(
                old(arena).items().len(),
                known@,
                0,
                items@.len() as int,
            ),
            views(final(arena).items()) == views(old(arena).items()) + moved_packages(
                old(self).documents@,
                picked(views(items@), moved(known@, 0, items@.len() as int)),
            ),
    {
        broadcast use vstd::std_specs::hash::group_hash_axioms;

        let ghost target = views(arena.items());
        let ghost base = arena.items().len();
        let ghost all = items@;
        let ghost docs = self.documents@;
        assert(views(arena.items()) =~= target + moved_packages(
            docs,
            picked(views(all), moved(known@, 0, 0)),
        ));
        let n: usize = items.len();
        let mut k: usize = 0;
        for item in it: items
            invariant
                it.seq() == all,
                n == all.len(),
                k == it.index(),
                base == target.len(),
                arena.items().len() <= usize::MAX,
                docs == self.documents@,
                forall|k: int|
                    0 <= k < all.len() ==> ids_within((#[trigger] all[k])@.documents, docs.len()),
                self.types == old(self).types,
                self.interfaces == old(self).interfaces,
                self.worlds == old(self).worlds,
                self.documents == old(self).documents,
                self.packages@ == renumbered(base, known@, 0, k as int),
                views(arena.items()) == target + moved_packages(
                    docs,
                    picked(views(all), moved(known@, 0, k as int)),
                ),
        {
            assert(item == all[k as int]);
            match known.get(&k) {
                Some(id) => self.packages.push(*id),
                None => {
                    let mut item = item;
                    update_ids(&self.documents, &mut item.documents);
                    let ghost positions = moved(known@, 0, k as int);
                    let ghost arena_before = arena.items();
                    let id: usize = arena::add_item(arena, item);
                    proof {
                        assert(views(arena.items()) =~= views(arena_before).push(item@));
                        assert(picked(views(all), positions.push(k as int)) =~= picked(
                            views(all),
                            positions,
                        ).push(views(all)[k as int]));
                        assert(moved_packages(
                            docs,
                            picked(views(all), positions).push(views(all)[k as int]),
                        ) =~= moved_packages(docs, picked(views(all), positions)).push(item@));
                        assert(views(arena.items()) =~= target + moved_packages(
                            docs,
                            picked(views(all), positions.push(k as int)),
                        ));
                    }
                    self.packages.push(id);
                },
            }
            k = k + 1;
        }
    }
}

/// Lists documents in the packages that they belong to.
fn add_documents(ids: &Vec<DocumentId>, arena: &mut Arena<Package>, new: Vec<NewItem>)
    requires
        additions_within(additions(new@), old(arena).items().len(), ids@.len()),
        listed_once(additions(new@)),
        forall|i: int|
            0 <= i < new@.len() ==> find(
                views(old(arena).items())[(#[trigger] additions(new@)[i]).1 as int].documents,
                additions(new@)[i].0,
            ).is_none(),
    ensures
        views(final(arena).items()) == with_documents(
            views(old(arena).items()),
            ids@,
            additions(new@),
            new@.len(),
        ),
{
    let ghost before = views(arena.items());
    let ghost all = new@;
    let n: usize = new.len();
    let mut k: usize = 0;
    for item in it: new
        invariant
            it.seq() == all,
            n == all.len(),
            k == it.index(),
            arena.items().len() == before.len(),
            additions_within(additions(all), before.len(), ids@.len()),
            listed_once(additions(all)),
            forall|i: int|
                0 <= i < all.len() ==> find(
                    before[(#[trigger] additions(all)[i]).1 as int].documents,
                    additions(all)[i].0,
                ).is_none(),
            views(arena.items()) == with_documents(before, ids@, additions(all), k as nat),
    {
        assert(additions(all)[k as int] == (item.0@, item.1, item.2));
        let ghost items = arena.items();
        let package = arena::item_mut(arena, item.1);
        assert(package@ == views(items)[item.1 as int]);
        proof {
            lemma_with_documents_lists(before, ids@, additions(all), k as nat, item.1 as int);
            lemma_none_added(before[item.1 as int].documents, additions(all), ids@, k as nat);
        }
        let prev = names::insert(&mut package.documents, item.0, ids[item.2]);
        runtime_assert(prev.is_none());
        assert(views(arena.items()) =~= with_documents(
            before,
            ids@,
            additions(all),
            (k + 1) as nat,
        ));
        k = k + 1;
    }
}

/// Lists interfaces in the documents that they belong to.
fn add_interfaces(ids: &Vec<InterfaceId>, arena: &mut Arena<Document>, new: Vec<NewItem>)
    requires
        additions_within(additions(new@), old(arena).items().len(), ids@.len()),
        listed_once(additions(new@)),
        forall|i: int|
            0 <= i < new@.len() ==> find(
                views(old(arena).items())[(#[trigger] additions(new@)[i]).1 as int].interfaces,
                additions(new@)[i].0,
            ).is_none(),
    ensures
        views(final(arena).items()) == with_interfaces(
            views(old(arena).items()),
            ids@,
            additions(new@),
            new@.len(),
        ),
{
    let ghost before = views(arena.items());
    let ghost all = new@;
    let n: usize = new.len();
    let mut k: usize = 0;
    for item in it: new
        invariant
            it.seq() == all,
            n == all.len(),
            k == it.index(),
            arena.items().len() == before.len(),
            additions_within(additions(all), before.len(), ids@.len()),
            listed_once(additions(all)),
            forall|i: int|
                0 <= i < all.len() ==> find(
                    before[(#[trigger] additions(all)[i]).1 as int].interfaces,
                    additions(all)[i].0,
                ).is_none(),
            views(arena.items()) == with_interfaces(before, ids@, additions(all), k as nat),
    {
        assert(additions(all)[k as int] == (item.0@, item.1, item.2));
        let ghost items = arena.items();
        let doc = arena::item_mut(arena, item.1);
        assert(doc@ == views(items)[item.1 as int]);
        proof {
            lemma_with_interfaces_lists(before, ids@, additions(all), k as nat, item.1 as int);
            lemma_none_added(before[item.1 as int].interfaces, additions(all), ids@, k as nat);
        }
        let prev = names::insert(&mut doc.interfaces, item.0, ids[item.2]);
        runtime_assert(prev.is_none());
        assert(views(arena.items()) =~= with_interfaces(
            before,
            ids@,
            additions(all),
            (k + 1) as nat,
        ));
        k = k + 1;
    }
}

/// Lists worlds in the documents that they belong to.
fn add_worlds(ids: &Vec<WorldId>, arena: &mut Arena<Document>, new: Vec<NewItem>)
    requires
        additions_within(additions(new@), old(arena).items().len(), ids@.len()),
        listed_once(additions(new@)),
        forall|i: int|
            0 <= i < new@.len() ==> find(
                views(old(arena).items())[(#[trigger] additions(new@)[i]).1 as int].worlds,
                additions(new@)[i].0,
            ).is_none(),
    ensures
        views(final(arena).items()) == with_worlds(
            views(old(arena).items()),
            ids@,
            additions(new@),
            new@.len(),
        ),
{
    let ghost before = views(arena.items());
    let ghost all = new@;
    let n: usize = new.len();
    let mut k: usize = 0;
    for item in it: new
        invariant
            it.seq() == all,
            n == all.len(),
            k == it.index(),
            arena.items().len() == before.len(),
            additions_within(additions(all), before.len(), ids@.len()),
            listed_once(additions(all)),
            forall|i: int|
                0 <= i < all.len() ==> find(
                    before[(#[trigger] additions(all)[i]).1 as int].worlds,
                    additions(all)[i].0,
                ).is_none(),
            views(arena.items()) == with_worlds(before, ids@, additions(all), k as nat),
    {
        assert(additions(all)[k as int] == (item.0@, item.1, item.2));
        let ghost items = arena.items();
        let doc = arena::item_mut(arena, item.1);
        assert(doc@ == views(items)[item.1 as int]);
        proof {
            lemma_with_worlds_lists(before, ids@, additions(all), k as nat, item.1 as int);
            lemma_none_added(before[item.1 as int].worlds, additions(all), ids@, k as nat);
        }
        let prev = names::insert(&mut doc.worlds, item.0, ids[item.2]);
        runtime_assert(prev.is_none());
        assert(views(arena.items()) =~= with_worlds(before, ids@, additions(all), (k + 1) as nat));
        k = k + 1;
    }
}

/// The items that move are among all of them.
proof fn lemma_picked<T>(items: Seq<T>, known: Known)
    ensures
        moved(known, 0, items.len() as int).len() <= items.len(),
        forall|j: int|
            0 <= j < moved(known, 0, items.len() as int).len() ==> 0 <= #[trigger] moved(
                known,
                0,
                items.len() as int,
            )[j] < items.len() && picked(items, moved(known, 0, items.len() as int))[j]
                == items[moved(known, 0, items.len() as int)[j]],
{
    lemma_moved(known, 0, items.len() as int);
}

impl Resolve {
    /// Moves over the items of another resolve that are not matched with one of this resolve.
    ///
    /// When adding an item to an arena all identifiers in it are additionally updated from pointers
    /// within `resolve` to becoming pointers within `self`. The "parent" links of the items that
    /// were moved come last, once all new identifiers are known.
    fn join(
        &mut self,
        resolve: Resolve,
        type_map: &HashMap<TypeId, TypeId>,
        interface_map: &HashMap<InterfaceId, InterfaceId>,
        world_map: &HashMap<WorldId, WorldId>,
        doc_map: &HashMap<DocumentId, DocumentId>,
        package_map: &HashMap<PackageId, PackageId>,
        Ghost(plan): Ghost<Plan>,
    ) -> (remap: Remap)
        requires
            old(self)@.usable(),
            resolve@.valid(),
            type_map@ == plan.types,
            interface_map@ == plan.interfaces,
            world_map@ == plan.worlds,
            doc_map@ == plan.documents,
            package_map@ == plan.packages,
        ensures
            remap@ == merged_map(old(self)@, resolve@, plan),
            final(self)@ == joined(old(self)@, resolve@, plan),
            final(self)@.fits(),
    {
        let ghost into = self@;
        let ghost from = resolve@;
        let ghost map = merged_map(into, from, plan);
        let first_type: usize = arena::count(&self.types);
        let first_interface: usize = arena::count(&self.interfaces);
        let first_world: usize = arena::count(&self.worlds);
        let first_document: usize = arena::count(&self.documents);
        let types = arena::into_items(resolve.types);
        let interfaces = arena::into_items(resolve.interfaces);
        let worlds = arena::into_items(resolve.worlds);
        let documents = arena::into_items(resolve.documents);
        let packages = arena::into_items(resolve.packages);
        let mut remap = Remap::new();
        proof {
            lemma_renumbered(first_type as nat, plan.types, 0, 0, from.types.len() as int);
            lemma_renumbered(
                first_interface as nat,
                plan.interfaces,
                0,
                0,
                from.interfaces.len() as int,
            );
            lemma_renumbered(first_world as nat, plan.worlds, 0, 0, from.worlds.len() as int);
            lemma_renumbered(
                first_document as nat,
                plan.documents,
                0,
                0,
                from.documents.len() as int,
            );
            lemma_renumbered(
                into.packages.len(),
                plan.packages,
                0,
                0,
                from.packages.len() as int,
            );
            lemma_picked(from.types, plan.types);
            lemma_picked(from.interfaces, plan.interfaces);
            lemma_picked(from.worlds, plan.worlds);
            lemma_picked(from.documents, plan.documents);
            assert forall|k: int| 0 <= k < types@.len() implies (#[trigger] types@[k]).kind@
                == from.types[k].kind && from.type_valid(k) by {
                assert(views(types@)[k] == from.types[k]);
            }
        }
        remap.move_types(&mut self.types, types, type_map);
        assert(remap.types@ =~= map.types);
        proof {
            assert forall|k: int| 0 <= k < interfaces@.len() implies (
            #[trigger] interfaces@[k])@ == from.interfaces[k] && from.interface_valid(k) by {
                assert(views(interfaces@)[k] == from.interfaces[k]);
            }
        }
        remap.move_interfaces(&mut self.interfaces, interfaces, interface_map);
        assert(remap.interfaces@ =~= map.interfaces);
        proof {
            assert forall|k: int| 0 <= k < worlds@.len() implies (#[trigger] worlds@[k])@
                == from.worlds[k] && from.world_valid(k) by {
                assert(views(worlds@)[k] == from.worlds[k]);
            }
        }
        remap.move_worlds(&mut self.worlds, worlds, world_map);
        assert(remap.worlds@ =~= map.worlds);
        proof {
            assert forall|k: int| 0 <= k < documents@.len() implies (#[trigger] documents@[k])@
                == from.documents[k] && from.document_valid(k) by {
                assert(views(documents@)[k] == from.documents[k]);
            }
        }
        remap.move_documents(&mut self.documents, documents, doc_map);
        assert(remap.documents@ =~= map.documents);
        proof {
            assert forall|k: int| 0 <= k < packages@.len() implies (#[trigger] packages@[k])@
                == from.packages[k] && from.package_valid(k) by {
                assert(views(packages@)[k] == from.packages[k]);
            }
        }
        remap.move_packages(&mut self.packages, packages, package_map);
        assert(remap.packages@ =~= map.packages);
        proof {
            let positions = moved(plan.documents, 0, from.documents.len() as int);
            let moving = moved_documents(
                map.interfaces,
                map.worlds,
                picked(from.documents, positions),
            );
            assert(views(self.documents.items()) == into.documents + moving);
            assert(self.documents.items().len() == views(self.documents.items()).len());
            assert forall|i: int| first_document <= i < self.documents.items().len() implies ((
            #[trigger] self.documents.items()[i]).package matches Some(id) ==> id
                < remap.packages@.len()) by {
                let k = positions[i - first_document];
                assert(views(self.documents.items())[i] == moving[i - first_document]);
                assert(views(self.documents.items())[i].package == from.documents[k].package);
                assert(from.document_valid(k));
            }
        }
        place_documents(&remap.packages, &mut self.documents, first_document);
        proof {
            let positions = moved(plan.worlds, 0, from.worlds.len() as int);
            let moving = moved_worlds(map.item_map(), picked(from.worlds, positions));
            assert(views(self.worlds.items()) == into.worlds + moving);
            assert(self.worlds.items().len() == views(self.worlds.items()).len());
            assert forall|i: int| first_world <= i < self.worlds.items().len() implies (
            #[trigger] self.worlds.items()[i]).document < remap.documents@.len() by {
                let k = positions[i - first_world];
                assert(views(self.worlds.items())[i] == moving[i - first_world]);
                assert(views(self.worlds.items())[i].document == from.worlds[k].document);
                assert(from.world_valid(k));
            }
        }
        place_worlds(&remap.documents, &mut self.worlds, first_world);
        proof {
            let positions = moved(plan.interfaces, 0, from.interfaces.len() as int);
            let moving = moved_interfaces(map.types, picked(from.interfaces, positions));
            assert(views(self.interfaces.items()) == into.interfaces + moving);
            assert(self.interfaces.items().len() == views(self.interfaces.items()).len());
            assert forall|i: int| first_interface <= i < self.interfaces.items().len() implies (
            #[trigger] self.interfaces.items()[i]).document < remap.documents@.len() by {
                let k = positions[i - first_interface];
                assert(views(self.interfaces.items())[i] == moving[i - first_interface]);
                assert(views(self.interfaces.items())[i].document == from.interfaces[k].document);
                assert(from.interface_valid(k));
            }
        }
        place_interfaces(&remap.documents, &mut self.interfaces, first_interface);
        let ghost type_positions = moved(plan.types, 0, from.types.len() as int);
        let ghost moving = moved_types(map.types, picked(from.types, type_positions));
        proof {
            assert(views(self.types.items()) == into.types + moving);
            assert(self.types.items().len() == views(self.types.items()).len());
            assert forall|i: int| first_type <= i < self.types.items().len() implies ((
            #[trigger] self.types.items()[i]).owner matches TypeOwner::Interface(id) ==> id
                < remap.interfaces@.len()) by {
                let k = type_positions[i - first_type];
                assert(views(self.types.items())[i] == moving[i - first_type]);
                assert(views(self.types.items())[i].owner == from.types[k].owner);
                assert(from.type_valid(k));
            }
        }
        own_by_interfaces(&remap.interfaces, &mut self.types, first_type);
        proof {
            let before = into.types + moving;
            assert(self.types.items().len() == views(self.types.items()).len());
            assert forall|i: int| first_type <= i < self.types.items().len() implies ((
            #[trigger] self.types.items()[i]).owner matches TypeOwner::World(id) ==> id
                < remap.worlds@.len()) by {
                let k = type_positions[i - first_type];
                assert(before[i] == moving[i - first_type]);
                assert(views(self.types.items())[i].owner == interface_owner(
                    map.interfaces,
                    from.types[k].owner,
                ));
                assert(from.type_valid(k));
            }
        }
        own_by_worlds(&remap.worlds, &mut self.types, first_type);
        assert(remap@ =~= map);
        assert(self@ =~= joined(into, from, plan));
        assert(self@.fits());
        remap
    }

    /// Merges all the contents of a different `Resolve` into this one. The `Remap` structure
    /// returned provides a mapping from all old indices to new indices
    ///
    /// This operation can fail if `resolve` disagrees with `self` about the packages being
    /// inserted. Otherwise though this will additionally attempt to "union" packages found in
    /// `resolve` with those found in `self`. Unioning packages is keyed on the name/url of packages
    /// for those with URLs present. If found then it's assumed that both `Resolve` instances were
    /// originally created from the same contents and are two views of the same package.
    pub fn merge(&mut self, resolve: Resolve) -> (result: Result<Remap, Error>)
        requires
            can_merge(old(self)@, resolve@),
        ensures
            final(self)@ == merged(old(self)@, resolve@).0,
            match (result, merged(old(self)@, resolve@).1) {
                (Ok(remap), Ok(expected)) => remap@ == expected,
                (Err(error), Err(expected)) => error@ == expected,
                _ => false,
            },
            final(self)@.usable(),
            result.is_ok() && old(self)@.valid() ==> final(self)@.valid(),
    {
        let ghost into = self@;
        let ghost from = resolve@;
        let mut map = match MergeMap::new(&resolve, self) {
            Ok(map) => map,
            Err(error) => return Err(error),
        };
        if let Err(error) = map.build() {
            return Err(error);
        }
        let ghost plan = map@;
        let type_map = map.type_map;
        let interface_map = map.interface_map;
        let world_map = map.world_map;
        let doc_map = map.doc_map;
        let package_map = map.package_map;
        let documents_to_add = map.documents_to_add;
        let interfaces_to_add = map.interfaces_to_add;
        let worlds_to_add = map.worlds_to_add;
        proof {
            lemma_matched_within(from, into);
        }
        // With a set of maps from ids in `resolve` to ids in `self` the next operation is to start
        // moving over items and building a `Remap` to update ids.
        let remap = self.join(
            resolve,
            &type_map,
            &interface_map,
            &world_map,
            &doc_map,
            &package_map,
            Ghost(plan),
        );
        proof {
            let joined = joined(into, from, plan);
            assert(self.packages.items().len() == joined.packages.len());
            assert(self.documents.items().len() == joined.documents.len());
            lemma_renumbered(
                into.interfaces.len(),
                plan.interfaces,
                0,
                0,
                from.interfaces.len() as int,
            );
            lemma_renumbered(into.worlds.len(), plan.worlds, 0, 0, from.worlds.len() as int);
            lemma_renumbered(
                into.documents.len(),
                plan.documents,
                0,
                0,
                from.documents.len() as int,
            );
        }
        // And finally process documents that were present in `resolve` but were not present in
        // `self`. This is only done for merged packages as documents may be added to
        // `self.documents` but wouldn't otherwise be present in the `documents` field of the
        // corresponding package.
        add_documents(&remap.documents, &mut self.packages, documents_to_add);
        add_interfaces(&remap.interfaces, &mut self.documents, interfaces_to_add);
        assert(self.documents.items().len() == views(self.documents.items()).len());
        proof {
            let before = joined(into, from, plan).documents;
            let (new, others) = (plan.new_interfaces, plan.new_worlds);
            lemma_with_interfaces_len(before, remap.interfaces@, new, new.len());
            assert forall|i: int| 0 <= i < others.len() implies find(
                views(self.documents.items())[(#[trigger] others[i]).1 as int].worlds,
                others[i].0,
            ).is_none() by {
                let at = others[i].1 as int;
                lemma_with_interfaces_lists(before, remap.interfaces@, new, new.len(), at);
            }
        }
        add_worlds(&remap.worlds, &mut self.documents, worlds_to_add);
        assert(self@ =~= unioned(into, from, plan));
        proof {
            lemma_union_len(into, from, plan);
            merging_keeps_valid(into, from);
        }
        Ok(remap)
    }
}

/// Listing interfaces adds no documents.
pub proof fn lemma_with_interfaces_len(
    documents: Seq<DocumentView>,
    ids: Seq<InterfaceId>,
    new: Seq<Addition>,
    n: nat,
)
    requires
        n <= new.len(),
        forall|i: int| 0 <= i < new.len() ==> (#[trigger] new[i]).1 < documents.len(),
    ensures
        with_interfaces(documents, ids, new, n).len() == documents.len(),
    decreases n,
{
    if n > 0 {
        lemma_with_interfaces_len(documents, ids, new, (n - 1) as nat);
    }
}

} // verus!
