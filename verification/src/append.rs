//! Insertion of a package into a resolve.
use id_arena::Arena;
use indexmap::IndexMap;
use std::collections::HashMap;
use vstd::pervasive::runtime_assert;
use vstd::prelude::*;

use crate::arena::{self, Items};
use crate::elaborate::{below, elaborated, use_valid, uses_within, world_ready};
use crate::error::{outcome, Error, ErrorView};
use crate::link::{lemma_linked, linked, linkable, Deps};
use crate::moving::{
    assign_package, documents_of_package, fresh, interface_owner, interfaces_in_documents,
    lemma_nothing_known, moved, moved_documents, moved_interfaces, moved_types, own_by_interfaces,
    own_by_worlds, owned_by_interfaces, owned_by_worlds, picked, place_interfaces, place_worlds,
    worlds_in_documents,
};
use crate::names::{self, find, lemma_find, Entries};
use crate::package::{UnresolvedPackage, UnresolvedView};
use crate::remap::{mapped_ids, mapped_kind, Remap, RemapView};
use crate::resolve::{Resolve, ResolveView};
use crate::validity::pushing_keeps_valid;
use crate::types::{
    text, views, Document, DocumentId, Interface, KindView, Package, PackageId, PackageView, Span,
    Type, TypeDef, TypeId, TypeOwner, World, WorldView,
};

verus! {

/// The new id of everything in a package: items of other packages get the id that they are linked
/// to, and items of the package itself go behind those that are there.
pub open spec fn pushed_map(
    resolve: ResolveView,
    package: UnresolvedView,
    link: RemapView,
) -> RemapView {
    RemapView {
        types: link.types + fresh(
            resolve.types.len(),
            (package.types.len() - package.foreign_types()) as nat,
        ),
        interfaces: link.interfaces + fresh(
            resolve.interfaces.len(),
            (package.interfaces.len() - package.foreign_interfaces()) as nat,
        ),
        worlds: fresh(resolve.worlds.len(), package.worlds.len()),
        documents: link.documents + fresh(
            resolve.documents.len(),
            (package.documents.len() - package.foreign_documents()) as nat,
        ),
        packages: Seq::empty(),
    }
}

/// The resolve once the types and interfaces of a package are in it. Which worlds own types and
/// which documents define interfaces is not known yet.
pub open spec fn with_interfaces(
    resolve: ResolveView,
    package: UnresolvedView,
    map: RemapView,
) -> ResolveView {
    ResolveView {
        types: owned_by_interfaces(
            resolve.types + moved_types(
                map.types,
                package.types.skip(package.foreign_types()),
            ),
            resolve.types.len() as int,
            map.interfaces,
        ),
        interfaces: resolve.interfaces + moved_interfaces(
            map.types,
            package.interfaces.skip(package.foreign_interfaces()),
        ),
        ..resolve
    }
}

/// The first `n` worlds of a package, up to the first that cannot be elaborated, and what is wrong
/// with that one.
pub open spec fn elaborated_worlds(
    resolve: ResolveView,
    package: UnresolvedView,
    map: RemapView,
    n: nat,
) -> (Seq<WorldView>, Option<ErrorView>)
    decreases n,
{
    if n == 0 {
        (Seq::empty(), None)
    } else {
        match elaborated_worlds(resolve, package, map, (n - 1) as nat) {
            (worlds, Some(error)) => (worlds, Some(error)),
            (worlds, None) => match elaborated(
                map.item_map(),
                resolve.types,
                resolve.interfaces,
                package.worlds[n - 1],
                package.world_spans[n - 1].0,
                package.world_spans[n - 1].1,
            ) {
                Ok(world) => (worlds.push(world), None),
                Err(error) => (worlds, Some(error)),
            },
        }
    }
}

/// The documents of a package by name.
pub open spec fn package_documents(package: UnresolvedView, map: RemapView) -> Seq<
    (Seq<char>, DocumentId),
> {
    Seq::new(
        (package.documents.len() - package.foreign_documents()) as nat,
        |i: int|
            (
                package.documents[package.foreign_documents() + i].name,
                map.documents[package.foreign_documents() + i],
            ),
    )
}

/// The resolve once a package is in it. `start` is the resolve before anything was added, and
/// `resolve` the one with the types and interfaces of the package.
pub open spec fn with_package(
    start: ResolveView,
    resolve: ResolveView,
    package: UnresolvedView,
    map: RemapView,
    worlds: Seq<WorldView>,
) -> ResolveView {
    ResolveView {
        types: owned_by_worlds(resolve.types, start.types.len() as int, map.worlds),
        interfaces: interfaces_in_documents(
            resolve.interfaces,
            start.interfaces.len() as int,
            map.documents,
        ),
        worlds: worlds_in_documents(
            start.worlds + worlds,
            start.worlds.len() as int,
            map.documents,
        ),
        documents: documents_of_package(
            start.documents + moved_documents(
                map.interfaces,
                map.worlds,
                package.documents.skip(package.foreign_documents()),
            ),
            start.documents.len() as int,
            start.packages.len() as usize,
        ),
        packages: start.packages.push(
            PackageView {
                name: package.name,
                url: package.url,
                documents: package_documents(package, map),
            },
        ),
    }
}

/// What pushing a package makes of a resolve, and what it returns. A package whose references
/// cannot be linked leaves the resolve as it is. One with a world that cannot be elaborated leaves
/// its types, its interfaces and the worlds before that one behind.
#[verifier::opaque]
pub open spec fn pushed(resolve: ResolveView, package: UnresolvedView, deps: Deps) -> (
    ResolveView,
    Result<PackageId, ErrorView>,
) {
    match linked(resolve, package, deps) {
        Err(error) => (resolve, Err(error)),
        Ok(link) => {
            let map = pushed_map(resolve, package, link);
            let middle = with_interfaces(resolve, package, map);
            match elaborated_worlds(middle, package, map, package.worlds.len()) {
                (worlds, Some(error)) => (
                    ResolveView { worlds: resolve.worlds + worlds, ..middle },
                    Err(error),
                ),
                (worlds, None) => (
                    with_package(resolve, middle, package, map, worlds),
                    Ok(resolve.packages.len() as usize),
                ),
            }
        },
    }
}

/// A world of a package can be elaborated, once the types and interfaces of the package are there.
pub open spec fn can_elaborate(
    resolve: ResolveView,
    package: UnresolvedView,
    map: RemapView,
    i: int,
) -> bool {
    &&& package.world_spans[i].0.len() == package.worlds[i].imports.len()
    &&& package.world_spans[i].1.len() == package.worlds[i].exports.len()
    &&& world_ready(
        map.item_map(),
        resolve.types,
        resolve.interfaces,
        package.worlds[i],
        package.world_spans[i].0,
        package.world_spans[i].1,
    )
}

/// Every world of a package that is elaborated can be: those that follow on one that fails are not.
pub open spec fn can_elaborate_worlds(
    resolve: ResolveView,
    package: UnresolvedView,
    map: RemapView,
) -> bool {
    forall|i: int|
        0 <= i < package.worlds.len() && elaborated_worlds(
            resolve,
            package,
            map,
            i as nat,
        ).1.is_none() ==> #[trigger] can_elaborate(resolve, package, map, i)
}

/// A package can be pushed: its references can be linked. If that succeeds then its types and
/// interfaces can be moved and its worlds can be elaborated, and if that succeeds as well then
/// everything in the package is valid.
#[verifier::opaque]
pub open spec fn can_push(resolve: ResolveView, package: UnresolvedView, deps: Deps) -> bool {
    &&& resolve.usable()
    &&& linkable(resolve, package, deps)
    &&& linked(resolve, package, deps) matches Ok(link) ==> {
        let map = pushed_map(resolve, package, link);
        let middle = with_interfaces(resolve, package, map);
        &&& package.items_ready()
        &&& can_elaborate_worlds(middle, package, map)
        &&& elaborated_worlds(middle, package, map, package.worlds.len()).1.is_none()
            ==> package.valid()
    }
}

proof fn lemma_elaborated_worlds_stops(
    resolve: ResolveView,
    package: UnresolvedView,
    map: RemapView,
    m: nat,
    n: nat,
)
    requires
        m <= n,
    ensures
        elaborated_worlds(resolve, package, map, m).1.is_some() ==> elaborated_worlds(
            resolve,
            package,
            map,
            n,
        ) == elaborated_worlds(resolve, package, map, m),
    decreases n - m,
{
    if m < n {
        lemma_elaborated_worlds_stops(resolve, package, map, m, (n - 1) as nat);
    }
}

/// The worlds of a package that are elaborated can be.
pub proof fn lemma_can_elaborate(resolve: ResolveView, package: UnresolvedView, map: RemapView)
    requires
        can_elaborate_worlds(resolve, package, map),
    ensures
        forall|i: int|
            0 <= i < elaborated_worlds(resolve, package, map, package.worlds.len()).0.len()
                ==> #[trigger] can_elaborate(resolve, package, map, i),
{
    let n = package.worlds.len();
    lemma_elaborated_worlds(resolve, package, map, n);
    assert forall|i: int|
        0 <= i < elaborated_worlds(resolve, package, map, n).0.len() implies #[trigger] can_elaborate(
        resolve,
        package,
        map,
        i,
    ) by {
        lemma_elaborated_worlds(resolve, package, map, i as nat);
        lemma_elaborated_worlds_stops(resolve, package, map, i as nat, n);
    }
}

/// Elaboration keeps the name and the document of a world.
pub proof fn lemma_elaborated_worlds(
    resolve: ResolveView,
    package: UnresolvedView,
    map: RemapView,
    n: nat,
)
    ensures
        elaborated_worlds(resolve, package, map, n).0.len() <= n,
        elaborated_worlds(resolve, package, map, n).1.is_none() ==> elaborated_worlds(
            resolve,
            package,
            map,
            n,
        ).0.len() == n,
        forall|i: int|
            0 <= i < elaborated_worlds(resolve, package, map, n).0.len() ==> (
            #[trigger] elaborated_worlds(resolve, package, map, n).0[i]).document
                == package.worlds[i].document && elaborated_worlds(
                resolve,
                package,
                map,
                n,
            ).0[i].name == package.worlds[i].name && elaborated(
                map.item_map(),
                resolve.types,
                resolve.interfaces,
                package.worlds[i],
                package.world_spans[i].0,
                package.world_spans[i].1,
            ) == Ok::<WorldView, ErrorView>(elaborated_worlds(resolve, package, map, n).0[i]),
    decreases n,
{
    if n > 0 {
        lemma_elaborated_worlds(resolve, package, map, (n - 1) as nat);
    }
}

/// What interfaces use is there once the types and interfaces of a package are in a resolve.
pub proof fn lemma_middle_uses(resolve: ResolveView, package: UnresolvedView, link: RemapView)
    requires
        resolve.usable(),
        package.items_ready(),
        link.types.len() == package.foreign_types(),
        link.interfaces.len() == package.foreign_interfaces(),
        below(link.types, resolve.types.len()),
        below(link.interfaces, resolve.interfaces.len()),
        with_interfaces(resolve, package, pushed_map(resolve, package, link)).fits(),
    ensures
        ({
            let middle = with_interfaces(resolve, package, pushed_map(resolve, package, link));
            uses_within(middle.types, middle.interfaces)
        }),
{
    let map = pushed_map(resolve, package, link);
    let middle = with_interfaces(resolve, package, map);
    let base = resolve.interfaces.len();
    assert forall|t: TypeId| t < middle.types.len() implies #[trigger] use_valid(
        middle.types,
        middle.interfaces,
        t,
    ) by {
        if let KindView::Type(Type::Id(other)) = middle.types[t as int].kind {
            assert(other < middle.types.len()) by {
                if t < resolve.types.len() {
                    assert(resolve.type_usable(t as int));
                } else {
                    let k = package.foreign_types() + (t - resolve.types.len());
                    assert(package.type_ready(k));
                    assert(middle.types[t as int].kind == mapped_kind(
                        map.types,
                        package.types[k].kind,
                    ));
                    let x = package.types[k].kind->Type_0->Id_0;
                    if x < link.types.len() {
                        assert(link.types[x as int] < resolve.types.len());
                    }
                }
            }
            if other < resolve.types.len() {
                assert(resolve.type_usable(other as int));
            } else {
                let k = package.foreign_types() + (other - resolve.types.len());
                assert(package.type_ready(k));
                if let TypeOwner::Interface(id) = package.types[k].owner {
                    if id < link.interfaces.len() {
                        assert(link.interfaces[id as int] < base);
                    }
                }
            }
        }
    }
    assert forall|i: int, j: int|
        #![trigger middle.interfaces[i].types[j]]
        0 <= i < middle.interfaces.len() && 0 <= j
            < middle.interfaces[i].types.len() implies use_valid(
        middle.types,
        middle.interfaces,
        middle.interfaces[i].types[j].1,
    ) by {
        if i < base {
            assert(resolve.interface_usable(i));
            assert(resolve.interfaces[i].types[j].1 < resolve.types.len());
        } else {
            let k = package.foreign_interfaces() + (i - base);
            assert(package.interface_ready(k));
            assert(middle.interfaces[i].types == mapped_ids(
                map.types,
                package.interfaces[k].types,
            ));
            let t = package.interfaces[k].types[j].1;
            assert(t < package.types.len());
            if t < link.types.len() {
                assert(link.types[t as int] < resolve.types.len());
            }
        }
    }
}

/// Where nothing is known in advance, the items that move are those from `start` on.
proof fn lemma_picked_all<T>(items: Seq<T>, start: int)
    requires
        0 <= start <= items.len(),
    ensures
        picked(items, moved(Map::empty(), start, items.len() as int)) == items.skip(start),
{
    lemma_nothing_known(0, start, items.len() as int);
    assert(picked(items, moved(Map::empty(), start, items.len() as int)) =~= items.skip(start));
}

impl Remap {
    /// Moves the types and interfaces of a package behind those of a resolve.
    fn append_interfaces(
        &mut self,
        resolve: &mut Resolve,
        types: Vec<TypeDef>,
        interfaces: Vec<Interface>,
        Ghost(package): Ghost<UnresolvedView>,
        Ghost(link): Ghost<RemapView>,
    )
        requires
            old(self)@ == link,
            old(resolve)@.usable(),
            package.items_ready(),
            views(types@) == package.types,
            views(interfaces@) == package.interfaces,
            link.types.len() == package.foreign_types(),
            link.interfaces.len() == package.foreign_interfaces(),
        ensures
            final(resolve)@ == with_interfaces(
                old(resolve)@,
                package,
                pushed_map(old(resolve)@, package, link),
            ),
            final(resolve)@.fits(),
            final(self)@ == (RemapView {
                types: pushed_map(old(resolve)@, package, link).types,
                interfaces: pushed_map(old(resolve)@, package, link).interfaces,
                ..link
            }),
    {
        broadcast use vstd::std_specs::hash::group_hash_axioms;

        let ghost before = resolve@;
        let ghost map = pushed_map(before, package, link);
        let none: HashMap<usize, usize> = HashMap::new();
        let start: usize = arena::count(&resolve.types);
        proof {
            assert(none@ =~= Map::empty());
            assert forall|k: int| package.foreign_types() <= k < types@.len() implies (
            #[trigger] types@[k]).kind@ == package.types[k].kind && package.type_ready(k) by {
                assert(views(types@)[k] == package.types[k]);
            }
            assert forall|k: int| package.foreign_interfaces() <= k < interfaces@.len() implies (
            #[trigger] interfaces@[k])@ == package.interfaces[k] && package.interface_ready(k) by {
                assert(views(interfaces@)[k] == package.interfaces[k]);
            }
            lemma_nothing_known(
                before.types.len(),
                package.foreign_types(),
                package.types.len() as int,
            );
            lemma_nothing_known(
                before.interfaces.len(),
                package.foreign_interfaces(),
                package.interfaces.len() as int,
            );
            lemma_picked_all(package.types, package.foreign_types());
            lemma_picked_all(package.interfaces, package.foreign_interfaces());
        }
        self.move_types(&mut resolve.types, types, &none);
        assert(self.types@ == map.types);
        self.move_interfaces(&mut resolve.interfaces, interfaces, &none);
        assert(self.interfaces@ == map.interfaces);
        proof {
            let local = package.types.skip(package.foreign_types());
            assert(views(resolve.types.items()) == before.types + moved_types(map.types, local));
            assert(resolve.types.items().len() == views(resolve.types.items()).len());
            assert forall|i: int| start <= i < resolve.types.items().len() implies ((
            #[trigger] resolve.types.items()[i]).owner matches TypeOwner::Interface(
                id,
            ) ==> id < self.interfaces@.len()) by {
                let k = package.foreign_types() + (i - start);
                assert(views(resolve.types.items())[i] == moved_types(map.types, local)[i - start]);
                assert(local[i - start] == package.types[k]);
                assert(views(resolve.types.items())[i].owner == package.types[k].owner);
                assert(package.type_ready(k));
            }
        }
        own_by_interfaces(&self.interfaces, &mut resolve.types, start);
        assert(resolve@ =~= with_interfaces(before, package, map));
        assert(resolve@.types.len() == resolve.types.items().len());
        assert(resolve@.interfaces.len() == resolve.interfaces.items().len());
    }

    /// Elaborates the worlds of a package and moves them behind those of a resolve.
    fn append_worlds(
        &mut self,
        resolve: &mut Resolve,
        worlds: Vec<World>,
        spans: Vec<(Vec<Span>, Vec<Span>)>,
        Ghost(package): Ghost<UnresolvedView>,
        Ghost(map): Ghost<RemapView>,
    ) -> (result: Result<(), Error>)
        requires
            package.world_spans.len() == package.worlds.len(),
            views(worlds@) == package.worlds,
            spans@.len() == package.world_spans.len(),
            forall|i: int|
                0 <= i < spans@.len() ==> (#[trigger] spans@[i]).0@ == package.world_spans[i].0
                    && spans@[i].1@ == package.world_spans[i].1,
            old(self).worlds@.len() == 0,
            old(self)@.item_map() == map.item_map(),
            map.worlds == fresh(old(resolve)@.worlds.len(), package.worlds.len()),
            below(map.interfaces, old(resolve)@.interfaces.len()),
            below(map.types, old(resolve)@.types.len()),
            old(resolve)@.fits(),
            uses_within(old(resolve)@.types, old(resolve)@.interfaces),
            can_elaborate_worlds(old(resolve)@, package, map),
        ensures
            final(self).types == old(self).types,
            final(self).interfaces == old(self).interfaces,
            final(self).documents == old(self).documents,
            final(self).packages == old(self).packages,
            final(resolve)@ == (ResolveView {
                worlds: old(resolve)@.worlds + elaborated_worlds(
                    old(resolve)@,
                    package,
                    map,
                    package.worlds.len(),
                ).0,
                ..old(resolve)@
            }),
            final(resolve)@.worlds.len() <= usize::MAX,
            match (result, elaborated_worlds(
                old(resolve)@,
                package,
                map,
                package.worlds.len(),
            ).1) {
                (Ok(_), None) => final(self).worlds@ == map.worlds,
                (Err(error), Some(expected)) => error@ == expected,
                _ => false,
            },
    {
        let ghost before = resolve@;
        let ghost all = worlds@;
        let n: usize = worlds.len();
        runtime_assert(n == spans.len());
        let mut k: usize = 0;
        assert(resolve@.worlds =~= before.worlds + elaborated_worlds(before, package, map, 0).0);
        assert(resolve@ =~= ResolveView {
            worlds: before.worlds + elaborated_worlds(before, package, map, 0).0,
            ..before
        });
        assert(self.worlds@ =~= map.worlds.take(0));
        for world in it: worlds
            invariant
                it.seq() == all,
                n == all.len(),
                k == it.index(),
                package.world_spans.len() == package.worlds.len(),
                views(all) == package.worlds,
                spans@.len() == package.world_spans.len(),
                forall|i: int|
                    0 <= i < spans@.len() ==> (#[trigger] spans@[i]).0@ == package.world_spans[i].0
                        && spans@[i].1@ == package.world_spans[i].1,
                self@.item_map() == map.item_map(),
                map.worlds == fresh(before.worlds.len(), package.worlds.len()),
                below(map.interfaces, before.interfaces.len()),
                below(map.types, before.types.len()),
                uses_within(before.types, before.interfaces),
                can_elaborate_worlds(before, package, map),
                before == old(resolve)@,
                self.types == old(self).types,
                self.interfaces == old(self).interfaces,
                self.documents == old(self).documents,
                self.packages == old(self).packages,
                elaborated_worlds(before, package, map, k as nat).1.is_none(),
                resolve@.worlds.len() <= usize::MAX,
                resolve@ == (ResolveView {
                    worlds: before.worlds + elaborated_worlds(before, package, map, k as nat).0,
                    ..before
                }),
                self.worlds@ == map.worlds.take(k as int),
        {
            assert(world == all[k as int]);
            assert(views(all)[k as int] == package.worlds[k as int]);
            assert(can_elaborate(before, package, map, k as int));
            proof {
                lemma_elaborated_worlds(before, package, map, k as nat);
                lemma_elaborated_worlds_stops(
                    before,
                    package,
                    map,
                    (k + 1) as nat,
                    package.worlds.len(),
                );
            }
            let ghost so_far = elaborated_worlds(before, package, map, k as nat).0;
            match self.update_world(world, resolve, &spans[k].0, &spans[k].1) {
                Err(error) => {
                    return Err(error);
                },
                Ok(world) => {
                    let ghost items = resolve.worlds.items();
                    let id: usize = arena::add_item(&mut resolve.worlds, world);
                    proof {
                        assert(views(resolve.worlds.items()) =~= views(items).push(world@));
                        assert(resolve@.worlds =~= before.worlds + so_far.push(world@));
                        assert(map.worlds.take(k + 1) =~= map.worlds.take(k as int).push(id));
                    }
                    self.worlds.push(id);
                },
            }
            k = k + 1;
        }
        assert(map.worlds.take(k as int) =~= map.worlds);
        Ok(())
    }
}

/// Lists the documents from `start` on by name.
fn documents_by_name(documents: &Arena<Document>, start: usize) -> (by_name: IndexMap<
    String,
    DocumentId,
>)
    requires
        start <= documents.items().len(),
        forall|i: int, j: int|
            #![trigger documents.items()[i], documents.items()[j]]
            start <= i < j < documents.items().len() ==> documents.items()[i].name@
                != documents.items()[j].name@,
    ensures
        by_name.entries() == Seq::new(
            (documents.items().len() - start) as nat,
            |i: int| (documents.items()[start + i].name@, (start + i) as usize),
        ),
{
    let mut by_name = names::new_ids();
    let ghost all = Seq::new(
        (documents.items().len() - start) as nat,
        |i: int| (documents.items()[start + i].name@, (start + i) as usize),
    );
    let n: usize = arena::count(documents);
    assert(by_name.entries() =~= all.take(0));
    for id in start..n
        invariant
            n == documents.items().len(),
            start <= n,
            all == Seq::new(
                (documents.items().len() - start) as nat,
                |i: int| (documents.items()[start + i].name@, (start + i) as usize),
            ),
            forall|i: int, j: int|
                #![trigger documents.items()[i], documents.items()[j]]
                start <= i < j < documents.items().len() ==> documents.items()[i].name@
                    != documents.items()[j].name@,
            by_name.entries() == all.take(id - start),
    {
        let doc = arena::item(documents, id);
        proof {
            lemma_find(by_name.entries(), doc.name@);
            if let Some(i) = find(by_name.entries(), doc.name@) {
                assert(all[i].0 == documents.items()[start + i].name@);
                assert(documents.items()[id as int].name@ == doc.name@);
            }
            assert(all.take(id + 1 - start) =~= all.take(id - start).push((doc.name@, id)));
        }
        let prev = names::insert(&mut by_name, doc.name.clone(), id);
        runtime_assert(prev.is_none());
    }
    assert(all.take(n - start) =~= all);
    by_name
}

impl Remap {
    /// Moves the documents of a package behind those of a resolve, which has the other items of the
    /// package already, and adds the package itself.
    fn append_documents(
        &mut self,
        resolve: &mut Resolve,
        name: String,
        url: Option<String>,
        documents: Vec<Document>,
        first_type: usize,
        first_interface: usize,
        first_world: usize,
        Ghost(start): Ghost<ResolveView>,
        Ghost(package): Ghost<UnresolvedView>,
        Ghost(link): Ghost<RemapView>,
        Ghost(worlds): Ghost<Seq<WorldView>>,
    ) -> (id: PackageId)
        requires
            package.valid(),
            name@ == package.name,
            text(url) == package.url,
            views(documents@) == package.documents,
            link.types.len() == package.foreign_types(),
            link.interfaces.len() == package.foreign_interfaces(),
            link.documents.len() == package.foreign_documents(),
            first_type == start.types.len(),
            first_interface == start.interfaces.len(),
            first_world == start.worlds.len(),
            worlds.len() == package.worlds.len(),
            forall|i: int|
                0 <= i < worlds.len() ==> (#[trigger] worlds[i]).document
                    == package.worlds[i].document,
            old(self)@ == (RemapView {
                documents: link.documents,
                ..pushed_map(start, package, link)
            }),
            old(resolve)@ == (ResolveView {
                worlds: start.worlds + worlds,
                ..with_interfaces(start, package, pushed_map(start, package, link))
            }),
        ensures
            final(self)@ == pushed_map(start, package, link),
            final(resolve)@ == with_package(
                start,
                with_interfaces(start, package, pushed_map(start, package, link)),
                package,
                pushed_map(start, package, link),
                worlds,
            ),
            final(resolve)@.fits(),
            id == start.packages.len(),
    {
        broadcast use vstd::std_specs::hash::group_hash_axioms;

        let ghost map = pushed_map(start, package, link);
        let ghost middle = with_interfaces(start, package, map);
        let none: HashMap<usize, usize> = HashMap::new();
        let first_document: usize = arena::count(&resolve.documents);
        proof {
            assert(none@ =~= Map::empty());
            assert(views(resolve.types.items()) == middle.types);
            assert(resolve.types.items().len() == middle.types.len());
            assert forall|i: int| first_type <= i < resolve.types.items().len() implies ((
            #[trigger] resolve.types.items()[i]).owner matches TypeOwner::World(
                id,
            ) ==> id < self.worlds@.len()) by {
                let k = package.foreign_types() + (i - first_type);
                assert(views(resolve.types.items())[i].owner == interface_owner(
                    map.interfaces,
                    package.types[k].owner,
                ));
                assert(package.type_valid(k));
            }
        }
        own_by_worlds(&self.worlds, &mut resolve.types, first_type);
        proof {
            assert forall|k: int| package.foreign_documents() <= k < documents@.len() implies (
            #[trigger] documents@[k])@ == package.documents[k] && package.document_valid(k) by {
                assert(views(documents@)[k] == package.documents[k]);
            }
            lemma_nothing_known(
                start.documents.len(),
                package.foreign_documents(),
                package.documents.len() as int,
            );
            lemma_picked_all(package.documents, package.foreign_documents());
        }
        self.move_documents(&mut resolve.documents, documents, &none);
        assert(self.documents@ == map.documents);
        let ghost local = package.documents.skip(package.foreign_documents());
        let ghost added = start.documents + moved_documents(map.interfaces, map.worlds, local);
        proof {
            assert(views(resolve.documents.items()) == added);
            assert(resolve.documents.items().len() == added.len());
            assert(views(resolve.interfaces.items()) == middle.interfaces);
            assert(resolve.interfaces.items().len() == middle.interfaces.len());
            assert forall|i: int| first_interface <= i < resolve.interfaces.items().len() implies (
            #[trigger] resolve.interfaces.items()[i]).document < self.documents@.len() by {
                let k = package.foreign_interfaces() + (i - first_interface);
                assert(views(resolve.interfaces.items())[i].document
                    == package.interfaces[k].document);
                assert(package.interface_valid(k));
            }
            assert(views(resolve.worlds.items()) == start.worlds + worlds);
            assert(resolve.worlds.items().len() == views(resolve.worlds.items()).len());
            assert forall|i: int| first_world <= i < resolve.worlds.items().len() implies (
            #[trigger] resolve.worlds.items()[i]).document < self.documents@.len() by {
                let k = i - first_world;
                assert(views(resolve.worlds.items())[i] == worlds[k]);
                assert(package.world_valid(k));
            }
            assert forall|i: int, j: int|
                #![trigger resolve.documents.items()[i], resolve.documents.items()[j]]
                first_document <= i < j
                    < resolve.documents.items().len() implies resolve.documents.items()[i].name@
                != resolve.documents.items()[j].name@ by {
                let k = package.foreign_documents() + (i - first_document);
                let l = package.foreign_documents() + (j - first_document);
                assert(views(resolve.documents.items())[i].name == package.documents[k].name);
                assert(views(resolve.documents.items())[j].name == package.documents[l].name);
            }
        }
        place_interfaces(&self.documents, &mut resolve.interfaces, first_interface);
        place_worlds(&self.documents, &mut resolve.worlds, first_world);
        let by_name = documents_by_name(&resolve.documents, first_document);
        proof {
            assert forall|i: int| 0 <= i < by_name.entries().len() implies
                #[trigger] by_name.entries()[i] == package_documents(package, map)[i] by {
                assert(views(resolve.documents.items())[first_document + i].name
                    == package.documents[package.foreign_documents() + i].name);
            }
            assert(by_name.entries() =~= package_documents(package, map));
        }
        let ghost packages = resolve.packages.items();
        let ghost added_package = Package { name, url, documents: by_name };
        let id: usize = arena::add_item(
            &mut resolve.packages,
            Package { name, url, documents: by_name },
        );
        assert(views(resolve.packages.items()) =~= views(packages).push(added_package@));
        assign_package(id, &mut resolve.documents, first_document);
        assert(self@ =~= map);
        assert(resolve@ =~= with_package(start, middle, package, map, worlds));
        assert(resolve@.fits());
        id
    }

    /// Links a package to the packages of a resolve and adds its items to those that are there.
    fn append(
        &mut self,
        resolve: &mut Resolve,
        unresolved: UnresolvedPackage,
        deps: &IndexMap<String, PackageId>,
    ) -> (result: Result<PackageId, Error>)
        requires
            can_push(old(resolve)@, unresolved@, deps.entries()),
            old(self)@ == (RemapView {
                types: Seq::empty(),
                interfaces: Seq::empty(),
                worlds: Seq::empty(),
                documents: Seq::empty(),
                packages: Seq::empty(),
            }),
        ensures
            (final(resolve)@, outcome(result)) == pushed(
                old(resolve)@,
                unresolved@,
                deps.entries(),
            ),
            final(resolve)@.fits(),
            linked(old(resolve)@, unresolved@, deps.entries()) matches Ok(link) ==> (result.is_ok()
                ==> final(self)@ == pushed_map(old(resolve)@, unresolved@, link)),
    {
        reveal(can_push);
        reveal(pushed);
        let ghost start = resolve@;
        let ghost package = unresolved@;
        if let Err(error) = self.process_foreign_deps(resolve, &unresolved, deps) {
            return Err(error);
        }
        let ghost link = self@;
        let ghost map = pushed_map(start, package, link);
        let ghost middle = with_interfaces(start, package, map);
        proof {
            lemma_linked(start, package, deps.entries());
        }
        let first_type: usize = arena::count(&resolve.types);
        let first_interface: usize = arena::count(&resolve.interfaces);
        let first_world: usize = arena::count(&resolve.worlds);
        let types = arena::into_items(unresolved.types);
        let interfaces = arena::into_items(unresolved.interfaces);
        let worlds = arena::into_items(unresolved.worlds);
        let documents = arena::into_items(unresolved.documents);
        let spans = unresolved.world_spans;
        self.append_interfaces(resolve, types, interfaces, Ghost(package), Ghost(link));
        proof {
            assert(map.types == self.types@);
            lemma_middle_uses(start, package, link);
            assert forall|i: int| 0 <= i < map.types.len() implies #[trigger] map.types[i]
                < middle.types.len() by {
                if i < link.types.len() {
                    assert(link.types[i] < start.types.len());
                }
            }
            assert forall|i: int| 0 <= i < map.interfaces.len() implies
                #[trigger] map.interfaces[i] < middle.interfaces.len() by {
                if i < link.interfaces.len() {
                    assert(link.interfaces[i] < start.interfaces.len());
                }
            }
            assert forall|i: int| 0 <= i < spans@.len() implies (#[trigger] spans@[i]).0@
                == package.world_spans[i].0 && spans@[i].1@ == package.world_spans[i].1 by {}
        }
        if let Err(error) = self.append_worlds(
            resolve,
            worlds,
            spans,
            Ghost(package),
            Ghost(map),
        ) {
            return Err(error);
        }
        let ghost elaborated = elaborated_worlds(middle, package, map, package.worlds.len()).0;
        proof {
            lemma_elaborated_worlds(middle, package, map, package.worlds.len());
        }
        let id = self.append_documents(
            resolve,
            unresolved.name,
            unresolved.url,
            documents,
            first_type,
            first_interface,
            first_world,
            Ghost(start),
            Ghost(package),
            Ghost(link),
            Ghost(elaborated),
        );
        Ok(id)
    }
}

impl Resolve {
    /// Appends a new [`UnresolvedPackage`] to this [`Resolve`], creating a fully resolved package
    /// with no dangling references.
    ///
    /// The `deps` argument indicates that the named dependencies in `unresolved` to packages are
    /// resolved by the mapping specified.
    ///
    /// Any dependency resolution error or otherwise world-elaboration error will be returned here.
    /// If successful a package identifier is returned.
    pub fn push(
        &mut self,
        unresolved: UnresolvedPackage,
        deps: &IndexMap<String, PackageId>,
    ) -> (result: Result<PackageId, Error>)
        requires
            can_push(old(self)@, unresolved@, deps.entries()),
        ensures
            (final(self)@, outcome(result)) == pushed(old(self)@, unresolved@, deps.entries()),
            final(self)@.usable(),
            result.is_ok() && old(self)@.valid() ==> final(self)@.valid(),
    {
        let ghost before = self@;
        let ghost package = unresolved@;
        let mut remap = Remap::new();
        let result = remap.append(self, unresolved, deps);
        proof {
            pushing_keeps_valid(before, package, deps.entries());
        }
        result
    }
}

} // verus!
