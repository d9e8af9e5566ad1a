//! What it means that an item is a copy of another one with other ids in it.
use vstd::prelude::*;

use crate::append::{can_push, pushed, pushed_map};
use crate::correspondence::{comparable, parented_resolves_merge};
use crate::descent::pushing_maps_parents;
use crate::link::{lemma_linked, linked, Deps};
use crate::matching::matched;
use crate::merge::merged;
use crate::merge_laws::merging_maps_items;
use crate::package::UnresolvedView;
use crate::remap::{
    mapped_function, mapped_functions, mapped_item, mapped_items, mapped_kind, ItemMap, RemapView,
};
use crate::resolve::ResolveView;
use crate::types::{FunctionView, ItemView, KindView, Result_, ResultsView, Stream, Type, TypeOwner};
use crate::worlds::ItemList;

verus! {

/// The types that a definition is made of, in order.
pub open spec fn parts(kind: KindView) -> Seq<Option<Type>> {
    match kind {
        KindView::Record(fields) => fields.map_values(|field: (Seq<char>, Type)| Some(field.1)),
        KindView::Tuple(types) => types.map_values(|ty: Type| Some(ty)),
        KindView::Union(types) => types.map_values(|ty: Type| Some(ty)),
        KindView::Variant(cases) => cases.map_values(|case: (Seq<char>, Option<Type>)| case.1),
        KindView::Option(ty) => seq![Some(ty)],
        KindView::List(ty) => seq![Some(ty)],
        KindView::Type(ty) => seq![Some(ty)],
        KindView::Future(ty) => seq![ty],
        KindView::Result(r) => seq![r.ok, r.err],
        KindView::Stream(s) => seq![s.element, s.end],
        KindView::Flags(_) => Seq::empty(),
        KindView::Enum(_) => Seq::empty(),
        KindView::Unknown => Seq::empty(),
    }
}

/// What is left of a definition without the types that it is made of.
pub open spec fn outline(kind: KindView) -> KindView {
    match kind {
        KindView::Record(fields) => KindView::Record(
            fields.map_values(|field: (Seq<char>, Type)| (field.0, Type::Bool)),
        ),
        KindView::Tuple(types) => KindView::Tuple(types.map_values(|ty: Type| Type::Bool)),
        KindView::Union(types) => KindView::Union(types.map_values(|ty: Type| Type::Bool)),
        KindView::Variant(cases) => KindView::Variant(
            cases.map_values(|case: (Seq<char>, Option<Type>)| (case.0, None::<Type>)),
        ),
        KindView::Option(_) => KindView::Option(Type::Bool),
        KindView::List(_) => KindView::List(Type::Bool),
        KindView::Type(_) => KindView::Type(Type::Bool),
        KindView::Future(_) => KindView::Future(None),
        KindView::Result(_) => KindView::Result(Result_ { ok: None, err: None }),
        KindView::Stream(_) => KindView::Stream(Stream { element: None, end: None }),
        KindView::Flags(names) => KindView::Flags(names),
        KindView::Enum(names) => KindView::Enum(names),
        KindView::Unknown => KindView::Unknown,
    }
}

/// A type that refers to another one refers to the new id of it, and any other type is the same.
pub open spec fn renumbers(ids: Seq<usize>, old: Option<Type>, new: Option<Type>) -> bool {
    match (old, new) {
        (Some(Type::Id(a)), Some(Type::Id(b))) => b == ids[a as int],
        (Some(Type::Id(_)), _) => false,
        _ => old == new,
    }
}

/// A definition is a copy of another one: it has the same shape and the same names, and is made of
/// the same types, by their new ids, in the same order.
pub open spec fn copies_kind(ids: Seq<usize>, old: KindView, new: KindView) -> bool {
    &&& outline(new) == outline(old)
    &&& parts(new).len() == parts(old).len()
    &&& forall|i: int|
        0 <= i < parts(old).len() ==> renumbers(ids, #[trigger] parts(old)[i], parts(new)[i])
}

/// Named types are copies of others, in order.
pub open spec fn copies_named(
    ids: Seq<usize>,
    old: Seq<(Seq<char>, Type)>,
    new: Seq<(Seq<char>, Type)>,
) -> bool {
    &&& new.len() == old.len()
    &&& forall|i: int|
        0 <= i < old.len() ==> new[i].0 == (#[trigger] old[i]).0 && renumbers(
            ids,
            Some(old[i].1),
            Some(new[i].1),
        )
}

/// A function is a copy of another one.
pub open spec fn copies_function(ids: Seq<usize>, old: FunctionView, new: FunctionView) -> bool {
    &&& new.name == old.name
    &&& copies_named(ids, old.params, new.params)
    &&& match (old.results, new.results) {
        (ResultsView::Named(a), ResultsView::Named(b)) => copies_named(ids, a, b),
        (ResultsView::Anon(a), ResultsView::Anon(b)) => renumbers(ids, Some(a), Some(b)),
        _ => false,
    }
}

/// Functions are copies of others under the same names, in order.
pub open spec fn copies_functions(
    ids: Seq<usize>,
    old: Seq<(Seq<char>, FunctionView)>,
    new: Seq<(Seq<char>, FunctionView)>,
) -> bool {
    &&& new.len() == old.len()
    &&& forall|i: int|
        0 <= i < old.len() ==> new[i].0 == (#[trigger] old[i]).0 && copies_function(
            ids,
            old[i].1,
            new[i].1,
        )
}

/// The new ids of others stand under the same names, in order.
pub open spec fn copies_ids(
    ids: Seq<usize>,
    old: Seq<(Seq<char>, usize)>,
    new: Seq<(Seq<char>, usize)>,
) -> bool {
    &&& new.len() == old.len()
    &&& forall|i: int|
        0 <= i < old.len() ==> new[i] == ((#[trigger] old[i]).0, ids[old[i].1 as int])
}

pub open spec fn copies_id(ids: Seq<usize>, old: Option<usize>, new: Option<usize>) -> bool {
    match (old, new) {
        (Some(a), Some(b)) => b == ids[a as int],
        (None, None) => true,
        _ => false,
    }
}

/// What a world holds is a copy of something else.
pub open spec fn copies_item(map: ItemMap, old: ItemView, new: ItemView) -> bool {
    match (old, new) {
        (ItemView::Interface(a), ItemView::Interface(b)) => b == map.interfaces[a as int],
        (ItemView::Type(a), ItemView::Type(b)) => b == map.types[a as int],
        (ItemView::Function(a), ItemView::Function(b)) => copies_function(map.types, a, b),
        _ => false,
    }
}

pub open spec fn copies_items(map: ItemMap, old: ItemList, new: ItemList) -> bool {
    &&& new.len() == old.len()
    &&& forall|i: int|
        0 <= i < old.len() ==> new[i].0 == (#[trigger] old[i]).0 && copies_item(
            map,
            old[i].1,
            new[i].1,
        )
}

/// A type belongs to the new id of what another one belongs to.
pub open spec fn copies_owner(map: RemapView, old: TypeOwner, new: TypeOwner) -> bool {
    match (old, new) {
        (TypeOwner::Interface(a), TypeOwner::Interface(b)) => b == map.interfaces[a as int],
        (TypeOwner::World(a), TypeOwner::World(b)) => b == map.worlds[a as int],
        (TypeOwner::Unowned, TypeOwner::Unowned) => true,
        _ => false,
    }
}

pub proof fn lemma_copies_kind(ids: Seq<usize>, kind: KindView)
    ensures
        copies_kind(ids, kind, mapped_kind(ids, kind)),
{
    let new = mapped_kind(ids, kind);
    assert(outline(new) =~~= outline(kind));
    assert forall|i: int| 0 <= i < parts(kind).len() implies renumbers(
        ids,
        #[trigger] parts(kind)[i],
        parts(new)[i],
    ) by {}
}

pub proof fn lemma_copies_function(ids: Seq<usize>, func: FunctionView)
    ensures
        copies_function(ids, func, mapped_function(ids, func)),
{
}

pub proof fn lemma_copies_functions(ids: Seq<usize>, entries: Seq<(Seq<char>, FunctionView)>)
    ensures
        copies_functions(ids, entries, mapped_functions(ids, entries)),
{
    assert forall|i: int| 0 <= i < entries.len() implies mapped_functions(ids, entries)[i].0 == (
    #[trigger] entries[i]).0 && copies_function(
        ids,
        entries[i].1,
        mapped_functions(ids, entries)[i].1,
    ) by {
        lemma_copies_function(ids, entries[i].1);
    }
}

pub proof fn lemma_copies_item(map: ItemMap, item: ItemView)
    ensures
        copies_item(map, item, mapped_item(map, item)),
{
    if let ItemView::Function(f) = item {
        lemma_copies_function(map.types, f);
    }
}

pub proof fn lemma_copies_items(map: ItemMap, entries: ItemList)
    ensures
        copies_items(map, entries, mapped_items(map, entries)),
{
    assert forall|i: int| 0 <= i < entries.len() implies mapped_items(map, entries)[i].0 == (
    #[trigger] entries[i]).0 && copies_item(map, entries[i].1, mapped_items(map, entries)[i].1) by {
        lemma_copies_item(map, entries[i].1);
    }
}

/// Pushing a package makes copies of its own items. What they refer to inside of the package
/// becomes the copy of that, and what they refer to in other packages becomes what it is linked to.
pub proof fn pushed_items_are_copies(resolve: ResolveView, package: UnresolvedView, deps: Deps)
    requires
        can_push(resolve, package, deps),
        pushed(resolve, package, deps).0.fits(),
    ensures
        pushed(resolve, package, deps) matches (after, Ok(id)) ==> (linked(
            resolve,
            package,
            deps,
        ) matches Ok(link) && {
            let map = pushed_map(resolve, package, link);
            &&& forall|k: int|
                package.foreign_types() <= k < package.types.len() ==> copies_kind(
                    map.types,
                    (#[trigger] package.types[k]).kind,
                    after.types[map.types[k] as int].kind,
                )
            &&& forall|k: int|
                package.foreign_interfaces() <= k < package.interfaces.len() ==> {
                    let old = #[trigger] package.interfaces[k];
                    let new = after.interfaces[map.interfaces[k] as int];
                    &&& copies_ids(map.types, old.types, new.types)
                    &&& copies_functions(map.types, old.functions, new.functions)
                }
            &&& forall|k: int|
                package.foreign_documents() <= k < package.documents.len() ==> {
                    let old = #[trigger] package.documents[k];
                    let new = after.documents[map.documents[k] as int];
                    &&& copies_ids(map.interfaces, old.interfaces, new.interfaces)
                    &&& copies_ids(map.worlds, old.worlds, new.worlds)
                    &&& copies_id(map.interfaces, old.default_interface, new.default_interface)
                    &&& copies_id(map.worlds, old.default_world, new.default_world)
                }
            &&& after.packages[id as int].documents == Seq::new(
                (package.documents.len() - package.foreign_documents()) as nat,
                |i: int|
                    (
                        package.documents[package.foreign_documents() + i].name,
                        map.documents[package.foreign_documents() + i],
                    ),
            )
        }),
{
    reveal(can_push);
    reveal(pushed);
    if let (after, Ok(id)) = pushed(resolve, package, deps) {
        let link = linked(resolve, package, deps)->Ok_0;
        let map = pushed_map(resolve, package, link);
        lemma_linked(resolve, package, deps);
        pushing_maps_parents(resolve, package, deps);
        assert forall|k: int|
            package.foreign_types() <= k < package.types.len() implies copies_kind(
            map.types,
            (#[trigger] package.types[k]).kind,
            after.types[map.types[k] as int].kind,
        ) by {
            lemma_copies_kind(map.types, package.types[k].kind);
            assert(map.types[k] == resolve.types.len() + (k - package.foreign_types()));
        }
        assert forall|k: int|
            package.foreign_interfaces() <= k < package.interfaces.len() implies {
            let old = #[trigger] package.interfaces[k];
            let new = after.interfaces[map.interfaces[k] as int];
            &&& copies_ids(map.types, old.types, new.types)
            &&& copies_functions(map.types, old.functions, new.functions)
        } by {
            lemma_copies_functions(map.types, package.interfaces[k].functions);
            assert(map.interfaces[k] == resolve.interfaces.len() + (k
                - package.foreign_interfaces()));
        }
        assert forall|k: int|
            package.foreign_documents() <= k < package.documents.len() implies {
            let old = #[trigger] package.documents[k];
            let new = after.documents[map.documents[k] as int];
            &&& copies_ids(map.interfaces, old.interfaces, new.interfaces)
            &&& copies_ids(map.worlds, old.worlds, new.worlds)
            &&& copies_id(map.interfaces, old.default_interface, new.default_interface)
            &&& copies_id(map.worlds, old.default_world, new.default_world)
        } by {
            assert(map.documents[k] == resolve.documents.len() + (k
                - package.foreign_documents()));
        }
    }
}

/// What merging adds to a resolve are copies of items of the other one, which refer to the new ids
/// of what these refer to.
pub proof fn merged_items_are_copies(into: ResolveView, from: ResolveView)
    requires
        comparable(from, into),
        merged(into, from).0.fits(),
    ensures
        merged(into, from) matches (after, Ok(map)) ==> {
            &&& forall|k: int|
                0 <= k < from.types.len() && map.types[k] >= into.types.len() ==> {
                    let old = #[trigger] from.types[k];
                    let new = after.types[map.types[k] as int];
                    &&& new.name == old.name
                    &&& copies_kind(map.types, old.kind, new.kind)
                    &&& copies_owner(map, old.owner, new.owner)
                }
            &&& forall|k: int|
                0 <= k < from.interfaces.len() && map.interfaces[k] >= into.interfaces.len() ==> {
                    let old = #[trigger] from.interfaces[k];
                    let new = after.interfaces[map.interfaces[k] as int];
                    &&& new.name == old.name
                    &&& new.document == map.documents[old.document as int]
                    &&& copies_ids(map.types, old.types, new.types)
                    &&& copies_functions(map.types, old.functions, new.functions)
                }
            &&& forall|k: int|
                0 <= k < from.worlds.len() && map.worlds[k] >= into.worlds.len() ==> {
                    let old = #[trigger] from.worlds[k];
                    let new = after.worlds[map.worlds[k] as int];
                    &&& new.name == old.name
                    &&& new.document == map.documents[old.document as int]
                    &&& copies_items(map.item_map(), old.imports, new.imports)
                    &&& copies_items(map.item_map(), old.exports, new.exports)
                }
            &&& forall|k: int|
                0 <= k < from.documents.len() && map.documents[k] >= into.documents.len() ==> {
                    let old = #[trigger] from.documents[k];
                    let new = after.documents[map.documents[k] as int];
                    &&& new.name == old.name
                    &&& copies_id(map.packages, old.package, new.package)
                    &&& copies_ids(map.interfaces, old.interfaces, new.interfaces)
                    &&& copies_ids(map.worlds, old.worlds, new.worlds)
                    &&& copies_id(map.interfaces, old.default_interface, new.default_interface)
                    &&& copies_id(map.worlds, old.default_world, new.default_world)
                }
            &&& forall|k: int|
                0 <= k < from.packages.len() && map.packages[k] >= into.packages.len() ==> {
                    let old = #[trigger] from.packages[k];
                    let new = after.packages[map.packages[k] as int];
                    &&& new.name == old.name
                    &&& new.url == old.url
                    &&& copies_ids(map.documents, old.documents, new.documents)
                }
        },
{
    parented_resolves_merge(from, into);
    if let (after, Ok(map)) = merged(into, from) {
        merging_maps_items(into, from);
        let plan = matched(from, into)->Ok_0;
        assert forall|k: int| 0 <= k < from.types.len() && map.types[k] >= into.types.len() implies {
            let old = #[trigger] from.types[k];
            let new = after.types[map.types[k] as int];
            &&& new.name == old.name
            &&& copies_kind(map.types, old.kind, new.kind)
            &&& copies_owner(map, old.owner, new.owner)
        } by {
            assert(!plan.types.contains_key(k as usize));
            lemma_copies_kind(map.types, from.types[k].kind);
        }
        assert forall|k: int|
            0 <= k < from.interfaces.len() && map.interfaces[k] >= into.interfaces.len() implies {
            let old = #[trigger] from.interfaces[k];
            let new = after.interfaces[map.interfaces[k] as int];
            &&& new.name == old.name
            &&& new.document == map.documents[old.document as int]
            &&& copies_ids(map.types, old.types, new.types)
            &&& copies_functions(map.types, old.functions, new.functions)
        } by {
            assert(!plan.interfaces.contains_key(k as usize));
            lemma_copies_functions(map.types, from.interfaces[k].functions);
        }
        assert forall|k: int|
            0 <= k < from.worlds.len() && map.worlds[k] >= into.worlds.len() implies {
            let old = #[trigger] from.worlds[k];
            let new = after.worlds[map.worlds[k] as int];
            &&& new.name == old.name
            &&& new.document == map.documents[old.document as int]
            &&& copies_items(map.item_map(), old.imports, new.imports)
            &&& copies_items(map.item_map(), old.exports, new.exports)
        } by {
            assert(!plan.worlds.contains_key(k as usize));
            lemma_copies_items(map.item_map(), from.worlds[k].imports);
            lemma_copies_items(map.item_map(), from.worlds[k].exports);
        }
        assert forall|k: int|
            0 <= k < from.documents.len() && map.documents[k] >= into.documents.len() implies {
            let old = #[trigger] from.documents[k];
            let new = after.documents[map.documents[k] as int];
            &&& new.name == old.name
            &&& copies_id(map.packages, old.package, new.package)
            &&& copies_ids(map.interfaces, old.interfaces, new.interfaces)
            &&& copies_ids(map.worlds, old.worlds, new.worlds)
            &&& copies_id(map.interfaces, old.default_interface, new.default_interface)
            &&& copies_id(map.worlds, old.default_world, new.default_world)
        } by {
            assert(!plan.documents.contains_key(k as usize));
        }
        assert forall|k: int|
            0 <= k < from.packages.len() && map.packages[k] >= into.packages.len() implies {
            let old = #[trigger] from.packages[k];
            let new = after.packages[map.packages[k] as int];
            &&& new.name == old.name
            &&& new.url == old.url
            &&& copies_ids(map.documents, old.documents, new.documents)
        } by {
            assert(!plan.packages.contains_key(k as usize));
        }
    }
}

} // verus!
