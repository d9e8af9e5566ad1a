//! The arenas that hold the items of a resolve, which `id_arena` provides.
//!
//! Verus takes an arena as an opaque value. What an arena holds is given a name for each type of
//! item, and [`Items`] lets one wrapper of a method serve all of them.
use id_arena::{Arena, ArenaBehavior, DefaultArenaBehavior};
use vstd::prelude::*;

use crate::types::{Document, Interface, Package, TypeDef, World};

verus! {

/// `id_arena::Arena`.
#[verifier::external_type_specification]
#[verifier::external_body]
#[verifier::reject_recursive_types(T)]
#[verifier::reject_recursive_types(A)]
pub struct ExArena<T, A>(id_arena::Arena<T, A>);

/// `id_arena::DefaultArenaBehavior`, the default parameter of an arena.
#[verifier::external_type_specification]
#[verifier::external_body]
#[verifier::reject_recursive_types(T)]
pub struct ExDefaultArenaBehavior<T>(id_arena::DefaultArenaBehavior<T>);

/// The worlds in an arena, in the order in which they were allocated.
pub uninterp spec fn worlds_in(arena: Arena<World>) -> Seq<World>;

/// The interfaces in an arena, in the order in which they were allocated.
pub uninterp spec fn interfaces_in(arena: Arena<Interface>) -> Seq<Interface>;

/// The types in an arena, in the order in which they were allocated.
pub uninterp spec fn types_in(arena: Arena<TypeDef>) -> Seq<TypeDef>;

/// The documents in an arena, in the order in which they were allocated.
pub uninterp spec fn documents_in(arena: Arena<Document>) -> Seq<Document>;

/// The packages in an arena, in the order in which they were allocated.
pub uninterp spec fn packages_in(arena: Arena<Package>) -> Seq<Package>;

/// What an arena holds, in the order in which it was allocated.
pub trait Items<T> {
    spec fn items(&self) -> Seq<T>;
}

impl Items<World> for Arena<World> {
    open spec fn items(&self) -> Seq<World> {
        worlds_in(*self)
    }
}

impl Items<Interface> for Arena<Interface> {
    open spec fn items(&self) -> Seq<Interface> {
        interfaces_in(*self)
    }
}

impl Items<TypeDef> for Arena<TypeDef> {
    open spec fn items(&self) -> Seq<TypeDef> {
        types_in(*self)
    }
}

impl Items<Document> for Arena<Document> {
    open spec fn items(&self) -> Seq<Document> {
        documents_in(*self)
    }
}

impl Items<Package> for Arena<Package> {
    open spec fn items(&self) -> Seq<Package> {
        packages_in(*self)
    }
}

/// `Arena::new`: the arena holds nothing.
#[verifier::external_body]
pub(crate) fn new_worlds() -> (arena: Arena<World>)
    ensures
        worlds_in(arena) == Seq::<World>::empty(),
{
    Arena::new()
}

/// `Arena::new`: the arena holds nothing.
#[verifier::external_body]
pub(crate) fn new_interfaces() -> (arena: Arena<Interface>)
    ensures
        interfaces_in(arena) == Seq::<Interface>::empty(),
{
    Arena::new()
}

/// `Arena::new`: the arena holds nothing.
#[verifier::external_body]
pub(crate) fn new_types() -> (arena: Arena<TypeDef>)
    ensures
        types_in(arena) == Seq::<TypeDef>::empty(),
{
    Arena::new()
}

/// `Arena::new`: the arena holds nothing.
#[verifier::external_body]
pub(crate) fn new_documents() -> (arena: Arena<Document>)
    ensures
        documents_in(arena) == Seq::<Document>::empty(),
{
    Arena::new()
}

/// `Arena::new`: the arena holds nothing.
#[verifier::external_body]
pub(crate) fn new_packages() -> (arena: Arena<Package>)
    ensures
        packages_in(arena) == Seq::<Package>::empty(),
{
    Arena::new()
}

/// `Arena::len`: how many items the arena holds.
#[verifier::external_body]
pub(crate) fn count<T>(arena: &Arena<T>) -> (len: usize)
    where
        Arena<T>: Items<T>,

    ensures
        len == arena.items().len(),
{
    arena.len()
}

/// `Arena::alloc`: the item goes behind those that the arena holds, and the index of its id is
/// the number of items that stand before it. An arena holds its items in a vector, so that their
/// number fits in a `usize`.
#[verifier::external_body]
pub(crate) fn add_item<T>(arena: &mut Arena<T>, item: T) -> (index: usize)
    where
        Arena<T>: Items<T>,

    ensures
        final(arena).items() == old(arena).items().push(item),
        final(arena).items().len() <= usize::MAX,
        index == old(arena).items().len(),
{
    arena.alloc(item).index()
}

/// `Arena::index`, with the id of this arena that has the given index: the item at that index.
/// It panics where there is none.
#[verifier::external_body]
pub(crate) fn item<T>(arena: &Arena<T>, index: usize) -> (item: &T)
    where
        Arena<T>: Items<T>,

    requires
        index < arena.items().len(),
    ensures
        *item == arena.items()[index as int],
{
    let arena_id: u32 = DefaultArenaBehavior::<T>::arena_id(arena.next_id());
    &arena[DefaultArenaBehavior::<T>::new_id(arena_id, index)]
}

/// `Arena::index_mut`, with the id of this arena that has the given index: the item at that
/// index, the only one that may change. It panics where there is none.
#[verifier::external_body]
pub(crate) fn item_mut<T>(arena: &mut Arena<T>, index: usize) -> (item: &mut T)
    where
        Arena<T>: Items<T>,

    requires
        index < old(arena).items().len(),
    ensures
        *item == old(arena).items()[index as int],
        final(arena).items() == old(arena).items().update(index as int, *final(item)),
{
    let arena_id: u32 = DefaultArenaBehavior::<T>::arena_id(arena.next_id());
    &mut arena[DefaultArenaBehavior::<T>::new_id(arena_id, index)]
}

/// `Arena::into_iter`: every item that the arena holds, in order, without its id.
#[verifier::external_body]
pub(crate) fn into_items<T>(arena: Arena<T>) -> (items: Vec<T>)
    where
        Arena<T>: Items<T>,

    ensures
        items@ == arena.items(),
{
    arena.into_iter().map(|entry| entry.1).collect()
}

/// `Arena::clone`: the copy holds a clone of each item, in the same order.
#[verifier::external_body]
pub(crate) fn copy<T: Clone>(arena: &Arena<T>) -> (copy: Arena<T>)
    where
        Arena<T>: Items<T>,

    ensures
        copy.items().len() == arena.items().len(),
        forall|i: int|
            0 <= i < arena.items().len() ==> cloned::<T>(
                arena.items()[i],
                #[trigger] copy.items()[i],
            ),
{
    arena.clone()
}

} // verus!
