//! The collections keyed by name, which `indexmap` provides.
//!
//! Verus takes a map as an opaque value. What a map holds is given a name for each type of value,
//! and [`Entries`] lets one wrapper of a method serve all of them.
use indexmap::IndexMap;
use vstd::prelude::*;

use crate::types::{Function, WorldItem};

verus! {

/// `indexmap::IndexMap`.
#[verifier::external_type_specification]
#[verifier::external_body]
#[verifier::reject_recursive_types(K)]
#[verifier::reject_recursive_types(V)]
#[verifier::reject_recursive_types(S)]
pub struct ExIndexMap<K, V, S>(indexmap::IndexMap<K, V, S>);

/// The names and ids in a map, in order.
pub uninterp spec fn ids_in(map: IndexMap<String, usize>) -> Seq<(Seq<char>, usize)>;

/// The names and functions in a map, in order.
pub uninterp spec fn functions_in(map: IndexMap<String, Function>) -> Seq<(Seq<char>, Function)>;

/// The names and world items in a map, in order.
pub uninterp spec fn world_items_in(map: IndexMap<String, WorldItem>) -> Seq<
    (Seq<char>, WorldItem),
>;

/// The names and the maps of names in a map, in order.
pub uninterp spec fn id_maps_in(map: IndexMap<String, IndexMap<String, usize>>) -> Seq<
    (Seq<char>, IndexMap<String, usize>),
>;

/// What a map holds, in order. No name occurs twice.
pub trait Entries<V> {
    spec fn entries(&self) -> Seq<(Seq<char>, V)>;
}

impl Entries<usize> for IndexMap<String, usize> {
    open spec fn entries(&self) -> Seq<(Seq<char>, usize)> {
        ids_in(*self)
    }
}

impl Entries<Function> for IndexMap<String, Function> {
    open spec fn entries(&self) -> Seq<(Seq<char>, Function)> {
        functions_in(*self)
    }
}

impl Entries<WorldItem> for IndexMap<String, WorldItem> {
    open spec fn entries(&self) -> Seq<(Seq<char>, WorldItem)> {
        world_items_in(*self)
    }
}

impl Entries<IndexMap<String, usize>> for IndexMap<String, IndexMap<String, usize>> {
    open spec fn entries(&self) -> Seq<(Seq<char>, IndexMap<String, usize>)> {
        id_maps_in(*self)
    }
}

/// The first position at which a name stands.
pub open spec fn find<V>(entries: Seq<(Seq<char>, V)>, name: Seq<char>) -> Option<int>
    decreases entries.len(),
{
    if entries.len() == 0 {
        None
    } else {
        match find(entries.drop_last(), name) {
            Some(i) => Some(i),
            None => if entries.last().0 == name {
                Some(entries.len() - 1)
            } else {
                None
            },
        }
    }
}

/// The value that stands under a name.
pub open spec fn lookup<V>(entries: Seq<(Seq<char>, V)>, name: Seq<char>) -> Option<V> {
    match find(entries, name) {
        Some(i) => Some(entries[i].1),
        None => None,
    }
}

/// The entries with a value put under a name: in the place of the value that stood there, or
/// behind the others.
pub open spec fn put<V>(entries: Seq<(Seq<char>, V)>, name: Seq<char>, value: V) -> Seq<
    (Seq<char>, V),
> {
    match find(entries, name) {
        Some(i) => entries.update(i, (name, value)),
        None => entries.push((name, value)),
    }
}

/// No name occurs twice.
pub open spec fn distinct<V>(entries: Seq<(Seq<char>, V)>) -> bool {
    forall|i: int, j: int|
        #![trigger entries[i], entries[j]]
        0 <= i < j < entries.len() ==> entries[i].0 != entries[j].0
}

/// What [`find`] finds.
pub proof fn lemma_find<V>(entries: Seq<(Seq<char>, V)>, name: Seq<char>)
    ensures
        match find(entries, name) {
            Some(i) => 0 <= i < entries.len() && entries[i].0 == name && forall|j: int|
                0 <= j < i ==> (#[trigger] entries[j]).0 != name,
            None => forall|j: int| 0 <= j < entries.len() ==> (#[trigger] entries[j]).0 != name,
        },
    decreases entries.len(),
{
    if entries.len() > 0 {
        let front = entries.drop_last();
        lemma_find(front, name);
        assert forall|j: int| 0 <= j < front.len() implies front[j] == #[trigger] entries[j] by {}
        if find(front, name).is_none() {
            assert forall|j: int| 0 <= j < entries.len() - 1 implies (
            #[trigger] entries[j]).0 != name by {
                assert(front[j].0 != name);
            }
        } else {
            let i = find(front, name).unwrap();
            assert forall|j: int| 0 <= j < i implies (#[trigger] entries[j]).0 != name by {
                assert(front[j].0 != name);
            }
        }
    }
}

/// Two lists with the same names find a name at the same position.
pub proof fn lemma_find_same<V, W>(
    a: Seq<(Seq<char>, V)>,
    b: Seq<(Seq<char>, W)>,
    name: Seq<char>,
)
    requires
        a.len() == b.len(),
        forall|i: int| 0 <= i < a.len() ==> (#[trigger] a[i]).0 == b[i].0,
    ensures
        find(a, name) == find(b, name),
{
    lemma_find(a, name);
    lemma_find(b, name);
    if find(a, name).is_some() {
        let i = find(a, name).unwrap();
        assert(a[i].0 == b[i].0);
        if find(b, name).is_some() {
            let j = find(b, name).unwrap();
            assert(a[j].0 == b[j].0);
        }
    } else if find(b, name).is_some() {
        let j = find(b, name).unwrap();
        assert(a[j].0 == b[j].0);
    }
}

/// `IndexMap::new`: the map holds nothing.
#[verifier::external_body]
pub(crate) fn new_ids() -> (map: IndexMap<String, usize>)
    ensures
        ids_in(map) == Seq::<(Seq<char>, usize)>::empty(),
{
    IndexMap::new()
}

/// `IndexMap::new`: the map holds nothing.
#[verifier::external_body]
pub(crate) fn new_world_items() -> (map: IndexMap<String, WorldItem>)
    ensures
        world_items_in(map) == Seq::<(Seq<char>, WorldItem)>::empty(),
{
    IndexMap::new()
}

/// `IndexMap::new`: the map holds nothing.
#[verifier::external_body]
pub(crate) fn new_id_maps() -> (map: IndexMap<String, IndexMap<String, usize>>)
    ensures
        id_maps_in(map) == Seq::<(Seq<char>, IndexMap<String, usize>)>::empty(),
{
    IndexMap::new()
}

/// `IndexMap::contains_key`: whether a function stands under a name.
#[verifier::external_body]
pub(crate) fn has_function(map: &IndexMap<String, Function>, name: &str) -> (found: bool)
    ensures
        found == find(functions_in(*map), name@).is_some(),
{
    map.contains_key(name)
}

/// `IndexMap::len`: how many entries the map holds.
#[verifier::external_body]
pub(crate) fn len<V>(map: &IndexMap<String, V>) -> (len: usize)
    where
        IndexMap<String, V>: Entries<V>,

    ensures
        len == map.entries().len(),
{
    map.len()
}

/// `IndexMap::get`: the value that stands under a name.
#[verifier::external_body]
pub(crate) fn get<'a, V>(map: &'a IndexMap<String, V>, name: &str) -> (value: Option<&'a V>)
    where
        IndexMap<String, V>: Entries<V>,

    ensures
        match value {
            Some(value) => lookup(map.entries(), name@) == Some(*value),
            None => lookup(map.entries(), name@).is_none(),
        },
{
    map.get(name)
}

/// `IndexMap::get_index`: the name and the value at a position, in the order of the map.
#[verifier::external_body]
pub(crate) fn entry<V>(map: &IndexMap<String, V>, index: usize) -> (entry: (&String, &V))
    where
        IndexMap<String, V>: Entries<V>,

    requires
        index < map.entries().len(),
    ensures
        entry.0@ == map.entries()[index as int].0,
        *entry.1 == map.entries()[index as int].1,
{
    map.get_index(index).unwrap()
}

/// `IndexMap::index_mut` by position: the value there, the only one that may change.
#[verifier::external_body]
pub(crate) fn value_mut<V>(map: &mut IndexMap<String, V>, index: usize) -> (value: &mut V)
    where
        IndexMap<String, V>: Entries<V>,

    requires
        index < old(map).entries().len(),
    ensures
        *value == old(map).entries()[index as int].1,
        final(map).entries() == old(map).entries().update(
            index as int,
            (old(map).entries()[index as int].0, *final(value)),
        ),
{
    &mut map[index]
}

/// `IndexMap::insert`: puts a value under a name and returns the one that stood there. A new name
/// goes behind the others.
#[verifier::external_body]
pub(crate) fn insert<V>(map: &mut IndexMap<String, V>, name: String, value: V) -> (previous: Option<
    V,
>)
    where
        IndexMap<String, V>: Entries<V>,

    ensures
        final(map).entries() == put(old(map).entries(), name@, value),
        previous == lookup(old(map).entries(), name@),
{
    map.insert(name, value)
}

/// `IndexMap::into_iter`: every name and value that the map holds, in order.
#[verifier::external_body]
pub(crate) fn into_entries<V>(map: IndexMap<String, V>) -> (entries: Vec<(String, V)>)
    where
        IndexMap<String, V>: Entries<V>,

    ensures
        entries@.len() == map.entries().len(),
        forall|i: int|
            0 <= i < entries@.len() ==> (#[trigger] entries@[i]).0@ == map.entries()[i].0
                && entries@[i].1 == map.entries()[i].1,
{
    map.into_iter().collect()
}

/// `IndexMap::clone`: the copy holds the same names in the same order, each with a clone of its
/// value.
#[verifier::external_body]
pub(crate) fn copy<V: Clone>(map: &IndexMap<String, V>) -> (copy: IndexMap<String, V>)
    where
        IndexMap<String, V>: Entries<V>,

    ensures
        copy.entries().len() == map.entries().len(),
        forall|i: int|
            0 <= i < map.entries().len() ==> (#[trigger] copy.entries()[i]).0
                == map.entries()[i].0 && cloned::<V>(map.entries()[i].1, copy.entries()[i].1),
{
    map.clone()
}

} // verus!
