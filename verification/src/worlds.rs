//! Merging of one world into another.
use indexmap::IndexMap;
use std::collections::HashMap;
use vstd::pervasive::runtime_assert;
use vstd::prelude::*;
use vstd::string::*;

use crate::arena::{self, Items};
use crate::elaborate::item_pairs;
use crate::error::{failure, outcome, sentence, Error, ErrorView};
use crate::names::{self, distinct, find, lemma_find, lemma_find_same, lookup, Entries};
use crate::remap::{item_within, items_within};
use crate::resolve::{Resolve, ResolveView};
use crate::search::{first_where, lemma_first_where, lemma_first_where_stops};
use crate::types::{entry_views, views, InterfaceId, ItemView, WorldId, WorldItem, WorldView};

verus! {

/// What a world imports or exports, by name.
pub type ItemList = Seq<(Seq<char>, ItemView)>;

/// The positions at which an interface stands.
pub open spec fn stands_for(items: ItemList, id: InterfaceId) -> spec_fn(int) -> bool {
    |i: int| items[i].1 == ItemView::Interface(id)
}

/// The name under which a list holds an interface.
pub open spec fn name_of_interface(items: ItemList, id: InterfaceId) -> Option<Seq<char>> {
    match first_where(items.len(), stands_for(items, id)) {
        Some(i) => Some(items[i].0),
        None => None,
    }
}

/// No interface stands under two names.
pub open spec fn interfaces_once(items: ItemList) -> bool {
    forall|i: int, j: int|
        #![trigger items[i], items[j]]
        0 <= i < j < items.len() && items[i].1 is Interface ==> items[i].1 != items[j].1
}

/// The positions of the interfaces that `into` imports under another name than `from`.
pub open spec fn renamed_import(from: ItemList, into: ItemList) -> spec_fn(int) -> bool {
    |i: int|
        from[i].1 matches ItemView::Interface(id) && (name_of_interface(
            into,
            id,
        ) matches Some(name) && name != from[i].0)
}

/// The positions of the interfaces that `into` exports as well.
pub open spec fn repeated_export(from: ItemList, into: ItemList) -> spec_fn(int) -> bool {
    |i: int|
        from[i].1 matches ItemView::Interface(id) && name_of_interface(into, id).is_some()
}

/// The positions of the imports whose name stands for something else in `into`. Nothing but an
/// interface can be imported twice.
pub open spec fn clashing_import(from: ItemList, into: ItemList) -> spec_fn(int) -> bool {
    |i: int|
        lookup(into, from[i].0) matches Some(other) && !(from[i].1 is Interface && other
            == from[i].1)
}

/// The positions of the exports whose name is in use in `into`.
pub open spec fn clashing_export(from: ItemList, into: ItemList) -> spec_fn(int) -> bool {
    |i: int|
        lookup(into, from[i].0).is_some()
}

/// Why one world cannot be merged into another.
pub open spec fn union_error(from: WorldView, into: WorldView) -> Option<ErrorView> {
    if let Some(i) = first_where(
        from.imports.len(),
        renamed_import(from.imports, into.imports),
    ) {
        let (name, item) = from.imports[i];
        let previous = name_of_interface(into.imports, item->Interface_0).unwrap();
        Some(failure("import `"@ + name + "` conflicts with previous name of `"@ + previous + "`"@))
    } else if let Some(i) = first_where(
        from.exports.len(),
        repeated_export(from.exports, into.exports),
    ) {
        let (name, item) = from.exports[i];
        let previous = name_of_interface(into.exports, item->Interface_0).unwrap();
        Some(failure("export `"@ + name + "` conflicts with previous name of `"@ + previous + "`"@))
    } else if let Some(i) = first_where(
        from.imports.len(),
        clashing_import(from.imports, into.imports),
    ) {
        Some(failure("duplicate import found for interface `"@ + from.imports[i].0 + "`"@))
    } else if let Some(i) = first_where(
        from.exports.len(),
        clashing_export(from.exports, into.exports),
    ) {
        Some(failure("duplicate export found for interface `"@ + from.exports[i].0 + "`"@))
    } else {
        None
    }
}

/// The items of `from` whose names are free in `into`.
pub open spec fn missing(from: ItemList, into: ItemList) -> ItemList {
    from.filter(|entry: (Seq<char>, ItemView)| find(into, entry.0).is_none())
}

/// The union of two worlds: what the one does not have follows on what it has.
pub open spec fn union_of(from: WorldView, into: WorldView) -> WorldView {
    WorldView {
        imports: into.imports + missing(from.imports, into.imports),
        exports: into.exports + missing(from.exports, into.exports),
        ..into
    }
}

/// What merging one world of a resolve into another makes of the resolve, and what it returns. If
/// the two cannot be merged then nothing changes.
pub open spec fn worlds_merged(resolve: ResolveView, from: WorldId, into: WorldId) -> (
    ResolveView,
    Result<(), ErrorView>,
) {
    let from_world = resolve.worlds[from as int];
    let into_world = resolve.worlds[into as int];
    match union_error(from_world, into_world) {
        Some(error) => (resolve, Err(error)),
        None => (
            ResolveView {
                worlds: resolve.worlds.update(into as int, union_of(from_world, into_world)),
                ..resolve
            },
            Ok(()),
        ),
    }
}

/// Lists the interfaces in a list going the reverse direction from what's listed.
fn names_by_id(items: &IndexMap<String, WorldItem>) -> (by_id: HashMap<InterfaceId, &String>)
    requires
        interfaces_once(entry_views(items.entries())),
    ensures
        forall|id: InterfaceId|
            #[trigger] by_id@.contains_key(id) <==> name_of_interface(
                entry_views(items.entries()),
                id,
            ).is_some(),
        forall|id: InterfaceId| #[trigger]
            by_id@.contains_key(id) ==> by_id@[id]@ == name_of_interface(
                entry_views(items.entries()),
                id,
            ).unwrap(),
{
    broadcast use vstd::std_specs::hash::group_hash_axioms;

    let ghost list = entry_views(items.entries());
    let mut by_id: HashMap<InterfaceId, &String> = HashMap::new();
    let n: usize = names::len(items);
    for i in 0..n
        invariant
            n == list.len(),
            list == entry_views(items.entries()),
            interfaces_once(list),
            forall|id: InterfaceId|
                #[trigger] by_id@.contains_key(id) <==> first_where(
                    i as nat,
                    stands_for(list, id),
                ).is_some(),
            forall|id: InterfaceId| #[trigger]
                by_id@.contains_key(id) ==> by_id@[id]@ == list[first_where(
                    i as nat,
                    stands_for(list, id),
                ).unwrap()].0,
    {
        let (name, item) = names::entry(items, i);
        assert(list[i as int] == (name@, item@));
        let ghost before = by_id@;
        if let WorldItem::Interface(id) = item {
            proof {
                lemma_first_where(i as nat, stands_for(list, *id));
                if let Some(j) = first_where(i as nat, stands_for(list, *id)) {
                    assert(stands_for(list, *id)(j));
                    assert(list[j].1 == list[i as int].1);
                }
            }
            let prev = by_id.insert(*id, name);
            runtime_assert(prev.is_none());
        }
        assert forall|id: InterfaceId| #[trigger] by_id@.contains_key(id) <==> first_where(
            (i + 1) as nat,
            stands_for(list, id),
        ).is_some() by {
            assert(before.contains_key(id) <==> first_where(
                i as nat,
                stands_for(list, id),
            ).is_some());
        }
        assert forall|id: InterfaceId| #[trigger] by_id@.contains_key(id) implies by_id@[id]@
            == list[first_where((i + 1) as nat, stands_for(list, id)).unwrap()].0 by {
            assert(before.contains_key(id) <==> first_where(
                i as nat,
                stands_for(list, id),
            ).is_some());
        }
    }
    by_id
}

/// Looks for an interface that both worlds import, but under different names.
fn check_imports(from: &IndexMap<String, WorldItem>, into: &IndexMap<String, WorldItem>) -> (result:
    Result<(), Error>)
    requires
        interfaces_once(entry_views(into.entries())),
    ensures
        match (result, first_where(
            from.entries().len(),
            renamed_import(entry_views(from.entries()), entry_views(into.entries())),
        )) {
            (Ok(_), None) => true,
            (Err(error), Some(i)) => error@ == failure(
                "import `"@ + from.entries()[i].0 + "` conflicts with previous name of `"@
                    + name_of_interface(
                    entry_views(into.entries()),
                    entry_views(from.entries())[i].1->Interface_0,
                ).unwrap() + "`"@,
            ),
            _ => false,
        },
{
    broadcast use vstd::std_specs::hash::group_hash_axioms;

    let by_id = names_by_id(into);
    let ghost from_list = entry_views(from.entries());
    let ghost into_list = entry_views(into.entries());
    let ghost wrong = renamed_import(from_list, into_list);
    let n: usize = names::len(from);
    for i in 0..n
        invariant
            n == from.entries().len(),
            from_list == entry_views(from.entries()),
            into_list == entry_views(into.entries()),
            wrong == renamed_import(from_list, into_list),
            forall|id: InterfaceId|
                #[trigger] by_id@.contains_key(id) <==> name_of_interface(into_list, id).is_some(),
            forall|id: InterfaceId| #[trigger]
                by_id@.contains_key(id) ==> by_id@[id]@ == name_of_interface(into_list, id).unwrap(),
            first_where(i as nat, wrong).is_none(),
    {
        let (name, import) = names::entry(from, i);
        assert(from_list[i as int] == (name@, import@));
        proof {
            lemma_first_where_stops((i + 1) as nat, n as nat, wrong);
        }
        // If the "from" world imports an interface which is already imported by the "into" world
        // then this is allowed if the names are the same. Importing the same interface under
        // different names isn't allowed, but otherwise merging imports of same-named-interfaces is
        // allowed to merge them together.
        if let WorldItem::Interface(id) = import {
            if let Some(prev) = by_id.get(id) {
                if **prev != *name {
                    assert(wrong(i as int));
                    let mut msg = sentence(
                        "import `",
                        name.as_str(),
                        "` conflicts with previous name of `",
                    );
                    msg.append(prev.as_str());
                    msg.append("`");
                    return Err(Error::new(msg));
                }
            }
        }
        assert(!wrong(i as int));
    }
    Ok(())
}

/// Looks for an interface that both worlds export. Note that unlike imports same-named exports are
/// not allowed since if something is exported twice there's no way to "unify" it so it's left as an
/// error.
fn check_exports(from: &IndexMap<String, WorldItem>, into: &IndexMap<String, WorldItem>) -> (result:
    Result<(), Error>)
    requires
        interfaces_once(entry_views(into.entries())),
    ensures
        match (result, first_where(
            from.entries().len(),
            repeated_export(entry_views(from.entries()), entry_views(into.entries())),
        )) {
            (Ok(_), None) => true,
            (Err(error), Some(i)) => error@ == failure(
                "export `"@ + from.entries()[i].0 + "` conflicts with previous name of `"@
                    + name_of_interface(
                    entry_views(into.entries()),
                    entry_views(from.entries())[i].1->Interface_0,
                ).unwrap() + "`"@,
            ),
            _ => false,
        },
{
    broadcast use vstd::std_specs::hash::group_hash_axioms;

    let by_id = names_by_id(into);
    let ghost from_list = entry_views(from.entries());
    let ghost into_list = entry_views(into.entries());
    let ghost wrong = repeated_export(from_list, into_list);
    let n: usize = names::len(from);
    for i in 0..n
        invariant
            n == from.entries().len(),
            from_list == entry_views(from.entries()),
            into_list == entry_views(into.entries()),
            wrong == repeated_export(from_list, into_list),
            forall|id: InterfaceId|
                #[trigger] by_id@.contains_key(id) <==> name_of_interface(into_list, id).is_some(),
            forall|id: InterfaceId| #[trigger]
                by_id@.contains_key(id) ==> by_id@[id]@ == name_of_interface(into_list, id).unwrap(),
            first_where(i as nat, wrong).is_none(),
    {
        let (name, export) = names::entry(from, i);
        assert(from_list[i as int] == (name@, export@));
        proof {
            lemma_first_where_stops((i + 1) as nat, n as nat, wrong);
        }
        if let WorldItem::Interface(id) = export {
            if let Some(prev) = by_id.get(id) {
                assert(wrong(i as int));
                let mut msg = sentence(
                    "export `",
                    name.as_str(),
                    "` conflicts with previous name of `",
                );
                msg.append(prev.as_str());
                msg.append("`");
                return Err(Error::new(msg));
            }
        }
        assert(!wrong(i as int));
    }
    Ok(())
}

/// What [`missing`] lists.
pub proof fn lemma_missing(from: ItemList, into: ItemList)
    ensures
        forall|j: int|
            0 <= j < missing(from, into).len() ==> find(
                into,
                (#[trigger] missing(from, into)[j]).0,
            ).is_none() && exists|k: int|
                0 <= k < from.len() && from[k] == missing(from, into)[j],
        distinct(from) ==> distinct(missing(from, into)),
    decreases from.len(),
{
    reveal(Seq::filter);
    if from.len() > 0 {
        let front = from.drop_last();
        lemma_missing(front, into);
        let rest = missing(front, into);
        assert forall|j: int| 0 <= j < missing(from, into).len() implies find(
            into,
            (#[trigger] missing(from, into)[j]).0,
        ).is_none() && exists|k: int|
            0 <= k < from.len() && from[k] == missing(from, into)[j] by {
            if j < rest.len() {
                assert(missing(from, into)[j] == rest[j]);
                let k = choose|k: int| 0 <= k < front.len() && front[k] == rest[j];
                assert(from[k] == missing(from, into)[j]);
            } else {
                assert(from[from.len() - 1] == missing(from, into)[j]);
            }
        }
        if distinct(from) {
            assert(distinct(front)) by {
                assert forall|i: int, j: int|
                    #![trigger front[i], front[j]]
                    0 <= i < j < front.len() implies front[i].0 != front[j].0 by {
                    assert(front[i] == from[i] && front[j] == from[j]);
                }
            }
            let all = missing(from, into);
            assert forall|i: int, j: int|
                #![trigger all[i], all[j]]
                0 <= i < j < all.len() implies all[i].0 != all[j].0 by {
                assert(all[i] == rest[i]);
                if j < rest.len() {
                    assert(all[j] == rest[j]);
                } else {
                    let k = choose|k: int| 0 <= k < front.len() && front[k] == rest[i];
                    assert(from[k] == rest[i]);
                    assert(all[j] == from[from.len() - 1]);
                }
            }
        }
    }
}

/// One more item is missing or not.
proof fn lemma_missing_push(from: ItemList, into: ItemList, n: int)
    requires
        0 <= n < from.len(),
    ensures
        missing(from.take(n + 1), into) == if find(into, from[n].0).is_none() {
            missing(from.take(n), into).push(from[n])
        } else {
            missing(from.take(n), into)
        },
{
    reveal(Seq::filter);
    assert(from.take(n + 1).drop_last() =~= from.take(n));
}

/// Walks over the imports of one world and queues up those to get inserted into the other.
fn new_imports(from: &IndexMap<String, WorldItem>, into: &IndexMap<String, WorldItem>) -> (result:
    Result<Vec<(String, WorldItem)>, Error>)
    ensures
        match (result, first_where(
            from.entries().len(),
            clashing_import(entry_views(from.entries()), entry_views(into.entries())),
        )) {
            (Ok(new), None) => item_pairs(new@) == missing(
                entry_views(from.entries()),
                entry_views(into.entries()),
            ),
            (Err(error), Some(i)) => error@ == failure(
                "duplicate import found for interface `"@ + from.entries()[i].0 + "`"@,
            ),
            _ => false,
        },
{
    let ghost from_list = entry_views(from.entries());
    let ghost into_list = entry_views(into.entries());
    let ghost wrong = clashing_import(from_list, into_list);
    let mut new: Vec<(String, WorldItem)> = Vec::new();
    let n: usize = names::len(from);
    proof {
        reveal(Seq::filter);
        assert(item_pairs(new@) =~= missing(from_list.take(0), into_list));
    }
    for i in 0..n
        invariant
            n == from.entries().len(),
            from_list == entry_views(from.entries()),
            into_list == entry_views(into.entries()),
            wrong == clashing_import(from_list, into_list),
            first_where(i as nat, wrong).is_none(),
            item_pairs(new@) == missing(from_list.take(i as int), into_list),
    {
        let (name, from_import) = names::entry(from, i);
        assert(from_list[i as int] == (name@, from_import@));
        proof {
            lemma_first_where_stops((i + 1) as nat, n as nat, wrong);
            lemma_missing_push(from_list, into_list, i as int);
            lemma_find_same(into.entries(), into_list, name@);
            lemma_find(into_list, name@);
        }
        match names::get(into, name.as_str()) {
            Some(into_import) => {
                proof {
                    let j = find(into_list, name@).unwrap();
                    assert(into_list[j].1 == into_import@);
                }
                // If these imports, which have the same name, are of the same interface then union
                // them together at this point.
                let same = match (from_import, into_import) {
                    (WorldItem::Interface(from_id), WorldItem::Interface(into_id)) => *from_id
                        == *into_id,
                    _ => false,
                };
                assert(wrong(i as int) == !same);
                if !same {
                    let msg = sentence(
                        "duplicate import found for interface `",
                        name.as_str(),
                        "`",
                    );
                    return Err(Error::new(msg));
                }
            },
            None => {
                assert(!wrong(i as int));
                let ghost before = new@;
                new.push((name.clone(), from_import.clone()));
                assert(item_pairs(new@) =~= item_pairs(before).push((name@, from_import@)));
            },
        }
    }
    assert(from_list.take(n as int) =~= from_list);
    Ok(new)
}

/// Walks over the exports of one world and queues up those to get inserted into the other. All
/// exports must be unique. For example the same interface exported from two locations can't really
/// be resolved to one canonical definition, so make sure that merging worlds only succeeds if the
/// worlds have disjoint sets of exports.
fn new_exports(from: &IndexMap<String, WorldItem>, into: &IndexMap<String, WorldItem>) -> (result:
    Result<Vec<(String, WorldItem)>, Error>)
    ensures
        match (result, first_where(
            from.entries().len(),
            clashing_export(entry_views(from.entries()), entry_views(into.entries())),
        )) {
            (Ok(new), None) => item_pairs(new@) == missing(
                entry_views(from.entries()),
                entry_views(into.entries()),
            ),
            (Err(error), Some(i)) => error@ == failure(
                "duplicate export found for interface `"@ + from.entries()[i].0 + "`"@,
            ),
            _ => false,
        },
{
    let ghost from_list = entry_views(from.entries());
    let ghost into_list = entry_views(into.entries());
    let ghost wrong = clashing_export(from_list, into_list);
    let mut new: Vec<(String, WorldItem)> = Vec::new();
    let n: usize = names::len(from);
    proof {
        reveal(Seq::filter);
        assert(item_pairs(new@) =~= missing(from_list.take(0), into_list));
    }
    for i in 0..n
        invariant
            n == from.entries().len(),
            from_list == entry_views(from.entries()),
            into_list == entry_views(into.entries()),
            wrong == clashing_export(from_list, into_list),
            first_where(i as nat, wrong).is_none(),
            item_pairs(new@) == missing(from_list.take(i as int), into_list),
    {
        let (name, export) = names::entry(from, i);
        assert(from_list[i as int] == (name@, export@));
        proof {
            lemma_first_where_stops((i + 1) as nat, n as nat, wrong);
            lemma_missing_push(from_list, into_list, i as int);
            lemma_find_same(into.entries(), into_list, name@);
            lemma_find(into_list, name@);
        }
        match names::get(into, name.as_str()) {
            Some(_) => {
                assert(wrong(i as int));
                let msg = sentence("duplicate export found for interface `", name.as_str(), "`");
                return Err(Error::new(msg));
            },
            None => {
                assert(!wrong(i as int));
                let ghost before = new@;
                new.push((name.clone(), export.clone()));
                assert(item_pairs(new@) =~= item_pairs(before).push((name@, export@)));
            },
        }
    }
    assert(from_list.take(n as int) =~= from_list);
    Ok(new)
}

/// Inserts items under names that are free.
fn add_items(items: &mut IndexMap<String, WorldItem>, new: Vec<(String, WorldItem)>)
    requires
        distinct(item_pairs(new@)),
        forall|j: int|
            0 <= j < new@.len() ==> find(
                entry_views(old(items).entries()),
                (#[trigger] item_pairs(new@)[j]).0,
            ).is_none(),
    ensures
        entry_views(final(items).entries()) == entry_views(old(items).entries()) + item_pairs(new@),
{
    let ghost before = entry_views(items.entries());
    let ghost all = new@;
    let ghost pairs = item_pairs(all);
    let n: usize = new.len();
    let mut k: usize = 0;
    assert(entry_views(items.entries()) =~= before + pairs.take(0));
    for item in it: new
        invariant
            it.seq() == all,
            n == all.len(),
            k == it.index(),
            pairs == item_pairs(all),
            distinct(pairs),
            forall|j: int|
                0 <= j < pairs.len() ==> find(before, (#[trigger] pairs[j]).0).is_none(),
            entry_views(items.entries()) == before + pairs.take(k as int),
    {
        assert(pairs[k as int] == (item.0@, item.1@));
        proof {
            let entries = items.entries();
            lemma_find_same(entries, before + pairs.take(k as int), item.0@);
            lemma_find(before + pairs.take(k as int), item.0@);
            lemma_find(before, item.0@);
            if let Some(i) = find(before + pairs.take(k as int), item.0@) {
                if i < before.len() {
                    assert(before[i].0 == item.0@);
                } else {
                    assert(pairs[i - before.len()].0 == item.0@);
                }
            }
            assert(entry_views(entries.push((item.0@, item.1))) =~= entry_views(entries).push(
                (item.0@, item.1@),
            ));
            assert(before + pairs.take(k + 1) =~= (before + pairs.take(k as int)).push(
                pairs[k as int],
            ));
        }
        let prev = names::insert(items, item.0, item.1);
        runtime_assert(prev.is_none());
        k = k + 1;
    }
    assert(pairs.take(n as int) =~= pairs);
}

impl Resolve {
    /// Merges the world `from` into the world `into`.
    ///
    /// This will attempt to merge one world into another, unioning all of its imports and exports
    /// together. This is an operation performed by `wit-component`, for example where two different
    /// worlds from two different libraries were linked into the same core wasm file and are
    /// producing a singular world that will be the final component's interface.
    ///
    /// This operation can fail if the imports/exports overlap.
    pub fn merge_worlds(&mut self, from: WorldId, into: WorldId) -> (result: Result<(), Error>)
        requires
            old(self)@.usable(),
            from < old(self)@.worlds.len(),
            into < old(self)@.worlds.len(),
            interfaces_once(old(self)@.worlds[into as int].imports),
            interfaces_once(old(self)@.worlds[into as int].exports),
        ensures
            (final(self)@, outcome(result)) == worlds_merged(old(self)@, from, into),
            final(self)@.usable(),
            old(self)@.valid() ==> final(self)@.valid(),
    {
        let ghost before = self@;
        proof {
            merging_worlds_keeps_valid(before, from, into);
        }
        let from_world = arena::item(&self.worlds, from);
        let into_world = arena::item(&self.worlds, into);
        assert(from_world@ == before.worlds[from as int]);
        assert(into_world@ == before.worlds[into as int]);
        assert(before.world_usable(from as int));
        proof {
            let (a, b) = (from_world@, into_world@);
            lemma_first_where(a.imports.len(), renamed_import(a.imports, b.imports));
            lemma_first_where(a.exports.len(), repeated_export(a.exports, b.exports));
            lemma_first_where(a.imports.len(), clashing_import(a.imports, b.imports));
            lemma_first_where(a.exports.len(), clashing_export(a.exports, b.exports));
        }
        if let Err(error) = check_imports(&from_world.imports, &into_world.imports) {
            return Err(error);
        }
        if let Err(error) = check_exports(&from_world.exports, &into_world.exports) {
            return Err(error);
        }
        let new_imports = match new_imports(&from_world.imports, &into_world.imports) {
            Ok(new) => new,
            Err(error) => return Err(error),
        };
        let new_exports = match new_exports(&from_world.exports, &into_world.exports) {
            Ok(new) => new,
            Err(error) => return Err(error),
        };
        proof {
            lemma_missing(from_world@.imports, into_world@.imports);
            lemma_missing(from_world@.exports, into_world@.exports);
        }
        let ghost worlds = self.worlds.items();
        let ghost union = union_of(from_world@, into_world@);
        let into_world = arena::item_mut(&mut self.worlds, into);
        add_items(&mut into_world.imports, new_imports);
        add_items(&mut into_world.exports, new_exports);
        assert(views(self.worlds.items()) =~= views(worlds).update(into as int, union));
        assert(self@ =~= worlds_merged(before, from, into).0);
        Ok(())
    }
}

/// Every item whose name is free is missing.
pub proof fn lemma_missing_all(from: ItemList, into: ItemList, k: int)
    requires
        0 <= k < from.len(),
        find(into, from[k].0).is_none(),
    ensures
        missing(from, into).contains(from[k]),
    decreases from.len(),
{
    reveal(Seq::filter);
    let front = from.drop_last();
    if k < front.len() {
        lemma_missing_all(front, into, k);
        let rest = missing(front, into);
        let j = choose|j: int| 0 <= j < rest.len() && rest[j] == front[k];
        assert(missing(from, into)[j] == from[k]);
    } else {
        let rest = missing(front, into);
        assert(missing(from, into)[rest.len() as int] == from[k]);
    }
}

/// Merging one world into another leaves a usable resolve usable, and a valid one valid.
pub proof fn merging_worlds_keeps_valid(resolve: ResolveView, from: WorldId, into: WorldId)
    requires
        resolve.usable(),
        from < resolve.worlds.len(),
        into < resolve.worlds.len(),
    ensures
        worlds_merged(resolve, from, into).0.usable(),
        resolve.valid() ==> worlds_merged(resolve, from, into).0.valid(),
{
    let (a, b) = (resolve.worlds[from as int], resolve.worlds[into as int]);
    let after = worlds_merged(resolve, from, into).0;
    assert(resolve.world_usable(from as int));
    assert(resolve.world_usable(into as int));
    lemma_union_valid(a.imports, b.imports, resolve.interfaces.len(), resolve.types.len());
    lemma_union_valid(a.exports, b.exports, resolve.interfaces.len(), resolve.types.len());
    assert forall|i: int| 0 <= i < after.types.len() implies #[trigger] after.type_usable(i) by {
        assert(resolve.type_usable(i));
    }
    assert forall|i: int| 0 <= i < after.interfaces.len() implies
        #[trigger] after.interface_usable(i) by {
        assert(resolve.interface_usable(i));
    }
    assert forall|i: int| 0 <= i < after.worlds.len() implies #[trigger] after.world_usable(i) by {
        assert(resolve.world_usable(i));
    }
    if resolve.valid() {
        assert forall|i: int| 0 <= i < after.types.len() implies #[trigger] after.type_valid(i) by {
            assert(resolve.type_valid(i));
        }
        assert forall|i: int| 0 <= i < after.interfaces.len() implies
            #[trigger] after.interface_valid(i) by {
            assert(resolve.interface_valid(i));
        }
        assert forall|i: int| 0 <= i < after.worlds.len() implies #[trigger] after.world_valid(
            i,
        ) by {
            assert(resolve.world_valid(i));
        }
    }
    assert forall|i: int| 0 <= i < after.documents.len() implies #[trigger] after.document_valid(
        i,
    ) by {
        assert(resolve.document_valid(i));
    }
    assert forall|i: int| 0 <= i < after.packages.len() implies #[trigger] after.package_valid(
        i,
    ) by {
        assert(resolve.package_valid(i));
    }
}

/// The union of two lists holds items that are there, under different names.
proof fn lemma_union_valid(from: ItemList, into: ItemList, interfaces: nat, types: nat)
    requires
        items_within(from, interfaces, types),
        items_within(into, interfaces, types),
        distinct(from),
        distinct(into),
    ensures
        items_within(into + missing(from, into), interfaces, types),
        distinct(into + missing(from, into)),
{
    let new = missing(from, into);
    let all = into + new;
    lemma_missing(from, into);
    assert forall|i: int| 0 <= i < all.len() implies item_within(
        (#[trigger] all[i]).1,
        interfaces,
        types,
    ) by {
        if i < into.len() {
            assert(all[i] == into[i]);
        } else {
            let j = i - into.len();
            assert(all[i] == new[j]);
            let k = choose|k: int| 0 <= k < from.len() && from[k] == new[j];
            assert(item_within(from[k].1, interfaces, types));
        }
    }
    assert forall|i: int, j: int|
        #![trigger all[i], all[j]]
        0 <= i < j < all.len() implies all[i].0 != all[j].0 by {
        if j < into.len() {
            assert(all[i] == into[i] && all[j] == into[j]);
        } else if i < into.len() {
            assert(all[j] == new[j - into.len()]);
            assert(find(into, new[j - into.len()].0).is_none());
            lemma_find(into, all[j].0);
            assert(all[i] == into[i]);
        } else {
            assert(all[i] == new[i - into.len()] && all[j] == new[j - into.len()]);
        }
    }
}

/// A world that another one was merged into imports and exports everything that either of the two
/// did, under the same names.
pub proof fn merged_worlds_hold_both(resolve: ResolveView, from: WorldId, into: WorldId)
    requires
        resolve.usable(),
        from < resolve.worlds.len(),
        into < resolve.worlds.len(),
    ensures
        worlds_merged(resolve, from, into) matches (after, Ok(_)) ==> {
            let a = resolve.worlds[from as int];
            let b = resolve.worlds[into as int];
            let union = after.worlds[into as int];
            &&& b.imports.is_prefix_of(union.imports)
            &&& b.exports.is_prefix_of(union.exports)
            &&& forall|i: int|
                0 <= i < a.imports.len() ==> union.imports.contains(#[trigger] a.imports[i])
            &&& forall|i: int|
                0 <= i < a.exports.len() ==> union.exports.contains(#[trigger] a.exports[i])
        },
{
    let (a, b) = (resolve.worlds[from as int], resolve.worlds[into as int]);
    if union_error(a, b).is_none() {
        let union = union_of(a, b);
        lemma_first_where(a.imports.len(), clashing_import(a.imports, b.imports));
        lemma_first_where(a.exports.len(), clashing_export(a.exports, b.exports));
        assert forall|i: int| 0 <= i < a.imports.len() implies union.imports.contains(
            #[trigger] a.imports[i],
        ) by {
            let wrong = clashing_import(a.imports, b.imports);
            assert(!wrong(i));
            lemma_find(b.imports, a.imports[i].0);
            if let Some(j) = find(b.imports, a.imports[i].0) {
                assert(union.imports[j] == a.imports[i]);
            } else {
                lemma_missing_all(a.imports, b.imports, i);
                let new = missing(a.imports, b.imports);
                let j = choose|j: int| 0 <= j < new.len() && new[j] == a.imports[i];
                assert(union.imports[b.imports.len() + j] == a.imports[i]);
            }
        }
        assert forall|i: int| 0 <= i < a.exports.len() implies union.exports.contains(
            #[trigger] a.exports[i],
        ) by {
            let wrong = clashing_export(a.exports, b.exports);
            assert(!wrong(i));
            lemma_missing_all(a.exports, b.exports, i);
            let new = missing(a.exports, b.exports);
            let j = choose|j: int| 0 <= j < new.len() && new[j] == a.exports[i];
            assert(union.exports[b.exports.len() + j] == a.exports[i]);
        }
    }
}

/// If neither of two worlds imports or exports an interface twice then their union does not either.
pub proof fn merged_worlds_list_once(resolve: ResolveView, from: WorldId, into: WorldId)
    requires
        resolve.usable(),
        from < resolve.worlds.len(),
        into < resolve.worlds.len(),
        interfaces_once(resolve.worlds[from as int].imports),
        interfaces_once(resolve.worlds[from as int].exports),
        interfaces_once(resolve.worlds[into as int].imports),
        interfaces_once(resolve.worlds[into as int].exports),
    ensures
        worlds_merged(resolve, from, into) matches (after, Ok(_)) ==> {
            &&& interfaces_once(after.worlds[into as int].imports)
            &&& interfaces_once(after.worlds[into as int].exports)
        },
{
    let (a, b) = (resolve.worlds[from as int], resolve.worlds[into as int]);
    assert(resolve.world_usable(from as int));
    if union_error(a, b).is_none() {
        let renamed = renamed_import(a.imports, b.imports);
        let repeated = repeated_export(a.exports, b.exports);
        lemma_first_where(a.imports.len(), renamed);
        lemma_first_where(a.exports.len(), repeated);
        assert forall|k: int, j: int|
            0 <= k < a.imports.len() && 0 <= j < b.imports.len() && find(
                b.imports,
                a.imports[k].0,
            ).is_none() && b.imports[j].1 is Interface implies #[trigger] a.imports[k].1
            != #[trigger] b.imports[j].1 by {
            assert(!renamed(k));
            if a.imports[k].1 == b.imports[j].1 {
                let id = a.imports[k].1->Interface_0;
                lemma_named_interface(b.imports, id, j);
                lemma_find(b.imports, a.imports[k].0);
            }
        }
        assert forall|k: int, j: int|
            0 <= k < a.exports.len() && 0 <= j < b.exports.len() && b.exports[j].1
                is Interface implies #[trigger] a.exports[k].1 != #[trigger] b.exports[j].1 by {
            assert(!repeated(k));
            if a.exports[k].1 == b.exports[j].1 {
                lemma_named_interface(b.exports, a.exports[k].1->Interface_0, j);
            }
        }
        lemma_union_once(a.imports, b.imports);
        lemma_union_once(a.exports, b.exports);
    }
}

/// An interface that stands in a list has a name there.
pub proof fn lemma_named_interface(items: ItemList, id: InterfaceId, j: int)
    requires
        0 <= j < items.len(),
        items[j].1 == ItemView::Interface(id),
    ensures
        name_of_interface(items, id) matches Some(name) && exists|i: int|
            0 <= i < items.len() && (#[trigger] items[i]).0 == name && items[i].1
                == ItemView::Interface(id),
{
    lemma_first_where(items.len(), stands_for(items, id));
    assert(stands_for(items, id)(j));
}

proof fn lemma_union_once(from: ItemList, into: ItemList)
    requires
        interfaces_once(from),
        interfaces_once(into),
        distinct(from),
        forall|k: int, j: int|
            0 <= k < from.len() && 0 <= j < into.len() && find(into, from[k].0).is_none()
                && into[j].1 is Interface ==> #[trigger] from[k].1 != #[trigger] into[j].1,
    ensures
        interfaces_once(into + missing(from, into)),
{
    let new = missing(from, into);
    let all = into + new;
    lemma_missing(from, into);
    assert forall|i: int, j: int|
        #![trigger all[i], all[j]]
        0 <= i < j < all.len() && all[i].1 is Interface implies all[i].1 != all[j].1 by {
        if j < into.len() {
            assert(all[i] == into[i] && all[j] == into[j]);
        } else {
            let b = j - into.len();
            assert(all[j] == new[b]);
            assert(find(into, new[b].0).is_none());
            let l = choose|l: int| 0 <= l < from.len() && from[l] == new[b];
            if i < into.len() {
                assert(all[i] == into[i]);
                assert(from[l].1 != into[i].1);
            } else {
                let a = i - into.len();
                assert(all[i] == new[a]);
                let k = choose|k: int| 0 <= k < from.len() && from[k] == new[a];
                assert(new[a].0 != new[b].0);
                assert(from[k].1 != from[l].1);
            }
        }
    }
}

} // verus!
