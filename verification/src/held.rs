//! What matched interfaces and worlds hold: all that the ones hold that they are matched with.
use vstd::prelude::*;

use crate::matching::{
    find_package, matched, matched_document_interfaces, matched_document_worlds, matched_documents,
    matched_functions, matched_interface, matched_item, matched_items, matched_packages,
    matched_types, matched_world, Plan,
};
use crate::names::{find, lookup};
use crate::resolve::ResolveView;
use crate::types::{DocumentId, InterfaceId, InterfaceView, ItemView, PackageId, TypeId, WorldId};
use crate::worlds::ItemList;

verus! {

/// Every function of one interface has a counterpart of the same name in another.
pub open spec fn functions_found(from: InterfaceView, into: InterfaceView) -> bool {
    forall|j: int|
        0 <= j < from.functions.len() ==> find(
            into.functions,
            (#[trigger] from.functions[j]).0,
        ).is_some()
}

impl Plan {
    /// An item has a counterpart of the same name and kind in a list. If it is an interface or a
    /// type then it is matched with that one.
    pub open spec fn item_held(self, entry: (Seq<char>, ItemView), items: ItemList) -> bool {
        lookup(items, entry.0) matches Some(other) && match (entry.1, other) {
            (ItemView::Interface(x), ItemView::Interface(y)) => self.interfaces.contains_key(x)
                && self.interfaces[x] == y,
            (ItemView::Function(_), ItemView::Function(_)) => true,
            (ItemView::Type(x), ItemView::Type(y)) => self.types.contains_key(x) && self.types[x]
                == y,
            _ => false,
        }
    }

    pub open spec fn items_held(self, from: ItemList, into: ItemList, n: nat) -> bool {
        forall|j: int| 0 <= j < n ==> self.item_held(#[trigger] from[j], into)
    }

    /// A world imports and exports what the one does that it is matched with.
    pub open spec fn world_held(self, from: ResolveView, into: ResolveView, w: WorldId) -> bool {
        let a = from.worlds[w as int];
        let b = into.worlds[self.worlds[w] as int];
        &&& a.imports.len() == b.imports.len()
        &&& a.exports.len() == b.exports.len()
        &&& self.items_held(a.imports, b.imports, a.imports.len())
        &&& self.items_held(a.exports, b.exports, a.exports.len())
    }

    pub open spec fn interfaces_held(self, from: ResolveView, into: ResolveView) -> bool {
        forall|i: InterfaceId| #[trigger]
            self.interfaces.contains_key(i) ==> functions_found(
                from.interfaces[i as int],
                into.interfaces[self.interfaces[i] as int],
            )
    }

    pub open spec fn worlds_held(self, from: ResolveView, into: ResolveView) -> bool {
        forall|w: WorldId| #[trigger]
            self.worlds.contains_key(w) ==> self.world_held(from, into, w)
    }

    /// No interface, no type and no world is matched with another one than before.
    pub open spec fn grew(self, before: Plan) -> bool {
        &&& forall|t: TypeId| #[trigger]
            before.types.contains_key(t) ==> self.types.contains_key(t) && self.types[t]
                == before.types[t]
        &&& forall|i: InterfaceId| #[trigger]
            before.interfaces.contains_key(i) ==> self.interfaces.contains_key(i)
                && self.interfaces[i] == before.interfaces[i]
        &&& forall|w: WorldId| #[trigger]
            before.worlds.contains_key(w) ==> self.worlds.contains_key(w) && self.worlds[w]
                == before.worlds[w]
    }

    /// What was held still is.
    proof fn lemma_items_held_more(self, before: Plan, from: ItemList, into: ItemList, n: nat)
        requires
            self.grew(before),
            before.items_held(from, into, n),
        ensures
            self.items_held(from, into, n),
    {
        assert forall|j: int| 0 <= j < n implies self.item_held(#[trigger] from[j], into) by {
            assert(before.item_held(from[j], into));
        }
    }

    proof fn lemma_world_held_more(
        self,
        before: Plan,
        from: ResolveView,
        into: ResolveView,
        w: WorldId,
    )
        requires
            self.grew(before),
            before.worlds.contains_key(w),
            before.world_held(from, into, w),
        ensures
            self.world_held(from, into, w),
    {
        let a = from.worlds[w as int];
        let b = into.worlds[self.worlds[w] as int];
        self.lemma_items_held_more(before, a.imports, b.imports, a.imports.len());
        self.lemma_items_held_more(before, a.exports, b.exports, a.exports.len());
    }
}

proof fn lemma_types_held(plan: Plan, from: InterfaceView, into: InterfaceView, n: nat)
    ensures
        matched_types(plan, from, into, n) matches Ok(after) ==> after.interfaces
            == plan.interfaces && after.worlds == plan.worlds && after.grew(plan),
    decreases n,
{
    if n > 0 {
        lemma_types_held(plan, from, into, (n - 1) as nat);
    }
}

proof fn lemma_functions_held(plan: Plan, from: InterfaceView, into: InterfaceView, n: nat)
    ensures
        matched_functions(plan, from, into, n) matches Ok(after) ==> {
            &&& after == plan
            &&& forall|j: int|
                0 <= j < n ==> find(into.functions, (#[trigger] from.functions[j]).0).is_some()
        },
    decreases n,
{
    if n > 0 {
        lemma_functions_held(plan, from, into, (n - 1) as nat);
    }
}

proof fn lemma_interface_held(
    plan: Plan,
    from: ResolveView,
    into: ResolveView,
    from_id: InterfaceId,
    into_id: InterfaceId,
)
    requires
        plan.interfaces_held(from, into),
    ensures
        matched_interface(plan, from, into, from_id, into_id) matches Ok(after) ==> {
            &&& after.interfaces == plan.interfaces.insert(from_id, into_id)
            &&& after.worlds == plan.worlds
            &&& after.grew(plan)
            &&& after.interfaces_held(from, into)
        },
{
    let a = from.interfaces[from_id as int];
    let b = into.interfaces[into_id as int];
    if let Ok(paired) = plan.with_interface(from_id, into_id) {
        lemma_types_held(paired, a, b, a.types.len());
        if let Ok(typed) = matched_types(paired, a, b, a.types.len()) {
            lemma_functions_held(typed, a, b, a.functions.len());
            assert forall|t: TypeId| #[trigger] plan.types.contains_key(t) implies
                typed.types.contains_key(t) && typed.types[t] == plan.types[t] by {
                assert(paired.types.contains_key(t));
            }
        }
    }
}

proof fn lemma_items_held(
    plan: Plan,
    from: ResolveView,
    into: ResolveView,
    desc: Seq<char>,
    from_items: ItemList,
    into_items: ItemList,
    n: nat,
)
    requires
        plan.interfaces_held(from, into),
    ensures
        matched_items(plan, from, into, desc, from_items, into_items, n) matches Ok(after) ==> {
            &&& after.worlds == plan.worlds
            &&& after.grew(plan)
            &&& after.interfaces_held(from, into)
            &&& after.items_held(from_items, into_items, n)
        },
    decreases n,
{
    if n > 0 {
        let m = (n - 1) as nat;
        lemma_items_held(plan, from, into, desc, from_items, into_items, m);
        if let Ok(before) = matched_items(plan, from, into, desc, from_items, into_items, m) {
            if let Some(other) = lookup(into_items, from_items[n - 1].0) {
                let item = from_items[n - 1].1;
                if let (ItemView::Interface(x), ItemView::Interface(y)) = (item, other) {
                    lemma_interface_held(before, from, into, x, y);
                }
                if let Ok(after) = matched_item(before, from, into, item, other) {
                    assert(after.worlds == before.worlds);
                    assert(after.grew(before));
                    after.lemma_items_held_more(before, from_items, into_items, m);
                    assert(after.item_held(from_items[n - 1], into_items));
                }
            }
        }
    }
}

proof fn lemma_world_held(
    plan: Plan,
    from: ResolveView,
    into: ResolveView,
    from_id: WorldId,
    into_id: WorldId,
)
    requires
        plan.interfaces_held(from, into),
        plan.worlds_held(from, into),
    ensures
        matched_world(plan, from, into, from_id, into_id) matches Ok(after) ==> {
            &&& after.grew(plan)
            &&& after.interfaces_held(from, into)
            &&& after.worlds_held(from, into)
        },
{
    let a = from.worlds[from_id as int];
    let b = into.worlds[into_id as int];
    let m = a.imports.len();
    let n = a.exports.len();
    if let Ok(paired) = plan.with_world(from_id, into_id) {
        lemma_items_held(paired, from, into, "import"@, a.imports, b.imports, m);
        if let Ok(first) = matched_items(
            paired,
            from,
            into,
            "import"@,
            a.imports,
            b.imports,
            m,
        ) {
            lemma_items_held(first, from, into, "export"@, a.exports, b.exports, n);
            if let Ok(after) = matched_world(plan, from, into, from_id, into_id) {
                after.lemma_items_held_more(first, a.imports, b.imports, m);
                assert(paired.grew(plan));
                assert forall|w: WorldId| #[trigger]
                    plan.worlds.contains_key(w) implies after.worlds.contains_key(w)
                    && after.worlds[w] == plan.worlds[w] by {
                    assert(paired.worlds.contains_key(w));
                }
                assert forall|t: TypeId| #[trigger] plan.types.contains_key(t) implies
                    after.types.contains_key(t) && after.types[t] == plan.types[t] by {
                    assert(paired.types.contains_key(t));
                    assert(first.types.contains_key(t));
                }
                assert forall|i: InterfaceId| #[trigger]
                    plan.interfaces.contains_key(i) implies after.interfaces.contains_key(i)
                    && after.interfaces[i] == plan.interfaces[i] by {
                    assert(paired.interfaces.contains_key(i));
                    assert(first.interfaces.contains_key(i));
                }
                assert forall|w: WorldId| #[trigger]
                    after.worlds.contains_key(w) implies after.world_held(from, into, w) by {
                    if w != from_id {
                        assert(plan.worlds.contains_key(w));
                        after.lemma_world_held_more(plan, from, into, w);
                    }
                }
            }
        }
    }
}

/// What was held still is when only interfaces are matched.
proof fn lemma_worlds_held_more(before: Plan, after: Plan, from: ResolveView, into: ResolveView)
    requires
        after.grew(before),
        after.worlds == before.worlds,
        before.worlds_held(from, into),
    ensures
        after.worlds_held(from, into),
{
    assert forall|w: WorldId| #[trigger] after.worlds.contains_key(w) implies after.world_held(
        from,
        into,
        w,
    ) by {
        after.lemma_world_held_more(before, from, into, w);
    }
}

proof fn lemma_document_interfaces_held(
    plan: Plan,
    from: ResolveView,
    into: ResolveView,
    from_id: DocumentId,
    into_id: DocumentId,
    n: nat,
)
    requires
        plan.interfaces_held(from, into),
        plan.worlds_held(from, into),
    ensures
        matched_document_interfaces(plan, from, into, from_id, into_id, n) matches Ok(after) ==> {
            &&& after.interfaces_held(from, into)
            &&& after.worlds_held(from, into)
        },
    decreases n,
{
    if n > 0 {
        let m = (n - 1) as nat;
        lemma_document_interfaces_held(plan, from, into, from_id, into_id, m);
        if let Ok(before) = matched_document_interfaces(plan, from, into, from_id, into_id, m) {
            let (name, id) = from.documents[from_id as int].interfaces[n - 1];
            match lookup(into.documents[into_id as int].interfaces, name) {
                Some(other) => {
                    lemma_interface_held(before, from, into, id, other);
                    if let Ok(after) = matched_interface(before, from, into, id, other) {
                        lemma_worlds_held_more(before, after, from, into);
                    }
                },
                None => {
                    let after = before.with_new_interface((name, into_id, id));
                    lemma_worlds_held_more(before, after, from, into);
                },
            }
        }
    }
}

proof fn lemma_document_worlds_held(
    plan: Plan,
    from: ResolveView,
    into: ResolveView,
    from_id: DocumentId,
    into_id: DocumentId,
    n: nat,
)
    requires
        plan.interfaces_held(from, into),
        plan.worlds_held(from, into),
    ensures
        matched_document_worlds(plan, from, into, from_id, into_id, n) matches Ok(after) ==> {
            &&& after.interfaces_held(from, into)
            &&& after.worlds_held(from, into)
        },
    decreases n,
{
    if n > 0 {
        let m = (n - 1) as nat;
        lemma_document_worlds_held(plan, from, into, from_id, into_id, m);
        if let Ok(before) = matched_document_worlds(plan, from, into, from_id, into_id, m) {
            let (name, id) = from.documents[from_id as int].worlds[n - 1];
            match lookup(into.documents[into_id as int].worlds, name) {
                Some(other) => {
                    lemma_world_held(before, from, into, id, other);
                },
                None => {
                    let after = before.with_new_world((name, into_id, id));
                    lemma_worlds_held_more(before, after, from, into);
                },
            }
        }
    }
}

proof fn lemma_documents_held(
    plan: Plan,
    from: ResolveView,
    into: ResolveView,
    from_id: PackageId,
    into_id: PackageId,
    n: nat,
)
    requires
        plan.interfaces_held(from, into),
        plan.worlds_held(from, into),
    ensures
        matched_documents(plan, from, into, from_id, into_id, n) matches Ok(after) ==> {
            &&& after.interfaces_held(from, into)
            &&& after.worlds_held(from, into)
        },
    decreases n,
{
    if n > 0 {
        let m = (n - 1) as nat;
        lemma_documents_held(plan, from, into, from_id, into_id, m);
        if let Ok(before) = matched_documents(plan, from, into, from_id, into_id, m) {
            let (name, id) = from.packages[from_id as int].documents[n - 1];
            match lookup(into.packages[into_id as int].documents, name) {
                Some(other) => {
                    if let Ok(paired) = before.with_document(id, other) {
                        let doc = from.documents[id as int];
                        lemma_worlds_held_more(before, paired, from, into);
                        lemma_document_interfaces_held(
                            paired,
                            from,
                            into,
                            id,
                            other,
                            doc.interfaces.len(),
                        );
                        if let Ok(first) = matched_document_interfaces(
                            paired,
                            from,
                            into,
                            id,
                            other,
                            doc.interfaces.len(),
                        ) {
                            lemma_document_worlds_held(
                                first,
                                from,
                                into,
                                id,
                                other,
                                doc.worlds.len(),
                            );
                        }
                    }
                },
                None => {
                    let after = before.with_new_document((name, into_id, id));
                    lemma_worlds_held_more(before, after, from, into);
                },
            }
        }
    }
}

proof fn lemma_packages_held(from: ResolveView, into: ResolveView, n: nat)
    ensures
        matched_packages(Plan::start(), from, into, n) matches Ok(after) ==> {
            &&& after.interfaces_held(from, into)
            &&& after.worlds_held(from, into)
        },
    decreases n,
{
    if n > 0 {
        let m = (n - 1) as nat;
        lemma_packages_held(from, into, m);
        if let Ok(before) = matched_packages(Plan::start(), from, into, m) {
            if let Some(i) = find_package(
                into.packages,
                from.packages[n - 1],
                into.packages.len(),
            ) {
                let from_id = m as usize;
                let into_id = i as usize;
                if let Ok(paired) = before.with_package(from_id, into_id) {
                    lemma_worlds_held_more(before, paired, from, into);
                    lemma_documents_held(
                        paired,
                        from,
                        into,
                        from_id,
                        into_id,
                        from.packages[from_id as int].documents.len(),
                    );
                }
            }
        }
    }
}

/// Interfaces and worlds that are matched hold all that the ones hold that they are matched with:
/// an interface has functions of the same names, and a world imports and exports as much, under the
/// same names.
pub proof fn matched_items_hold_the_same(from: ResolveView, into: ResolveView)
    ensures
        matched(from, into) matches Ok(plan) ==> {
            &&& plan.interfaces_held(from, into)
            &&& plan.worlds_held(from, into)
        },
{
    lemma_packages_held(from, into, from.packages.len());
}

} // verus!
