//! What holds of every world that was elaborated.
use vstd::prelude::*;

use crate::bound::lemma_unused_decreases;
use crate::elaborate::{
    asks_for, asks_once, below, elaborated, elaborated_interfaces, explicit_names, lemma_nodes_push,
    needs, node, nodes, use_of, uses_within, wanted_interfaces, wanted_owners, wants, world_ready,
    world_scope, Chain, Group, Progress, Scope, Step,
};
use crate::error::ErrorView;
use crate::names::{distinct, find, lemma_find};
use crate::remap::{item_within, items_within, mapped_item, ItemMap};
use crate::types::{InterfaceId, InterfaceView, ItemView, Span, TypeDefView, WorldView};
use crate::worlds::{interfaces_once, ItemList};

verus! {

/// An interface stands in a list.
pub open spec fn lists_interface(items: ItemList, id: InterfaceId) -> bool {
    exists|i: int| 0 <= i < items.len() && (#[trigger] items[i]).1 == ItemView::Interface(id)
}

impl Progress {
    /// What is imported, or exported, so far.
    pub open spec fn items(self, import: bool) -> ItemList {
        if import {
            self.imports
        } else {
            self.exports
        }
    }

    /// An interface is among what is imported, or exported, so far.
    pub open spec fn placed(self, id: InterfaceId, import: bool) -> bool {
        lists_interface(self.items(import), id)
    }
}

impl Scope {
    /// Every interface that is used is there.
    pub open spec fn closed(self) -> bool {
        forall|i: int, j: int|
            #![trigger self.graph.uses[i][j]]
            0 <= i < self.graph.uses.len() && 0 <= j < self.graph.uses[i].len() ==> (
            self.graph.uses[i][j] matches Some(dep) ==> dep < self.graph.uses.len())
    }

    /// The first `n` interfaces that an interface uses were taken up.
    pub open spec fn uses_taken(
        self,
        state: Progress,
        id: InterfaceId,
        import: bool,
        n: nat,
    ) -> bool {
        forall|j: int|
            0 <= j < n ==> (#[trigger] self.graph.uses[id as int][j] matches Some(dep)
                ==> state.taken(dep, self.imports_use(dep, import)))
    }

    /// What is imported, or exported, so far are interfaces that were taken up and are not in
    /// progress, each once and under its name.
    pub open spec fn items_sound(self, state: Progress, chain: Chain, import: bool) -> bool {
        let items = state.items(import);
        &&& forall|i: int|
            0 <= i < items.len() ==> ((#[trigger] items[i]).1 matches ItemView::Interface(id) && {
                &&& id < self.graph.uses.len()
                &&& state.taken(id, import)
                &&& !chain.contains((id, import))
                &&& items[i].0 == self.name_of(id, import)
                &&& state.names.contains(items[i].0)
            })
        &&& interfaces_once(items)
        &&& distinct(items)
    }

    /// No name is used for an import and for an export.
    pub open spec fn names_disjoint(self, state: Progress) -> bool {
        forall|i: int, j: int|
            #![trigger state.imports[i], state.exports[j]]
            0 <= i < state.imports.len() && 0 <= j < state.exports.len() ==> state.imports[i].0
                != state.exports[j].0
    }

    /// What was taken up and is not in progress is imported or exported, and so is everything that
    /// it uses, unless that is in progress.
    pub open spec fn sound(self, state: Progress, chain: Chain) -> bool {
        &&& self.closed()
        &&& state.covers(chain)
        &&& self.items_sound(state, chain, true)
        &&& self.items_sound(state, chain, false)
        &&& self.names_disjoint(state)
        &&& forall|id: InterfaceId, import: bool|
            #![trigger state.taken(id, import)]
            state.taken(id, import) ==> {
                &&& id < self.graph.uses.len()
                &&& chain.contains((id, import)) || {
                    &&& state.placed(id, import)
                    &&& self.uses_taken(state, id, import, self.graph.uses[id as int].len())
                }
            }
    }

    /// Nothing that was taken up is dropped.
    pub open spec fn extends(self, before: Progress, after: Progress) -> bool {
        forall|id: InterfaceId, import: bool|
            #![trigger after.taken(id, import)]
            before.taken(id, import) ==> after.taken(id, import)
    }

    pub proof fn lemma_visit_sound(
        self,
        state: Progress,
        chain: Chain,
        id: InterfaceId,
        import: bool,
        span: Span,
    )
        requires
            self.sound(state, chain),
            id < self.graph.uses.len(),
        ensures
            self.visit(state, chain, id, import, span) matches Ok(after) ==> {
                &&& self.sound(after, chain)
                &&& self.extends(state, after)
                &&& after.taken(id, import)
            },
        decreases self.room(chain), 0nat,
    {
        if chain.contains((id, import)) {
            let i = choose|i: int| 0 <= i < chain.len() && chain[i] == (id, import);
            assert(state.taken(chain[i].0, chain[i].1));
        }
        if !state.taken(id, import) {
            let inner = chain.push((id, import));
            let taken = state.take(id, import);
            lemma_nodes_push(chain, (id, import));
            lemma_unused_decreases(2 * self.graph.uses.len(), nodes(chain), node((id, import)));
            self.lemma_take_sound(state, chain, id, import);
            let n = self.graph.uses[id as int].len();
            self.lemma_visit_uses_sound(taken, inner, id, import, span, n);
            if let Ok(used) = self.visit_uses(taken, inner, id, import, span, n) {
                assert(used.taken(id, import));
                if !used.names.contains(self.name_of(id, import)) {
                    self.lemma_place_sound(used, chain, id, import, span);
                }
            }
        }
    }

    /// An interface that was not taken up before is in progress once it is.
    pub proof fn lemma_take_sound(self, state: Progress, chain: Chain, id: InterfaceId, import: bool)
        requires
            self.sound(state, chain),
            id < self.graph.uses.len(),
            !state.taken(id, import),
        ensures
            self.sound(state.take(id, import), chain.push((id, import))),
            self.extends(state, state.take(id, import)),
            state.take(id, import).taken(id, import),
    {
        let inner = chain.push((id, import));
        let taken = state.take(id, import);
        assert(inner[chain.len() as int] == (id, import));
        assert forall|x: InterfaceId, d: bool|
            #![trigger taken.taken(x, d)]
            taken.taken(x, d) <==> state.taken(x, d) || (x, d) == (id, import) by {}
        assert forall|x: (InterfaceId, bool)| #[trigger] inner.contains(x) <==> chain.contains(x) || x
            == (id, import) by {
            if chain.contains(x) {
                let i = choose|i: int| 0 <= i < chain.len() && chain[i] == x;
                assert(inner[i] == x);
            }
            if inner.contains(x) && x != (id, import) {
                let i = choose|i: int| 0 <= i < inner.len() && inner[i] == x;
                assert(chain[i] == x);
            }
        }
        assert(taken.covers(inner)) by {
            assert forall|i: int| 0 <= i < inner.len() implies taken.taken(
                (#[trigger] inner[i]).0,
                inner[i].1,
            ) by {
                if i < chain.len() {
                    assert(inner[i] == chain[i]);
                    assert(state.taken(chain[i].0, chain[i].1));
                }
            }
        }
        assert forall|d: bool| self.items_sound(taken, inner, d) by {
            assert(self.items_sound(state, chain, d));
            assert(taken.items(d) == state.items(d));
        }
        assert forall|x: InterfaceId, d: bool|
            #![trigger taken.taken(x, d)]
            taken.taken(x, d) implies x < self.graph.uses.len() && (inner.contains((x, d)) || (
        taken.placed(x, d) && self.uses_taken(
            taken,
            x,
            d,
            self.graph.uses[x as int].len(),
        ))) by {
            if (x, d) != (id, import) {
                assert(state.taken(x, d));
                assert(taken.items(d) == state.items(d));
                if !chain.contains((x, d)) {
                    assert(self.uses_taken(state, x, d, self.graph.uses[x as int].len()));
                }
            }
        }
    }

    pub proof fn lemma_visit_uses_sound(
        self,
        state: Progress,
        chain: Chain,
        id: InterfaceId,
        import: bool,
        span: Span,
        n: nat,
    )
        requires
            self.sound(state, chain),
            id < self.graph.uses.len(),
            n <= self.graph.uses[id as int].len(),
        ensures
            self.visit_uses(state, chain, id, import, span, n) matches Ok(after) ==> {
                &&& self.sound(after, chain)
                &&& self.extends(state, after)
                &&& self.uses_taken(after, id, import, n)
            },
        decreases self.room(chain), n,
    {
        if n > 0 {
            let m = (n - 1) as nat;
            self.lemma_visit_uses_sound(state, chain, id, import, span, m);
            if let Ok(before) = self.visit_uses(state, chain, id, import, span, m) {
                if let Some(dep) = self.graph.uses[id as int][n - 1] {
                    let direction = self.imports_use(dep, import);
                    self.lemma_visit_sound(before, chain, dep, direction, span);
                }
            }
        }
    }

    /// An interface that is in progress is not any more once it is imported or exported.
    pub proof fn lemma_place_sound(
        self,
        state: Progress,
        chain: Chain,
        id: InterfaceId,
        import: bool,
        span: Span,
    )
        requires
            self.sound(state, chain.push((id, import))),
            id < self.graph.uses.len(),
            state.taken(id, import),
            !chain.contains((id, import)),
            state.covers(chain),
            self.uses_taken(state, id, import, self.graph.uses[id as int].len()),
            !state.names.contains(self.name_of(id, import)),
        ensures
            self.place(state, chain, id, import, span) matches Ok(after) && self.sound(
                after,
                chain,
            ) && self.extends(state, after) && after.taken(id, import),
    {
        let inner = chain.push((id, import));
        let name = self.name_of(id, import);
        let after = self.place(state, chain, id, import, span)->Ok_0;
        assert(inner[chain.len() as int] == (id, import));
        assert forall|x: (InterfaceId, bool)| #[trigger] inner.contains(x) <==> chain.contains(x) || x
            == (id, import) by {
            if chain.contains(x) {
                let i = choose|i: int| 0 <= i < chain.len() && chain[i] == x;
                assert(inner[i] == x);
            }
            if inner.contains(x) && x != (id, import) {
                let i = choose|i: int| 0 <= i < inner.len() && inner[i] == x;
                assert(chain[i] == x);
            }
        }
        assert forall|x: InterfaceId, d: bool|
            #![trigger after.taken(x, d)]
            after.taken(x, d) <==> state.taken(x, d) by {}
        assert forall|d: bool| self.items_sound(after, chain, d) by {
            assert(self.items_sound(state, inner, d));
            if d == import {
                let before = state.items(d);
                assert(after.items(d) == before.push((name, ItemView::Interface(id))));
                assert forall|i: int| 0 <= i < before.len() implies (
                #[trigger] before[i]).0 != name && before[i].1 != ItemView::Interface(id) by {
                    assert(inner.contains((id, import)));
                }
            } else {
                assert(after.items(d) == state.items(d));
            }
        }
        assert(self.items_sound(state, inner, true));
        assert(self.items_sound(state, inner, false));
        assert(self.names_disjoint(after));
        assert forall|x: InterfaceId, d: bool|
            #![trigger after.taken(x, d)]
            after.taken(x, d) implies x < self.graph.uses.len() && (chain.contains((x, d)) || (
        after.placed(x, d) && self.uses_taken(
            after,
            x,
            d,
            self.graph.uses[x as int].len(),
        ))) by {
            assert(state.taken(x, d));
            if (x, d) == (id, import) {
                assert(after.items(d)[state.items(d).len() as int].1 == ItemView::Interface(id));
            } else if !chain.contains((x, d)) {
                assert(state.placed(x, d));
                let i = choose|i: int|
                    0 <= i < state.items(d).len() && (#[trigger] state.items(d)[i]).1
                        == ItemView::Interface(x);
                assert(after.items(d)[i].1 == ItemView::Interface(x));
                assert(self.uses_taken(state, x, d, self.graph.uses[x as int].len()));
            }
        }
    }
}

/// An interface stands before position `p`.
pub open spec fn listed_before(items: ItemList, id: InterfaceId, p: int) -> bool {
    exists|q: int| 0 <= q < p && (#[trigger] items[q]).1 == ItemView::Interface(id)
}

impl Scope {
    /// Interfaces are sorted topologically: each one stands behind the others that it uses.
    pub open spec fn sorted(self) -> bool {
        forall|i: int, j: int|
            #![trigger self.graph.uses[i][j]]
            0 <= i < self.graph.uses.len() && 0 <= j < self.graph.uses[i].len() ==> (
            self.graph.uses[i][j] matches Some(dep) ==> dep == i || dep < i)
    }

    /// An interface that uses itself does so in the direction in which it is taken up.
    pub open spec fn steady(self, id: InterfaceId, import: bool) -> bool {
        self.imports_use(id, import) == import
    }

    /// What else an interface uses stands before it, where both are imported or both are exported.
    pub open spec fn uses_listed_before(
        self,
        items: ItemList,
        import: bool,
        id: InterfaceId,
        p: int,
    ) -> bool {
        forall|j: int|
            0 <= j < self.graph.uses[id as int].len() ==> (
            #[trigger] self.graph.uses[id as int][j] matches Some(dep) ==> (dep != id
                && self.imports_use(dep, import) == import ==> listed_before(items, dep, p)))
    }

    /// Every interface in a list stands behind the others that it uses.
    pub open spec fn in_order(self, items: ItemList, import: bool) -> bool {
        forall|p: int|
            0 <= p < items.len() ==> ((#[trigger] items[p]).1 matches ItemView::Interface(id)
                ==> self.uses_listed_before(items, import, id, p))
    }

    /// Every interface of a chain stands behind another one.
    pub open spec fn above(self, chain: Chain, id: InterfaceId) -> bool {
        forall|i: int| 0 <= i < chain.len() ==> (#[trigger] chain[i]).0 > id
    }

    proof fn lemma_visit_in_order(
        self,
        state: Progress,
        chain: Chain,
        id: InterfaceId,
        import: bool,
        span: Span,
    )
        requires
            self.sound(state, chain),
            self.sorted(),
            self.steady(id, import),
            self.above(chain, id),
            id < self.graph.uses.len(),
            self.in_order(state.imports, true),
            self.in_order(state.exports, false),
        ensures
            self.visit(state, chain, id, import, span) matches Ok(after) ==> {
                &&& self.in_order(after.imports, true)
                &&& self.in_order(after.exports, false)
            },
        decreases self.room(chain), 0nat,
    {
        if !state.taken(id, import) && !chain.contains((id, import)) {
            let inner = chain.push((id, import));
            let taken = state.take(id, import);
            lemma_nodes_push(chain, (id, import));
            lemma_unused_decreases(2 * self.graph.uses.len(), nodes(chain), node((id, import)));
            self.lemma_take_sound(state, chain, id, import);
            let n = self.graph.uses[id as int].len();
            self.lemma_visit_uses_sound(taken, inner, id, import, span, n);
            self.lemma_visit_uses_in_order(taken, inner, id, import, span, n);
            if let Ok(used) = self.visit_uses(taken, inner, id, import, span, n) {
                if !used.names.contains(self.name_of(id, import)) {
                    let after = self.place(used, chain, id, import, span)->Ok_0;
                    assert forall|d: bool| self.in_order(used.items(d), d) implies self.in_order(
                        #[trigger] after.items(d),
                        d,
                    ) by {
                        self.lemma_place_in_order(used, after, chain, id, import, span, d);
                    }
                    assert(self.in_order(used.items(true), true));
                    assert(self.in_order(used.items(false), false));
                    assert(self.in_order(after.items(true), true));
                    assert(self.in_order(after.items(false), false));
                }
            }
        }
    }

    proof fn lemma_place_in_order(
        self,
        state: Progress,
        after: Progress,
        chain: Chain,
        id: InterfaceId,
        import: bool,
        span: Span,
        d: bool,
    )
        requires
            self.sound(state, chain.push((id, import))),
            self.sorted(),
            self.above(chain, id),
            id < self.graph.uses.len(),
            self.uses_taken(state, id, import, self.graph.uses[id as int].len()),
            self.in_order(state.items(d), d),
            self.place(state, chain, id, import, span) == Ok::<Progress, ErrorView>(after),
        ensures
            self.in_order(after.items(d), d),
    {
        let inner = chain.push((id, import));
        let before = state.items(d);
        let items = after.items(d);
        assert forall|q: int| 0 <= q < before.len() implies #[trigger] items[q] == before[q] by {}
        assert forall|p: int| 0 <= p < items.len() implies ((
        #[trigger] items[p]).1 matches ItemView::Interface(x) ==> self.uses_listed_before(
            items,
            d,
            x,
            p,
        )) by {
            if let ItemView::Interface(x) = items[p].1 {
                assert forall|j: int| 0 <= j < self.graph.uses[x as int].len() implies (
                #[trigger] self.graph.uses[x as int][j] matches Some(dep) ==> (dep != x
                    && self.imports_use(dep, d) == d ==> listed_before(items, dep, p))) by {
                    if let Some(dep) = self.graph.uses[x as int][j] {
                        if dep != x && self.imports_use(dep, d) == d {
                            if p < before.len() {
                                assert(before[p] == items[p]);
                                assert(self.uses_listed_before(before, d, x, p));
                                assert(listed_before(before, dep, p));
                                let q = choose|q: int|
                                    0 <= q < p && (#[trigger] before[q]).1 == ItemView::Interface(
                                        dep,
                                    );
                                assert(items[q].1 == ItemView::Interface(dep));
                            } else {
                                assert(x == id && d == import);
                                assert(state.taken(dep, d));
                                assert(dep < id);
                                if inner.contains((dep, d)) {
                                    let i = choose|i: int|
                                        0 <= i < inner.len() && inner[i] == (dep, d);
                                    if i < chain.len() {
                                        assert(chain[i].0 > id);
                                    }
                                }
                                assert(state.placed(dep, d));
                                let q = choose|q: int|
                                    0 <= q < before.len() && (#[trigger] before[q]).1
                                        == ItemView::Interface(dep);
                                assert(items[q].1 == ItemView::Interface(dep));
                            }
                        }
                    }
                }
            }
        }
    }

    proof fn lemma_visit_uses_in_order(
        self,
        state: Progress,
        chain: Chain,
        id: InterfaceId,
        import: bool,
        span: Span,
        n: nat,
    )
        requires
            self.sound(state, chain),
            self.sorted(),
            self.steady(id, import),
            state.taken(id, import),
            forall|i: int| 0 <= i < chain.len() ==> (#[trigger] chain[i]).0 >= id,
            id < self.graph.uses.len(),
            n <= self.graph.uses[id as int].len(),
            self.in_order(state.imports, true),
            self.in_order(state.exports, false),
        ensures
            self.visit_uses(state, chain, id, import, span, n) matches Ok(after) ==> {
                &&& self.in_order(after.imports, true)
                &&& self.in_order(after.exports, false)
            },
        decreases self.room(chain), n,
    {
        if n > 0 {
            let m = (n - 1) as nat;
            self.lemma_visit_uses_sound(state, chain, id, import, span, m);
            self.lemma_visit_uses_in_order(state, chain, id, import, span, m);
            if let Ok(before) = self.visit_uses(state, chain, id, import, span, m) {
                if let Some(dep) = self.graph.uses[id as int][n - 1] {
                    let direction = self.imports_use(dep, import);
                    if dep == id {
                        assert(direction == import && before.taken(id, import));
                        assert(self.visit(before, chain, dep, direction, span) == Ok::<
                            Progress,
                            ErrorView,
                        >(before));
                    } else {
                        assert(self.steady(dep, direction));
                        self.lemma_visit_in_order(before, chain, dep, direction, span);
                    }
                }
            }
        }
    }
}

impl Scope {
    /// The first `n` of the interfaces that a world asks for were taken up.
    pub open spec fn wanted_taken(
        self,
        state: Progress,
        wanted: Seq<Option<InterfaceId>>,
        import: bool,
        n: nat,
    ) -> bool {
        forall|i: int|
            0 <= i < n ==> (#[trigger] wanted[i] matches Some(id) ==> state.taken(id, import))
    }

    /// All interfaces that a world asks for are steady.
    pub open spec fn all_steady(self, wanted: Seq<Option<InterfaceId>>, import: bool) -> bool {
        forall|i: int|
            0 <= i < wanted.len() ==> (#[trigger] wanted[i] matches Some(id) ==> self.steady(
                id,
                import,
            ))
    }

    pub proof fn lemma_visit_all_sound(
        self,
        state: Progress,
        wanted: Seq<Option<InterfaceId>>,
        spans: Seq<Span>,
        import: bool,
        n: nat,
    )
        requires
            self.sound(state, Seq::empty()),
            n <= wanted.len(),
            forall|i: int|
                0 <= i < wanted.len() ==> (#[trigger] wanted[i] matches Some(id) ==> id
                    < self.graph.uses.len()),
        ensures
            self.visit_all(state, wanted, spans, import, n) matches Ok(after) ==> {
                &&& self.sound(after, Seq::empty())
                &&& self.extends(state, after)
                &&& self.wanted_taken(after, wanted, import, n)
                &&& self.sorted() && self.all_steady(wanted, import) && self.in_order(
                    state.imports,
                    true,
                ) && self.in_order(state.exports, false) ==> self.in_order(after.imports, true)
                    && self.in_order(after.exports, false)
            },
        decreases n,
    {
        if n > 0 {
            let m = (n - 1) as nat;
            self.lemma_visit_all_sound(state, wanted, spans, import, m);
            if let Ok(before) = self.visit_all(state, wanted, spans, import, m) {
                if let Some(id) = wanted[n - 1] {
                    self.lemma_visit_sound(before, Seq::empty(), id, import, spans[n - 1]);
                    if self.sorted() && self.all_steady(wanted, import) && self.in_order(
                        before.imports,
                        true,
                    ) && self.in_order(before.exports, false) {
                        self.lemma_visit_in_order(before, Seq::empty(), id, import, spans[n - 1]);
                    }
                }
            }
        }
    }
}

impl Group {
    /// What is added follows on what was there, has names of its own and is no interface.
    pub proof fn lemma_added(
        self,
        map: ItemMap,
        start: ItemList,
        items: ItemList,
        spans: Seq<Span>,
        n: nat,
        interfaces: nat,
        types: nat,
    )
        requires
            n <= items.len(),
            distinct(start),
            items_within(start, interfaces, types),
            items_within(items, map.interfaces.len(), map.types.len()),
            below(map.types, types),
        ensures
            self.added(map, start, items, spans, n) matches Ok(after) ==> {
                &&& start.is_prefix_of(after)
                &&& forall|i: int|
                    start.len() <= i < after.len() ==> !((#[trigger] after[i]).1 is Interface)
                &&& distinct(after)
                &&& items_within(after, interfaces, types)
            },
        decreases n,
    {
        if n > 0 {
            let m = (n - 1) as nat;
            self.lemma_added(map, start, items, spans, m, interfaces, types);
            if let Ok(before) = self.added(map, start, items, spans, m) {
                let (name, item) = items[n - 1];
                lemma_find(before, name);
                if self.holds(item) && find(before, name).is_none() {
                    let after = before.push((name, mapped_item(map, item)));
                    assert(item_within(item, map.interfaces.len(), map.types.len()));
                    assert(item_within(mapped_item(map, item), interfaces, types));
                    assert forall|i: int| 0 <= i < after.len() implies item_within(
                        (#[trigger] after[i]).1,
                        interfaces,
                        types,
                    ) by {
                        if i < before.len() {
                            assert(after[i] == before[i]);
                        }
                    }
                }
            }
        }
    }
}

/// What holds of the interfaces that a world imports and exports.
pub proof fn lemma_elaborated_interfaces(
    map: ItemMap,
    types: Seq<TypeDefView>,
    interfaces: Seq<InterfaceView>,
    world: WorldView,
    import_spans: Seq<Span>,
    export_spans: Seq<Span>,
)
    requires
        uses_within(types, interfaces),
        world_ready(map, types, interfaces, world, import_spans, export_spans),
        below(map.interfaces, interfaces.len()),
        below(map.types, types.len()),
    ensures
        elaborated_interfaces(
            map,
            types,
            interfaces,
            world,
            import_spans,
            export_spans,
        ) matches Ok(state) ==> {
            let scope = world_scope(map, types, interfaces, world);
            &&& scope.sound(state, Seq::empty())
            &&& scope.wanted_taken(
                state,
                wanted_interfaces(map.interfaces, world.imports),
                true,
                world.imports.len(),
            )
            &&& scope.wanted_taken(
                state,
                wanted_owners(types, map.types, world.imports),
                true,
                world.imports.len(),
            )
            &&& scope.wanted_taken(
                state,
                wanted_interfaces(map.interfaces, world.exports),
                false,
                world.exports.len(),
            )
            &&& scope.sorted() ==> scope.in_order(state.imports, true) && scope.in_order(
                state.exports,
                false,
            )
        },
{
    let scope = world_scope(map, types, interfaces, world);
    let start = Progress::start();
    let imports = wanted_interfaces(map.interfaces, world.imports);
    let owners = wanted_owners(types, map.types, world.imports);
    let exports = wanted_interfaces(map.interfaces, world.exports);
    assert(scope.closed()) by {
        assert forall|i: int, j: int|
            #![trigger scope.graph.uses[i][j]]
            0 <= i < scope.graph.uses.len() && 0 <= j < scope.graph.uses[i].len() implies (
        scope.graph.uses[i][j] matches Some(dep) ==> dep < scope.graph.uses.len()) by {
            assert(scope.graph.uses[i][j] == use_of(types, interfaces[i].types[j].1));
        }
    }
    assert(scope.sound(start, Seq::empty()));
    assert forall|i: int| 0 <= i < imports.len() implies (#[trigger] imports[i] matches Some(id)
        ==> id < scope.graph.uses.len()) by {
        assert(item_within(world.imports[i].1, map.interfaces.len(), map.types.len()));
    }
    assert forall|i: int| 0 <= i < owners.len() implies (#[trigger] owners[i] matches Some(id) ==> id
        < scope.graph.uses.len()) by {
        assert(item_within(world.imports[i].1, map.interfaces.len(), map.types.len()));
    }
    assert forall|i: int| 0 <= i < exports.len() implies (#[trigger] exports[i] matches Some(id)
        ==> id < scope.graph.uses.len()) by {
        assert(item_within(world.exports[i].1, map.interfaces.len(), map.types.len()));
    }
    assert(scope.all_steady(exports, false)) by {
        assert forall|i: int| 0 <= i < exports.len() implies (#[trigger] exports[i] matches Some(id)
            ==> scope.steady(id, false)) by {
            if let Some(id) = exports[i] {
                let count = world.exports.len();
                assert(world.exports.take(count as int) =~= world.exports);
                assert(world.exports[i].1 is Interface);
                assert(asks_for(map.interfaces, world.exports, id));
                lemma_explicit_names_of(map.interfaces, world.exports, count, id);
            }
        }
    }
    let n = world.imports.len();
    scope.lemma_visit_all_sound(start, imports, import_spans, true, n);
    if let Ok(first) = scope.visit_all(start, imports, import_spans, true, n) {
        scope.lemma_visit_all_sound(first, owners, import_spans, true, n);
        if let Ok(second) = scope.visit_all(first, owners, import_spans, true, n) {
            let m = world.exports.len();
            scope.lemma_visit_all_sound(second, exports, export_spans, false, m);
            if let Ok(third) = scope.visit_all(second, exports, export_spans, false, m) {
                assert forall|i: int| 0 <= i < n implies (#[trigger] imports[i] matches Some(id)
                    ==> third.taken(id, true)) by {
                    if let Some(id) = imports[i] {
                        assert(first.taken(id, true));
                        assert(second.taken(id, true));
                    }
                }
                assert forall|i: int| 0 <= i < n implies (#[trigger] owners[i] matches Some(id)
                    ==> third.taken(id, true)) by {
                    if let Some(id) = owners[i] {
                        assert(second.taken(id, true));
                    }
                }
            }
        }
    }
}

/// One interface uses a type of another.
pub open spec fn uses(
    types: Seq<TypeDefView>,
    interfaces: Seq<InterfaceView>,
    a: InterfaceId,
    b: InterfaceId,
) -> bool {
    exists|j: int|
        0 <= j < interfaces[a as int].types.len() && use_of(
            types,
            (#[trigger] interfaces[a as int].types[j]).1,
        ) == Some(b)
}

/// A world gives names to the interfaces that it asks for and to no others.
pub proof fn lemma_explicit_names_of(ids: Seq<InterfaceId>, items: ItemList, n: nat, id: InterfaceId)
    requires
        n <= items.len(),
    ensures
        explicit_names(ids, items, n).contains_key(id) <==> asks_for(ids, items.take(n as int), id),
    decreases n,
{
    if n > 0 {
        let m = (n - 1) as nat;
        lemma_explicit_names_of(ids, items, m, id);
        let front = items.take(m as int);
        let all = items.take(n as int);
        if asks_for(ids, front, id) {
            let i = choose|i: int|
                0 <= i < front.len() && ((#[trigger] front[i]).1 matches ItemView::Interface(x)
                    && ids[x as int] == id);
            assert(all[i] == front[i]);
        }
        assert(all[m as int] == items[m as int]);
        if asks_for(ids, all, id) {
            let i = choose|i: int|
                0 <= i < all.len() && ((#[trigger] all[i]).1 matches ItemView::Interface(x)
                    && ids[x as int] == id);
            if i < m {
                assert(front[i] == all[i]);
            }
        }
    }
}

pub proof fn lemma_lists_prefix(before: ItemList, after: ItemList, id: InterfaceId)
    requires
        before.is_prefix_of(after),
        forall|i: int|
            before.len() <= i < after.len() ==> !((#[trigger] after[i]).1 is Interface),
    ensures
        lists_interface(before, id) <==> lists_interface(after, id),
{
    if lists_interface(before, id) {
        let i = choose|i: int|
            0 <= i < before.len() && (#[trigger] before[i]).1 == ItemView::Interface(id);
        assert(after[i] == before[i]);
    }
    if lists_interface(after, id) {
        let i = choose|i: int|
            0 <= i < after.len() && (#[trigger] after[i]).1 == ItemView::Interface(id);
        assert(after[i] == before[i]);
    }
}

/// How the imports and the exports of an elaborated world begin.
pub proof fn lemma_elaborated(
    map: ItemMap,
    types: Seq<TypeDefView>,
    interfaces: Seq<InterfaceView>,
    world: WorldView,
    import_spans: Seq<Span>,
    export_spans: Seq<Span>,
)
    requires
        uses_within(types, interfaces),
        world_ready(map, types, interfaces, world, import_spans, export_spans),
        below(map.interfaces, interfaces.len()),
        below(map.types, types.len()),
    ensures
        elaborated(map, types, interfaces, world, import_spans, export_spans) matches Ok(after)
            ==> {
            let state = elaborated_interfaces(
                map,
                types,
                interfaces,
                world,
                import_spans,
                export_spans,
            )->Ok_0;
            &&& state.imports.is_prefix_of(after.imports)
            &&& state.exports.is_prefix_of(after.exports)
            &&& forall|i: int|
                state.imports.len() <= i < after.imports.len() ==> !((
                #[trigger] after.imports[i]).1 is Interface)
            &&& forall|i: int|
                state.exports.len() <= i < after.exports.len() ==> !((
                #[trigger] after.exports[i]).1 is Interface)
            &&& distinct(after.imports)
            &&& distinct(after.exports)
            &&& items_within(after.imports, interfaces.len(), types.len())
            &&& items_within(after.exports, interfaces.len(), types.len())
            &&& after.document == world.document
            &&& after.name == world.name
        },
{
    lemma_elaborated_interfaces(map, types, interfaces, world, import_spans, export_spans);
    let scope = world_scope(map, types, interfaces, world);
    let n = world.imports.len();
    if let Ok(state) = elaborated_interfaces(
        map,
        types,
        interfaces,
        world,
        import_spans,
        export_spans,
    ) {
        assert(scope.items_sound(state, Seq::empty(), true));
        assert(scope.items_sound(state, Seq::empty(), false));
        Group::ImportedTypes.lemma_added(
            map,
            state.imports,
            world.imports,
            import_spans,
            n,
            interfaces.len(),
            types.len(),
        );
        if let Ok(typed) = Group::ImportedTypes.added(
            map,
            state.imports,
            world.imports,
            import_spans,
            n,
        ) {
            Group::ImportedFunctions.lemma_added(
                map,
                typed,
                world.imports,
                import_spans,
                n,
                interfaces.len(),
                types.len(),
            );
            if let Ok(all) = Group::ImportedFunctions.added(
                map,
                typed,
                world.imports,
                import_spans,
                n,
            ) {
                assert(state.imports.is_prefix_of(all));
                assert forall|i: int| state.imports.len() <= i < all.len() implies !((
                #[trigger] all[i]).1 is Interface) by {
                    if i < typed.len() {
                        assert(all[i] == typed[i]);
                    }
                }
            }
        }
        Group::ExportedFunctions.lemma_added(
            map,
            state.exports,
            world.exports,
            export_spans,
            world.exports.len(),
            interfaces.len(),
            types.len(),
        );
    }
}

/// An elaborated world imports the interfaces that it asks for and those that the types it imports
/// come from, and exports the interfaces that it asks to export. With each interface it imports
/// everything that the interface uses. What an exported interface uses is exported if the world
/// asks for that, and is imported otherwise.
pub proof fn worlds_are_complete(
    map: ItemMap,
    types: Seq<TypeDefView>,
    interfaces: Seq<InterfaceView>,
    world: WorldView,
    import_spans: Seq<Span>,
    export_spans: Seq<Span>,
)
    requires
        uses_within(types, interfaces),
        world_ready(map, types, interfaces, world, import_spans, export_spans),
        below(map.interfaces, interfaces.len()),
        below(map.types, types.len()),
    ensures
        elaborated(map, types, interfaces, world, import_spans, export_spans) matches Ok(after)
            ==> {
            &&& forall|i: int|
                0 <= i < world.imports.len() ==> match (#[trigger] world.imports[i]).1 {
                    ItemView::Interface(id) => lists_interface(
                        after.imports,
                        map.interfaces[id as int],
                    ),
                    ItemView::Type(id) => use_of(
                        types,
                        map.types[id as int],
                    ) matches Some(owner) ==> lists_interface(after.imports, owner),
                    ItemView::Function(_) => true,
                }
            &&& forall|i: int|
                0 <= i < world.exports.len() ==> ((
                #[trigger] world.exports[i]).1 matches ItemView::Interface(id) ==> lists_interface(
                    after.exports,
                    map.interfaces[id as int],
                ))
            &&& forall|a: InterfaceId, b: InterfaceId|
                lists_interface(after.imports, a) && #[trigger] uses(types, interfaces, a, b)
                    ==> lists_interface(after.imports, b)
            &&& forall|a: InterfaceId, b: InterfaceId|
                lists_interface(after.exports, a) && #[trigger] uses(types, interfaces, a, b)
                    ==> if asks_for(map.interfaces, world.exports, b) {
                    lists_interface(after.exports, b)
                } else {
                    lists_interface(after.imports, b)
                }
        },
{
    lemma_elaborated_interfaces(map, types, interfaces, world, import_spans, export_spans);
    lemma_elaborated(map, types, interfaces, world, import_spans, export_spans);
    let scope = world_scope(map, types, interfaces, world);
    if let Ok(after) = elaborated(map, types, interfaces, world, import_spans, export_spans) {
        let state = elaborated_interfaces(
            map,
            types,
            interfaces,
            world,
            import_spans,
            export_spans,
        )->Ok_0;
        let chain: Chain = Seq::empty();
        assert(scope.items_sound(state, chain, true));
        assert(scope.items_sound(state, chain, false));
        let imports = wanted_interfaces(map.interfaces, world.imports);
        let owners = wanted_owners(types, map.types, world.imports);
        let exports = wanted_interfaces(map.interfaces, world.exports);
        assert forall|id: InterfaceId| state.taken(id, true) implies lists_interface(
            after.imports,
            id,
        ) by {
            assert(state.placed(id, true));
            lemma_lists_prefix(state.imports, after.imports, id);
        }
        assert forall|id: InterfaceId| state.taken(id, false) implies lists_interface(
            after.exports,
            id,
        ) by {
            assert(state.placed(id, false));
            lemma_lists_prefix(state.exports, after.exports, id);
        }
        assert forall|i: int| 0 <= i < world.imports.len() implies match (
        #[trigger] world.imports[i]).1 {
            ItemView::Interface(id) => lists_interface(after.imports, map.interfaces[id as int]),
            ItemView::Type(id) => use_of(
                types,
                map.types[id as int],
            ) matches Some(owner) ==> lists_interface(after.imports, owner),
            ItemView::Function(_) => true,
        } by {
            assert(imports[i] matches Some(id) ==> state.taken(id, true));
            assert(owners[i] matches Some(id) ==> state.taken(id, true));
        }
        assert forall|i: int| 0 <= i < world.exports.len() implies ((
        #[trigger] world.exports[i]).1 matches ItemView::Interface(id) ==> lists_interface(
            after.exports,
            map.interfaces[id as int],
        )) by {
            assert(exports[i] matches Some(id) ==> state.taken(id, false));
        }
        assert forall|a: InterfaceId, b: InterfaceId|
            lists_interface(after.imports, a) && #[trigger] uses(
                types,
                interfaces,
                a,
                b,
            ) implies lists_interface(after.imports, b) by {
            lemma_lists_prefix(state.imports, after.imports, a);
            let p = choose|p: int|
                0 <= p < state.imports.len() && (#[trigger] state.imports[p]).1
                    == ItemView::Interface(a);
            assert(state.items(true)[p].1 == ItemView::Interface(a));
            assert(state.taken(a, true));
            let j = choose|j: int|
                0 <= j < interfaces[a as int].types.len() && use_of(
                    types,
                    (#[trigger] interfaces[a as int].types[j]).1,
                ) == Some(b);
            assert(scope.graph.uses[a as int][j] == Some(b));
            assert(state.taken(b, scope.imports_use(b, true)));
        }
        assert forall|a: InterfaceId, b: InterfaceId|
            lists_interface(after.exports, a) && #[trigger] uses(
                types,
                interfaces,
                a,
                b,
            ) implies if asks_for(map.interfaces, world.exports, b) {
            lists_interface(after.exports, b)
        } else {
            lists_interface(after.imports, b)
        } by {
            lemma_lists_prefix(state.exports, after.exports, a);
            let p = choose|p: int|
                0 <= p < state.exports.len() && (#[trigger] state.exports[p]).1
                    == ItemView::Interface(a);
            assert(state.items(false)[p].1 == ItemView::Interface(a));
            assert(state.taken(a, false));
            let j = choose|j: int|
                0 <= j < interfaces[a as int].types.len() && use_of(
                    types,
                    (#[trigger] interfaces[a as int].types[j]).1,
                ) == Some(b);
            assert(scope.graph.uses[a as int][j] == Some(b));
            lemma_explicit_names_of(map.interfaces, world.exports, world.exports.len(), b);
            assert(world.exports.take(world.exports.len() as int) =~= world.exports);
            assert(state.taken(b, scope.imports_use(b, false)));
        }
    }
}

/// An elaborated world imports no interface twice and exports none twice. No two of its imports,
/// and no two of its exports, have the same name, and no interface is imported under the name of
/// one that is exported.
pub proof fn worlds_list_once(
    map: ItemMap,
    types: Seq<TypeDefView>,
    interfaces: Seq<InterfaceView>,
    world: WorldView,
    import_spans: Seq<Span>,
    export_spans: Seq<Span>,
)
    requires
        uses_within(types, interfaces),
        world_ready(map, types, interfaces, world, import_spans, export_spans),
        below(map.interfaces, interfaces.len()),
        below(map.types, types.len()),
    ensures
        elaborated(map, types, interfaces, world, import_spans, export_spans) matches Ok(after)
            ==> {
            &&& interfaces_once(after.imports)
            &&& interfaces_once(after.exports)
            &&& distinct(after.imports)
            &&& distinct(after.exports)
            &&& forall|i: int, j: int|
                #![trigger after.imports[i], after.exports[j]]
                0 <= i < after.imports.len() && 0 <= j < after.exports.len()
                    && after.imports[i].1 is Interface && after.exports[j].1 is Interface
                    ==> after.imports[i].0 != after.exports[j].0
        },
{
    lemma_elaborated_interfaces(map, types, interfaces, world, import_spans, export_spans);
    lemma_elaborated(map, types, interfaces, world, import_spans, export_spans);
    let scope = world_scope(map, types, interfaces, world);
    if let Ok(after) = elaborated(map, types, interfaces, world, import_spans, export_spans) {
        let state = elaborated_interfaces(
            map,
            types,
            interfaces,
            world,
            import_spans,
            export_spans,
        )->Ok_0;
        assert(scope.items_sound(state, Seq::empty(), true));
        assert(scope.items_sound(state, Seq::empty(), false));
        lemma_once_prefix(state.imports, after.imports);
        lemma_once_prefix(state.exports, after.exports);
        assert forall|i: int, j: int|
            #![trigger after.imports[i], after.exports[j]]
            0 <= i < after.imports.len() && 0 <= j < after.exports.len()
                && after.imports[i].1 is Interface
                && after.exports[j].1 is Interface implies after.imports[i].0
            != after.exports[j].0 by {
            assert(after.imports[i] == state.imports[i]);
            assert(after.exports[j] == state.exports[j]);
        }
    }
}

proof fn lemma_once_prefix(before: ItemList, after: ItemList)
    requires
        before.is_prefix_of(after),
        interfaces_once(before),
        forall|i: int|
            before.len() <= i < after.len() ==> !((#[trigger] after[i]).1 is Interface),
    ensures
        interfaces_once(after),
{
    assert forall|i: int, j: int|
        #![trigger after[i], after[j]]
        0 <= i < j < after.len() && after[i].1 is Interface implies after[i].1 != after[j].1 by {
        assert(after[i] == before[i]);
        if j < before.len() {
            assert(after[j] == before[j]);
        }
    }
}

/// Each interface stands behind the others that it uses.
pub open spec fn interfaces_sorted(types: Seq<TypeDefView>, interfaces: Seq<InterfaceView>) -> bool {
    forall|a: InterfaceId, b: InterfaceId|
        a < interfaces.len() && a != b && #[trigger] uses(types, interfaces, a, b) ==> b < a
}

/// If interfaces are sorted topologically then so are those of an elaborated world: each imported
/// interface stands behind everything else that it uses, and each exported one behind everything
/// else that it uses and that the world asks to export.
pub proof fn worlds_are_sorted(
    map: ItemMap,
    types: Seq<TypeDefView>,
    interfaces: Seq<InterfaceView>,
    world: WorldView,
    import_spans: Seq<Span>,
    export_spans: Seq<Span>,
)
    requires
        uses_within(types, interfaces),
        world_ready(map, types, interfaces, world, import_spans, export_spans),
        below(map.interfaces, interfaces.len()),
        below(map.types, types.len()),
        interfaces_sorted(types, interfaces),
    ensures
        elaborated(map, types, interfaces, world, import_spans, export_spans) matches Ok(after)
            ==> {
            &&& forall|p: int, a: InterfaceId, b: InterfaceId|
                0 <= p < after.imports.len() && (#[trigger] after.imports[p]).1
                    == ItemView::Interface(a) && #[trigger] uses(types, interfaces, a, b)
                    && a != b ==> listed_before(after.imports, b, p)
            &&& forall|p: int, a: InterfaceId, b: InterfaceId|
                0 <= p < after.exports.len() && (#[trigger] after.exports[p]).1
                    == ItemView::Interface(a) && #[trigger] uses(types, interfaces, a, b)
                    && a != b && asks_for(map.interfaces, world.exports, b) ==> listed_before(
                    after.exports,
                    b,
                    p,
                )
        },
{
    lemma_elaborated_interfaces(map, types, interfaces, world, import_spans, export_spans);
    lemma_elaborated(map, types, interfaces, world, import_spans, export_spans);
    let scope = world_scope(map, types, interfaces, world);
    assert(scope.sorted()) by {
        assert forall|i: int, j: int|
            #![trigger scope.graph.uses[i][j]]
            0 <= i < scope.graph.uses.len() && 0 <= j < scope.graph.uses[i].len() implies (
        scope.graph.uses[i][j] matches Some(dep) ==> dep == i || dep < i) by {
            if let Some(dep) = scope.graph.uses[i][j] {
                assert(use_of(types, interfaces[i].types[j].1) == Some(dep));
                if i <= usize::MAX {
                    assert(uses(types, interfaces, i as usize, dep));
                }
            }
        }
    }
    if let Ok(after) = elaborated(map, types, interfaces, world, import_spans, export_spans) {
        let state = elaborated_interfaces(
            map,
            types,
            interfaces,
            world,
            import_spans,
            export_spans,
        )->Ok_0;
        assert forall|p: int, a: InterfaceId, b: InterfaceId|
            0 <= p < after.imports.len() && (#[trigger] after.imports[p]).1 == ItemView::Interface(
                a,
            ) && #[trigger] uses(types, interfaces, a, b) && a != b implies listed_before(
            after.imports,
            b,
            p,
        ) by {
            assert(after.imports[p] == state.imports[p]);
            let j = choose|j: int|
                0 <= j < interfaces[a as int].types.len() && use_of(
                    types,
                    (#[trigger] interfaces[a as int].types[j]).1,
                ) == Some(b);
            assert(scope.items_sound(state, Seq::empty(), true));
            assert(state.items(true)[p].1 == ItemView::Interface(a));
            assert(scope.graph.uses[a as int][j] == Some(b));
            assert(scope.uses_listed_before(state.imports, true, a, p));
            assert(listed_before(state.imports, b, p));
            let q = choose|q: int|
                0 <= q < p && (#[trigger] state.imports[q]).1 == ItemView::Interface(b);
            assert(after.imports[q] == state.imports[q]);
        }
        assert forall|p: int, a: InterfaceId, b: InterfaceId|
            0 <= p < after.exports.len() && (#[trigger] after.exports[p]).1 == ItemView::Interface(
                a,
            ) && #[trigger] uses(types, interfaces, a, b) && a != b && asks_for(
                map.interfaces,
                world.exports,
                b,
            ) implies listed_before(after.exports, b, p) by {
            assert(after.exports[p] == state.exports[p]);
            let j = choose|j: int|
                0 <= j < interfaces[a as int].types.len() && use_of(
                    types,
                    (#[trigger] interfaces[a as int].types[j]).1,
                ) == Some(b);
            assert(scope.items_sound(state, Seq::empty(), false));
            assert(state.items(false)[p].1 == ItemView::Interface(a));
            assert(scope.graph.uses[a as int][j] == Some(b));
            lemma_explicit_names_of(map.interfaces, world.exports, world.exports.len(), b);
            assert(world.exports.take(world.exports.len() as int) =~= world.exports);
            assert(scope.uses_listed_before(state.exports, false, a, p));
            assert(listed_before(state.exports, b, p));
            let q = choose|q: int|
                0 <= q < p && (#[trigger] state.exports[q]).1 == ItemView::Interface(b);
            assert(after.exports[q] == state.exports[q]);
        }
    }
}

impl Group {
    /// Every item of the group is there in the end.
    pub proof fn lemma_added_all(
        self,
        map: ItemMap,
        start: ItemList,
        items: ItemList,
        spans: Seq<Span>,
        n: nat,
    )
        requires
            n <= items.len(),
        ensures
            self.added(map, start, items, spans, n) matches Ok(after) ==> {
                &&& start.is_prefix_of(after)
                &&& forall|i: int|
                    0 <= i < n && self.holds((#[trigger] items[i]).1) ==> after.contains(
                        (items[i].0, mapped_item(map, items[i].1)),
                    )
            },
        decreases n,
    {
        if n > 0 {
            let m = (n - 1) as nat;
            self.lemma_added_all(map, start, items, spans, m);
            if let Ok(before) = self.added(map, start, items, spans, m) {
                if let Ok(after) = self.added(map, start, items, spans, n) {
                    assert(before.is_prefix_of(after));
                    assert forall|i: int|
                        0 <= i < n && self.holds((#[trigger] items[i]).1) implies after.contains(
                        (items[i].0, mapped_item(map, items[i].1)),
                    ) by {
                        let entry = (items[i].0, mapped_item(map, items[i].1));
                        if i < m {
                            lemma_prefix_keeps(before, after, entry);
                        } else {
                            assert(after[before.len() as int] == entry);
                        }
                    }
                }
            }
        }
    }
}

proof fn lemma_prefix_keeps(before: ItemList, after: ItemList, entry: (Seq<char>, ItemView))
    requires
        before.is_prefix_of(after),
        before.contains(entry),
    ensures
        after.contains(entry),
{
    let i = choose|i: int| 0 <= i < before.len() && before[i] == entry;
    assert(after[i] == entry);
}

/// The name that a world gives to an interface.
pub proof fn lemma_explicit_name(ids: Seq<InterfaceId>, items: ItemList, n: nat, i: int)
    requires
        0 <= i < n <= items.len(),
        asks_once(ids, items),
        items[i].1 is Interface,
    ensures
        explicit_names(ids, items, n).contains_key(ids[items[i].1->Interface_0 as int]),
        explicit_names(ids, items, n)[ids[items[i].1->Interface_0 as int]] == items[i].0,
    decreases n,
{
    if i < n - 1 {
        lemma_explicit_name(ids, items, (n - 1) as nat, i);
        assert(items[n - 1] == items[n - 1]);
    }
}

/// Everything that a world imports or exports by name is there once it is elaborated, under the
/// same name, renumbered.
pub proof fn worlds_keep_items(
    map: ItemMap,
    types: Seq<TypeDefView>,
    interfaces: Seq<InterfaceView>,
    world: WorldView,
    import_spans: Seq<Span>,
    export_spans: Seq<Span>,
)
    requires
        uses_within(types, interfaces),
        world_ready(map, types, interfaces, world, import_spans, export_spans),
        below(map.interfaces, interfaces.len()),
        below(map.types, types.len()),
    ensures
        elaborated(map, types, interfaces, world, import_spans, export_spans) matches Ok(after)
            ==> {
            &&& forall|i: int|
                0 <= i < world.imports.len() ==> after.imports.contains(
                    ((#[trigger] world.imports[i]).0, mapped_item(map, world.imports[i].1)),
                )
            &&& forall|i: int|
                0 <= i < world.exports.len() ==> after.exports.contains(
                    ((#[trigger] world.exports[i]).0, mapped_item(map, world.exports[i].1)),
                )
        },
{
    lemma_elaborated_interfaces(map, types, interfaces, world, import_spans, export_spans);
    lemma_elaborated(map, types, interfaces, world, import_spans, export_spans);
    let scope = world_scope(map, types, interfaces, world);
    let n = world.imports.len();
    let m = world.exports.len();
    if let Ok(after) = elaborated(map, types, interfaces, world, import_spans, export_spans) {
        let state = elaborated_interfaces(
            map,
            types,
            interfaces,
            world,
            import_spans,
            export_spans,
        )->Ok_0;
        let typed = Group::ImportedTypes.added(
            map,
            state.imports,
            world.imports,
            import_spans,
            n,
        )->Ok_0;
        Group::ImportedTypes.lemma_added_all(map, state.imports, world.imports, import_spans, n);
        Group::ImportedFunctions.lemma_added_all(map, typed, world.imports, import_spans, n);
        Group::ExportedFunctions.lemma_added_all(
            map,
            state.exports,
            world.exports,
            export_spans,
            m,
        );
        assert forall|i: int| 0 <= i < n implies after.imports.contains(
            ((#[trigger] world.imports[i]).0, mapped_item(map, world.imports[i].1)),
        ) by {
            let entry = (world.imports[i].0, mapped_item(map, world.imports[i].1));
            match world.imports[i].1 {
                ItemView::Type(_) => {
                    assert(typed.contains(entry));
                    lemma_prefix_keeps(typed, after.imports, entry);
                },
                ItemView::Function(_) => {},
                ItemView::Interface(x) => {
                    let id = map.interfaces[x as int];
                    assert(wanted_interfaces(map.interfaces, world.imports)[i] == Some(id));
                    lemma_placed_under_name(scope, state, id, true);
                    lemma_explicit_name(map.interfaces, world.imports, n, i);
                    lemma_prefix_keeps(state.imports, after.imports, entry);
                },
            }
        }
        assert forall|i: int| 0 <= i < m implies after.exports.contains(
            ((#[trigger] world.exports[i]).0, mapped_item(map, world.exports[i].1)),
        ) by {
            let entry = (world.exports[i].0, mapped_item(map, world.exports[i].1));
            match world.exports[i].1 {
                ItemView::Type(_) => {},
                ItemView::Function(_) => {},
                ItemView::Interface(x) => {
                    let id = map.interfaces[x as int];
                    assert(wanted_interfaces(map.interfaces, world.exports)[i] == Some(id));
                    lemma_placed_under_name(scope, state, id, false);
                    lemma_explicit_name(map.interfaces, world.exports, m, i);
                    lemma_prefix_keeps(state.exports, after.exports, entry);
                },
            }
        }
    }
}

/// What was taken up stands under its name.
pub proof fn lemma_placed_under_name(scope: Scope, state: Progress, id: InterfaceId, import: bool)
    requires
        scope.sound(state, Seq::empty()),
        state.taken(id, import),
    ensures
        state.items(import).contains((scope.name_of(id, import), ItemView::Interface(id))),
{
    assert(state.placed(id, import));
    let items = state.items(import);
    let i = choose|i: int|
        0 <= i < items.len() && (#[trigger] items[i]).1 == ItemView::Interface(id);
    assert(scope.items_sound(state, Seq::empty(), import));
    assert(items[i] == (scope.name_of(id, import), ItemView::Interface(id)));
}

impl Scope {
    /// Nothing is taken up but what an interface leads to.
    pub proof fn lemma_visit_needed(
        self,
        state: Progress,
        chain: Chain,
        id: InterfaceId,
        import: bool,
        span: Span,
    )
        ensures
            self.visit(state, chain, id, import, span) matches Ok(after) ==> forall|
                x: InterfaceId,
                d: bool,
            |
                #![trigger after.taken(x, d)]
                after.taken(x, d) ==> state.taken(x, d) || self.reaches((id, import), (x, d)),
        decreases self.room(chain), 0nat,
    {
        if !state.taken(id, import) && id < self.graph.uses.len() && !chain.contains((id, import)) {
            let inner = chain.push((id, import));
            let taken = state.take(id, import);
            lemma_nodes_push(chain, (id, import));
            lemma_unused_decreases(2 * self.graph.uses.len(), nodes(chain), node((id, import)));
            let n = self.graph.uses[id as int].len();
            self.lemma_visit_uses_needed(taken, inner, id, import, span, n);
            if let Ok(used) = self.visit_uses(taken, inner, id, import, span, n) {
                if let Ok(after) = self.place(used, chain, id, import, span) {
                    assert forall|x: InterfaceId, d: bool|
                        #![trigger after.taken(x, d)]
                        after.taken(x, d) implies state.taken(x, d) || self.reaches(
                        (id, import),
                        (x, d),
                    ) by {
                        assert(used.taken(x, d));
                        assert(taken.taken(x, d) ==> state.taken(x, d) || (x, d) == (id, import));
                        self.lemma_reaches((id, import), (id, import), (id, import));
                    }
                }
            }
        }
    }

    proof fn lemma_visit_uses_needed(
        self,
        state: Progress,
        chain: Chain,
        id: InterfaceId,
        import: bool,
        span: Span,
        n: nat,
    )
        requires
            id < self.graph.uses.len(),
            n <= self.graph.uses[id as int].len(),
        ensures
            self.visit_uses(state, chain, id, import, span, n) matches Ok(after) ==> forall|
                x: InterfaceId,
                d: bool,
            |
                #![trigger after.taken(x, d)]
                after.taken(x, d) ==> state.taken(x, d) || self.reaches((id, import), (x, d)),
        decreases self.room(chain), n,
    {
        if n > 0 {
            let m = (n - 1) as nat;
            self.lemma_visit_uses_needed(state, chain, id, import, span, m);
            if let Ok(before) = self.visit_uses(state, chain, id, import, span, m) {
                if let Some(dep) = self.graph.uses[id as int][n - 1] {
                    let direction = self.imports_use(dep, import);
                    self.lemma_visit_needed(before, chain, dep, direction, span);
                    assert(self.leads_to((id, import), (dep, direction)));
                    if let Ok(after) = self.visit(before, chain, dep, direction, span) {
                        assert forall|x: InterfaceId, d: bool|
                            #![trigger after.taken(x, d)]
                            after.taken(x, d) implies state.taken(x, d) || self.reaches(
                            (id, import),
                            (x, d),
                        ) by {
                            assert(before.taken(x, d) || self.reaches((dep, direction), (x, d)));
                            self.lemma_reaches((id, import), (dep, direction), (x, d));
                        }
                    }
                }
            }
        }
    }

    pub proof fn lemma_visit_all_needed(
        self,
        state: Progress,
        wanted: Seq<Option<InterfaceId>>,
        spans: Seq<Span>,
        import: bool,
        n: nat,
    )
        requires
            n <= wanted.len(),
        ensures
            self.visit_all(state, wanted, spans, import, n) matches Ok(after) ==> forall|
                x: InterfaceId,
                d: bool,
            |
                #![trigger after.taken(x, d)]
                after.taken(x, d) ==> state.taken(x, d) || exists|i: int|
                    0 <= i < wanted.len() && (#[trigger] wanted[i] matches Some(id)
                        && self.reaches((id, import), (x, d))),
        decreases n,
    {
        if n > 0 {
            let m = (n - 1) as nat;
            self.lemma_visit_all_needed(state, wanted, spans, import, m);
            if let Ok(before) = self.visit_all(state, wanted, spans, import, m) {
                if let Some(id) = wanted[n - 1] {
                    self.lemma_visit_needed(before, Seq::empty(), id, import, spans[n - 1]);
                    if let Ok(after) = self.visit(before, Seq::empty(), id, import, spans[n - 1]) {
                        assert forall|x: InterfaceId, d: bool|
                            #![trigger after.taken(x, d)]
                            after.taken(x, d) implies state.taken(x, d) || exists|i: int|
                            0 <= i < wanted.len() && (#[trigger] wanted[i] matches Some(id)
                                && self.reaches((id, import), (x, d))) by {
                            assert(before.taken(x, d) || self.reaches((id, import), (x, d)));
                            assert(wanted[n - 1] == Some(id));
                        }
                    }
                }
            }
        }
    }
}

/// Whatever the elaboration of a world takes up, the world needs.
pub proof fn lemma_taken_needed(
    map: ItemMap,
    types: Seq<TypeDefView>,
    interfaces: Seq<InterfaceView>,
    world: WorldView,
    import_spans: Seq<Span>,
    export_spans: Seq<Span>,
    id: InterfaceId,
    d: bool,
)
    requires
        elaborated_interfaces(
            map,
            types,
            interfaces,
            world,
            import_spans,
            export_spans,
        ) matches Ok(state) && state.taken(id, d),
    ensures
        needs(map, types, interfaces, world, (id, d)),
{
    let scope = world_scope(map, types, interfaces, world);
    let start = Progress::start();
    let imports = wanted_interfaces(map.interfaces, world.imports);
    let owners = wanted_owners(types, map.types, world.imports);
    let exports = wanted_interfaces(map.interfaces, world.exports);
    let n = world.imports.len();
    let m = world.exports.len();
    let first = scope.visit_all(start, imports, import_spans, true, n)->Ok_0;
    let second = scope.visit_all(first, owners, import_spans, true, n)->Ok_0;
    let third = scope.visit_all(second, exports, export_spans, false, m)->Ok_0;
    scope.lemma_visit_all_needed(start, imports, import_spans, true, n);
    scope.lemma_visit_all_needed(first, owners, import_spans, true, n);
    scope.lemma_visit_all_needed(second, exports, export_spans, false, m);
    assert(third.taken(id, d));
    if !second.taken(id, d) {
        let i = choose|i: int|
            0 <= i < exports.len() && (#[trigger] exports[i] matches Some(a) && scope.reaches(
                (a, false),
                (id, d),
            ));
        assert(wants(map, types, world, (exports[i].unwrap(), false)));
    } else if !first.taken(id, d) {
        let i = choose|i: int|
            0 <= i < owners.len() && (#[trigger] owners[i] matches Some(a) && scope.reaches(
                (a, true),
                (id, d),
            ));
        assert(wants(map, types, world, (owners[i].unwrap(), true)));
    } else {
        let i = choose|i: int|
            0 <= i < imports.len() && (#[trigger] imports[i] matches Some(a) && scope.reaches(
                (a, true),
                (id, d),
            ));
        assert(wants(map, types, world, (imports[i].unwrap(), true)));
    }
}

/// An elaborated world holds nothing superfluous: it needs every interface that it imports or
/// exports, and everything else that it imports or exports is an item that it had before.
pub proof fn worlds_hold_nothing_else(
    map: ItemMap,
    types: Seq<TypeDefView>,
    interfaces: Seq<InterfaceView>,
    world: WorldView,
    import_spans: Seq<Span>,
    export_spans: Seq<Span>,
)
    requires
        uses_within(types, interfaces),
        world_ready(map, types, interfaces, world, import_spans, export_spans),
        below(map.interfaces, interfaces.len()),
        below(map.types, types.len()),
    ensures
        elaborated(map, types, interfaces, world, import_spans, export_spans) matches Ok(after)
            ==> {
            &&& forall|p: int|
                0 <= p < after.imports.len() ==> match (#[trigger] after.imports[p]).1 {
                    ItemView::Interface(id) => needs(map, types, interfaces, world, (id, true)),
                    _ => held_before(map, world.imports, after.imports[p]),
                }
            &&& forall|p: int|
                0 <= p < after.exports.len() ==> match (#[trigger] after.exports[p]).1 {
                    ItemView::Interface(id) => needs(map, types, interfaces, world, (id, false)),
                    _ => held_before(map, world.exports, after.exports[p]),
                }
        },
{
    lemma_elaborated_interfaces(map, types, interfaces, world, import_spans, export_spans);
    lemma_elaborated(map, types, interfaces, world, import_spans, export_spans);
    if let Ok(after) = elaborated(map, types, interfaces, world, import_spans, export_spans) {
        let scope = world_scope(map, types, interfaces, world);
        let state = elaborated_interfaces(
            map,
            types,
            interfaces,
            world,
            import_spans,
            export_spans,
        )->Ok_0;
        let n = world.imports.len();
        let m = world.exports.len();
        let typed = Group::ImportedTypes.added(
            map,
            state.imports,
            world.imports,
            import_spans,
            n,
        )->Ok_0;
        assert(scope.items_sound(state, Seq::empty(), true));
        assert(scope.items_sound(state, Seq::empty(), false));
        Group::ImportedTypes.lemma_added_all(map, state.imports, world.imports, import_spans, n);
        Group::ImportedFunctions.lemma_added_all(map, typed, world.imports, import_spans, n);
        Group::ExportedFunctions.lemma_added_all(
            map,
            state.exports,
            world.exports,
            export_spans,
            m,
        );
        assert forall|p: int|
            0 <= p < after.imports.len() implies match (#[trigger] after.imports[p]).1 {
            ItemView::Interface(id) => needs(map, types, interfaces, world, (id, true)),
            _ => held_before(map, world.imports, after.imports[p]),
        } by {
            if p < state.imports.len() {
                assert(typed[p] == state.imports[p]);
                assert(after.imports[p] == typed[p]);
                let id = state.items(true)[p].1->Interface_0;
                assert(lists_interface(state.items(true), id));
                lemma_listed_taken(scope, state, id, true);
                lemma_taken_needed(
                    map,
                    types,
                    interfaces,
                    world,
                    import_spans,
                    export_spans,
                    id,
                    true,
                );
            } else if p < typed.len() {
                assert(after.imports[p] == typed[p]);
                let i = Group::ImportedTypes.lemma_added_origin(
                    map,
                    state.imports,
                    world.imports,
                    import_spans,
                    n,
                    p,
                );
                assert(world.imports[i].1 is Type);
            } else {
                let i = Group::ImportedFunctions.lemma_added_origin(
                    map,
                    typed,
                    world.imports,
                    import_spans,
                    n,
                    p,
                );
                assert(world.imports[i].1 is Function);
            }
        }
        assert forall|p: int|
            0 <= p < after.exports.len() implies match (#[trigger] after.exports[p]).1 {
            ItemView::Interface(id) => needs(map, types, interfaces, world, (id, false)),
            _ => held_before(map, world.exports, after.exports[p]),
        } by {
            if p < state.exports.len() {
                assert(after.exports[p] == state.exports[p]);
                let id = state.items(false)[p].1->Interface_0;
                assert(lists_interface(state.items(false), id));
                lemma_listed_taken(scope, state, id, false);
                lemma_taken_needed(
                    map,
                    types,
                    interfaces,
                    world,
                    import_spans,
                    export_spans,
                    id,
                    false,
                );
            } else {
                let i = Group::ExportedFunctions.lemma_added_origin(
                    map,
                    state.exports,
                    world.exports,
                    export_spans,
                    m,
                    p,
                );
                assert(world.exports[i].1 is Function);
            }
        }
    }
}

/// An entry is one of some items, renumbered.
pub open spec fn held_before(map: ItemMap, items: ItemList, entry: (Seq<char>, ItemView)) -> bool {
    exists|i: int|
        0 <= i < items.len() && entry == (
            (#[trigger] items[i]).0,
            mapped_item(map, items[i].1),
        )
}

/// An elaborated world imports and exports no interface without a name but those that it asks for.
pub proof fn lemma_unnamed_asked(
    map: ItemMap,
    types: Seq<TypeDefView>,
    interfaces: Seq<InterfaceView>,
    world: WorldView,
    import_spans: Seq<Span>,
    export_spans: Seq<Span>,
)
    requires
        uses_within(types, interfaces),
        world_ready(map, types, interfaces, world, import_spans, export_spans),
        below(map.interfaces, interfaces.len()),
        below(map.types, types.len()),
    ensures
        elaborated(map, types, interfaces, world, import_spans, export_spans) matches Ok(after)
            ==> {
            &&& forall|id: InterfaceId| #[trigger]
                lists_interface(after.imports, id) && interfaces[id as int].name.is_none()
                    ==> asks_for(map.interfaces, world.imports, id)
            &&& forall|id: InterfaceId| #[trigger]
                lists_interface(after.exports, id) && interfaces[id as int].name.is_none()
                    ==> asks_for(map.interfaces, world.exports, id)
        },
{
    lemma_elaborated_interfaces(map, types, interfaces, world, import_spans, export_spans);
    lemma_elaborated(map, types, interfaces, world, import_spans, export_spans);
    lemma_elaborated_named(map, types, interfaces, world, import_spans, export_spans);
    if let Ok(after) = elaborated(map, types, interfaces, world, import_spans, export_spans) {
        let state = elaborated_interfaces(
            map,
            types,
            interfaces,
            world,
            import_spans,
            export_spans,
        )->Ok_0;
        let scope = world_scope(map, types, interfaces, world);
        let n = world.imports.len();
        let m = world.exports.len();
        assert(world.imports.take(n as int) =~= world.imports);
        assert(world.exports.take(m as int) =~= world.exports);
        assert forall|id: InterfaceId| #[trigger]
            lists_interface(after.imports, id)
                && interfaces[id as int].name.is_none() implies asks_for(
            map.interfaces,
            world.imports,
            id,
        ) by {
            let p = choose|p: int|
                0 <= p < after.imports.len() && (#[trigger] after.imports[p]).1
                    == ItemView::Interface(id);
            assert(state.imports[p] == after.imports[p]);
            lemma_listed_taken(scope, state, id, true);
            assert(scope.can_take(id, true));
            lemma_explicit_names_of(map.interfaces, world.imports, n, id);
        }
        assert forall|id: InterfaceId| #[trigger]
            lists_interface(after.exports, id)
                && interfaces[id as int].name.is_none() implies asks_for(
            map.interfaces,
            world.exports,
            id,
        ) by {
            let p = choose|p: int|
                0 <= p < after.exports.len() && (#[trigger] after.exports[p]).1
                    == ItemView::Interface(id);
            assert(state.exports[p] == after.exports[p]);
            lemma_listed_taken(scope, state, id, false);
            assert(scope.can_take(id, false));
            lemma_explicit_names_of(map.interfaces, world.exports, m, id);
        }
    }
}

impl Scope {
    /// Whatever is taken up, if it can be, has a name.
    proof fn lemma_safe_named(
        self,
        state: Progress,
        chain: Chain,
        step: Step,
        span: Span,
    )
        requires
            self.safe(state, chain, step.0, step.1, span),
        ensures
            self.visit(state, chain, step.0, step.1, span) matches Ok(after) ==> forall|
                x: InterfaceId,
                d: bool,
            | #[trigger] after.taken(x, d) ==> state.taken(x, d) || self.can_take(x, d),
        decreases self.room(chain), 0nat,
    {
        let (id, import) = step;
        if !state.taken(id, import) && !chain.contains(step) {
            let inner = chain.push(step);
            let taken = state.take(id, import);
            let n = self.graph.uses[id as int].len();
            lemma_nodes_push(chain, step);
            lemma_unused_decreases(2 * self.graph.uses.len(), nodes(chain), node(step));
            self.lemma_safe_uses_named(taken, inner, step, span, n);
            if let Ok(after) = self.visit(state, chain, id, import, span) {
                let used = self.visit_uses(taken, inner, id, import, span, n)->Ok_0;
                assert forall|x: InterfaceId, d: bool| #[trigger] after.taken(x, d) implies
                    state.taken(x, d) || self.can_take(x, d) by {
                    assert(used.taken(x, d));
                    assert(taken.taken(x, d) ==> state.taken(x, d) || (x, d) == step);
                }
            }
        }
    }

    proof fn lemma_safe_uses_named(
        self,
        state: Progress,
        chain: Chain,
        step: Step,
        span: Span,
        n: nat,
    )
        requires
            self.safe_uses(state, chain, step.0, step.1, span, n),
        ensures
            self.visit_uses(state, chain, step.0, step.1, span, n) matches Ok(after) ==> forall|
                x: InterfaceId,
                d: bool,
            | #[trigger] after.taken(x, d) ==> state.taken(x, d) || self.can_take(x, d),
        decreases self.room(chain), n,
    {
        if n > 0 {
            let m = (n - 1) as nat;
            let (id, import) = step;
            self.lemma_safe_uses_named(state, chain, step, span, m);
            if let (Ok(used), Some(dep)) = (
                self.visit_uses(state, chain, id, import, span, m),
                self.graph.uses[id as int][n - 1],
            ) {
                let next = (dep, self.imports_use(dep, import));
                self.lemma_safe_named(used, chain, next, span);
                if let Ok(after) = self.visit(used, chain, next.0, next.1, span) {
                    assert forall|x: InterfaceId, d: bool| #[trigger] after.taken(x, d) implies
                        state.taken(x, d) || self.can_take(x, d) by {
                        assert(used.taken(x, d) || self.can_take(x, d));
                    }
                }
            }
        }
    }

    proof fn lemma_safe_all_named(
        self,
        state: Progress,
        wanted: Seq<Option<InterfaceId>>,
        spans: Seq<Span>,
        import: bool,
        n: nat,
    )
        requires
            self.safe_all(state, wanted, spans, import, n),
        ensures
            self.visit_all(state, wanted, spans, import, n) matches Ok(after) ==> forall|
                x: InterfaceId,
                d: bool,
            | #[trigger] after.taken(x, d) ==> state.taken(x, d) || self.can_take(x, d),
        decreases n,
    {
        if n > 0 {
            let m = (n - 1) as nat;
            self.lemma_safe_all_named(state, wanted, spans, import, m);
            if let (Ok(used), Some(id)) = (
                self.visit_all(state, wanted, spans, import, m),
                wanted[n - 1],
            ) {
                self.lemma_safe_named(used, Seq::empty(), (id, import), spans[n - 1]);
                if let Ok(after) = self.visit(used, Seq::empty(), id, import, spans[n - 1]) {
                    assert forall|x: InterfaceId, d: bool| #[trigger] after.taken(x, d) implies
                        state.taken(x, d) || self.can_take(x, d) by {
                        assert(used.taken(x, d) || self.can_take(x, d));
                    }
                }
            }
        }
    }
}

/// Every interface that a world takes up has a name.
pub proof fn lemma_elaborated_named(
    map: ItemMap,
    types: Seq<TypeDefView>,
    interfaces: Seq<InterfaceView>,
    world: WorldView,
    import_spans: Seq<Span>,
    export_spans: Seq<Span>,
)
    requires
        world_ready(map, types, interfaces, world, import_spans, export_spans),
    ensures
        elaborated_interfaces(
            map,
            types,
            interfaces,
            world,
            import_spans,
            export_spans,
        ) matches Ok(state) ==> forall|id: InterfaceId, import: bool| #[trigger]
            state.taken(id, import) ==> world_scope(map, types, interfaces, world).can_take(
                id,
                import,
            ),
{
    let scope = world_scope(map, types, interfaces, world);
    let imports = wanted_interfaces(map.interfaces, world.imports);
    let owners = wanted_owners(types, map.types, world.imports);
    let exports = wanted_interfaces(map.interfaces, world.exports);
    let start = Progress::start();
    scope.lemma_safe_all_named(start, imports, import_spans, true, imports.len());
    if let Ok(named) = scope.visit_all(start, imports, import_spans, true, imports.len()) {
        scope.lemma_safe_all_named(named, owners, import_spans, true, owners.len());
        if let Ok(owned) = scope.visit_all(named, owners, import_spans, true, owners.len()) {
            scope.lemma_safe_all_named(owned, exports, export_spans, false, exports.len());
            if let Ok(state) = scope.visit_all(
                owned,
                exports,
                export_spans,
                false,
                exports.len(),
            ) {
                assert forall|id: InterfaceId, import: bool| #[trigger]
                    state.taken(id, import) implies scope.can_take(id, import) by {
                    assert(owned.taken(id, import) || scope.can_take(id, import));
                    assert(named.taken(id, import) || scope.can_take(id, import));
                    assert(!start.taken(id, import));
                }
            }
        }
    }
}

/// What is imported or exported was taken up.
pub proof fn lemma_listed_taken(scope: Scope, state: Progress, id: InterfaceId, import: bool)
    requires
        scope.sound(state, Seq::empty()),
        lists_interface(state.items(import), id),
    ensures
        state.taken(id, import),
        id < scope.graph.uses.len(),
{
    let items = state.items(import);
    let p = choose|p: int|
        0 <= p < items.len() && (#[trigger] items[p]).1 == ItemView::Interface(id);
    assert(scope.items_sound(state, Seq::empty(), import));
    assert(items[p].1 == ItemView::Interface(id));
}

impl Group {
    /// What is added comes from the items of the world.
    pub proof fn lemma_added_origin(
        self,
        map: ItemMap,
        start: ItemList,
        items: ItemList,
        spans: Seq<Span>,
        n: nat,
        p: int,
    ) -> (i: int)
        requires
            n <= items.len(),
            self.added(map, start, items, spans, n).is_ok(),
            start.len() <= p < self.added(map, start, items, spans, n)->Ok_0.len(),
        ensures
            0 <= i < n,
            self.holds(items[i].1),
            self.added(map, start, items, spans, n)->Ok_0[p] == (
                items[i].0,
                mapped_item(map, items[i].1),
            ),
        decreases n,
    {
        let m = (n - 1) as nat;
        let before = self.added(map, start, items, spans, m)->Ok_0;
        if p < before.len() {
            self.lemma_added_origin(map, start, items, spans, m, p)
        } else {
            n - 1
        }
    }
}

/// The types that an elaborated world imports are those that it asks for, and it exports none.
pub proof fn lemma_types_origin(
    map: ItemMap,
    types: Seq<TypeDefView>,
    interfaces: Seq<InterfaceView>,
    world: WorldView,
    import_spans: Seq<Span>,
    export_spans: Seq<Span>,
)
    requires
        uses_within(types, interfaces),
        world_ready(map, types, interfaces, world, import_spans, export_spans),
        below(map.interfaces, interfaces.len()),
        below(map.types, types.len()),
    ensures
        elaborated(map, types, interfaces, world, import_spans, export_spans) matches Ok(after)
            ==> {
            &&& forall|p: int|
                0 <= p < after.imports.len() && (#[trigger] after.imports[p]).1 is Type ==> exists|
                    i: int,
                |
                    0 <= i < world.imports.len() && (#[trigger] world.imports[i]).1 is Type
                        && after.imports[p] == (
                        world.imports[i].0,
                        mapped_item(map, world.imports[i].1),
                    )
            &&& forall|p: int|
                0 <= p < after.exports.len() ==> !((#[trigger] after.exports[p]).1 is Type)
        },
{
    lemma_elaborated_interfaces(map, types, interfaces, world, import_spans, export_spans);
    if let Ok(after) = elaborated(map, types, interfaces, world, import_spans, export_spans) {
        let scope = world_scope(map, types, interfaces, world);
        let state = elaborated_interfaces(
            map,
            types,
            interfaces,
            world,
            import_spans,
            export_spans,
        )->Ok_0;
        let n = world.imports.len();
        let m = world.exports.len();
        let typed = Group::ImportedTypes.added(
            map,
            state.imports,
            world.imports,
            import_spans,
            n,
        )->Ok_0;
        assert(scope.items_sound(state, Seq::empty(), true));
        assert(scope.items_sound(state, Seq::empty(), false));
        Group::ImportedTypes.lemma_added_all(map, state.imports, world.imports, import_spans, n);
        Group::ImportedFunctions.lemma_added_all(map, typed, world.imports, import_spans, n);
        Group::ExportedFunctions.lemma_added_all(
            map,
            state.exports,
            world.exports,
            export_spans,
            m,
        );
        assert forall|p: int|
            0 <= p < after.imports.len() && (#[trigger] after.imports[p]).1 is Type implies exists|
            i: int,
        |
            0 <= i < world.imports.len() && (#[trigger] world.imports[i]).1 is Type
                && after.imports[p] == (
                world.imports[i].0,
                mapped_item(map, world.imports[i].1),
            ) by {
            if p < state.imports.len() {
                assert(typed[p] == state.imports[p]);
                assert(after.imports[p] == typed[p]);
                assert(state.items(true)[p].1 is Interface);
            } else if p < typed.len() {
                assert(after.imports[p] == typed[p]);
                let i = Group::ImportedTypes.lemma_added_origin(
                    map,
                    state.imports,
                    world.imports,
                    import_spans,
                    n,
                    p,
                );
                assert(world.imports[i].1 is Type);
            } else {
                let i = Group::ImportedFunctions.lemma_added_origin(
                    map,
                    typed,
                    world.imports,
                    import_spans,
                    n,
                    p,
                );
                assert(world.imports[i].1 is Function);
            }
        }
        assert forall|p: int| 0 <= p < after.exports.len() implies !((
        #[trigger] after.exports[p]).1 is Type) by {
            if p < state.exports.len() {
                assert(after.exports[p] == state.exports[p]);
                assert(state.items(false)[p].1 is Interface);
            } else {
                let i = Group::ExportedFunctions.lemma_added_origin(
                    map,
                    state.exports,
                    world.exports,
                    export_spans,
                    m,
                    p,
                );
                assert(world.exports[i].1 is Function);
            }
        }
    }
}

} // verus!
