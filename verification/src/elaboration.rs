//! When a world can be elaborated, and under which names it holds what it needs.
use vstd::prelude::*;

use crate::bound::lemma_unused_decreases;
use crate::closure::{
    held_before, lemma_elaborated, lemma_elaborated_interfaces, lemma_elaborated_named,
    lemma_explicit_name, lemma_explicit_names_of, lemma_placed_under_name, lemma_taken_needed,
    worlds_hold_nothing_else, worlds_keep_items,
};
use crate::elaborate::{
    asks_once, below, direction, elaborated, elaborated_interfaces, explicit_names,
    lemma_nodes_push, needs, node, nodes, use_graph, use_of, uses_within, wanted_interfaces,
    wanted_owners, wants, world_ready, world_scope, Chain, Group, Progress, Scope, Step,
};
use crate::error::{failure_at, ErrorView};
use crate::names::{distinct, find, lemma_find};
use crate::remap::{item_within, mapped_item, ItemMap};
use crate::renumbering::{copies_item, lemma_copies_item};
use crate::types::{
    InterfaceId, InterfaceView, ItemView, KindView, Span, Type, TypeDefView, TypeId, TypeOwner,
    WorldView,
};
use crate::worlds::ItemList;

verus! {

/// A type is another name for a type that belongs to an interface.
pub open spec fn comes_from(types: Seq<TypeDefView>, t: TypeId, owner: InterfaceId) -> bool {
    types[t as int].kind matches KindView::Type(Type::Id(other)) && types[other as int].owner
        == TypeOwner::Interface(owner)
}

/// An interface has a type that comes from another one.
pub open spec fn takes_from(
    types: Seq<TypeDefView>,
    interfaces: Seq<InterfaceView>,
    a: InterfaceId,
    b: InterfaceId,
) -> bool {
    exists|j: int|
        0 <= j < interfaces[a as int].types.len() && comes_from(
            types,
            (#[trigger] interfaces[a as int].types[j]).1,
            b,
        )
}

/// A list of items asks for an interface under a name.
pub open spec fn asks_as(
    ids: Seq<InterfaceId>,
    items: ItemList,
    id: InterfaceId,
    name: Seq<char>,
) -> bool {
    exists|i: int|
        0 <= i < items.len() && (#[trigger] items[i]).0 == name && (
        items[i].1 matches ItemView::Interface(x) && ids[x as int] == id)
}

/// The name of an interface in a world: the one that the world gives to it, or its own.
pub open spec fn goes_by(
    ids: Seq<InterfaceId>,
    items: ItemList,
    interfaces: Seq<InterfaceView>,
    id: InterfaceId,
    name: Seq<char>,
) -> bool {
    ||| asks_as(ids, items, id, name)
    ||| (forall|other: Seq<char>| !asks_as(ids, items, id, other)) && interfaces[id as int].name
        == Some(name)
}

/// What a world imports or exports.
pub open spec fn side(world: WorldView, import: bool) -> ItemList {
    if import {
        world.imports
    } else {
        world.exports
    }
}

/// A world has a reason to import or export an interface: it asks for it, or it imports a type that
/// comes from it.
pub open spec fn has_reason(
    map: ItemMap,
    types: Seq<TypeDefView>,
    world: WorldView,
    step: Step,
) -> bool {
    ||| exists|i: int|
        0 <= i < side(world, step.1).len() && ((
        #[trigger] side(world, step.1)[i]).1 matches ItemView::Interface(x)
            && map.interfaces[x as int] == step.0)
    ||| step.1 && exists|i: int|
        0 <= i < world.imports.len() && ((#[trigger] world.imports[i]).1 matches ItemView::Type(t)
            && comes_from(types, map.types[t as int], step.0))
}

/// An interface that a world imports or exports makes it import or export another one, which the
/// first takes types from. What an imported interface takes from is imported. What an exported one
/// takes from is exported if the world asks for that, and imported otherwise.
pub open spec fn entails(
    map: ItemMap,
    types: Seq<TypeDefView>,
    interfaces: Seq<InterfaceView>,
    world: WorldView,
    a: Step,
    b: Step,
) -> bool {
    &&& a.0 < interfaces.len()
    &&& takes_from(types, interfaces, a.0, b.0)
    &&& b.1 == (a.1 || forall|name: Seq<char>|
        !asks_as(map.interfaces, world.exports, b.0, name))
}

/// A chain of interfaces that starts with one that a world has a reason for, each of which entails
/// the next.
pub open spec fn is_chain(
    map: ItemMap,
    types: Seq<TypeDefView>,
    interfaces: Seq<InterfaceView>,
    world: WorldView,
    chain: Seq<Step>,
) -> bool {
    &&& chain.len() > 0
    &&& has_reason(map, types, world, chain[0])
    &&& forall|i: int|
        0 <= i < chain.len() - 1 ==> entails(
            map,
            types,
            interfaces,
            world,
            #[trigger] chain[i],
            chain[i + 1],
        )
}

/// A world has to import or export an interface.
pub open spec fn required(
    map: ItemMap,
    types: Seq<TypeDefView>,
    interfaces: Seq<InterfaceView>,
    world: WorldView,
    step: Step,
) -> bool {
    exists|chain: Seq<Step>| #[trigger]
        is_chain(map, types, interfaces, world, chain) && chain.last() == step
}

/// The interfaces that a world has to import or export have names that differ from each other, and
/// from those of the types and functions on the same side of the world.
pub open spec fn names_apart(
    map: ItemMap,
    types: Seq<TypeDefView>,
    interfaces: Seq<InterfaceView>,
    world: WorldView,
) -> bool {
    &&& forall|s: Step, t: Step, name: Seq<char>|
        #![trigger goes_by(map.interfaces, side(world, s.1), interfaces, s.0, name), goes_by(map.interfaces, side(world, t.1), interfaces, t.0, name)]
        required(map, types, interfaces, world, s) && required(map, types, interfaces, world, t)
            && goes_by(map.interfaces, side(world, s.1), interfaces, s.0, name) && goes_by(
            map.interfaces,
            side(world, t.1),
            interfaces,
            t.0,
            name,
        ) ==> s == t
    &&& forall|s: Step, i: int|
        #![trigger required(map, types, interfaces, world, s), side(world, s.1)[i]]
        required(map, types, interfaces, world, s) && 0 <= i < side(world, s.1).len() && !(side(
            world,
            s.1,
        )[i].1 is Interface) ==> !goes_by(
            map.interfaces,
            side(world, s.1),
            interfaces,
            s.0,
            side(world, s.1)[i].0,
        )
}

/// What is done with an interface.
pub open spec fn word(import: bool) -> Seq<char> {
    if import {
        "import"@
    } else {
        "export"@
    }
}

/// A line for each interface of a chain, from the last to the first.
pub open spec fn lines(chain: Seq<Step>, names: Seq<Seq<char>>) -> Seq<char>
    decreases chain.len(),
{
    if chain.len() == 0 {
        Seq::empty()
    } else {
        "  .. which is depended on by "@ + word(chain.last().1) + " `"@ + names.last() + "`\n"@
            + lines(chain.drop_last(), names.drop_last())
    }
}

/// An error about a place says that the name of the last interface of a chain is in use, and names
/// those that lead to it.
pub open spec fn says_in_use(
    error: ErrorView,
    span: Span,
    chain: Seq<Step>,
    names: Seq<Seq<char>>,
) -> bool {
    &&& error.span == Some(span)
    &&& error.context.len() == 0
    &&& error.msg == word(chain.last().1) + " of `"@ + names.last() + "`"@ + if chain.len() == 1 {
        " "@
    } else {
        "\n"@
    } + lines(chain.drop_last(), names.drop_last())
        + "conflicts with a previous interface using the name `"@ + names.last() + "`\n"@
}

impl Scope {
    /// An interface was placed under a name.
    pub open spec fn placed_as(
        self,
        state: Progress,
        id: InterfaceId,
        import: bool,
        name: Seq<char>,
    ) -> bool {
        state.placed(id, import) && self.can_take(id, import) && self.name_of(id, import) == name
    }

    /// The names that are in use are those of interfaces that were placed, all of them good.
    pub open spec fn well_named(self, good: spec_fn(Step) -> bool, state: Progress) -> bool {
        forall|name: Seq<char>| #[trigger]
            state.names.contains(name) ==> exists|id: InterfaceId, import: bool|
                #[trigger] self.placed_as(state, id, import, name) && good((id, import))
    }

    /// What good interfaces lead to is good.
    spec fn kept(self, good: spec_fn(Step) -> bool) -> bool {
        forall|a: Step, b: Step| good(a) && #[trigger] self.leads_to(a, b) ==> good(b)
    }

    /// The names of the interfaces of a chain.
    pub open spec fn names_of(self, chain: Seq<Step>) -> Seq<Seq<char>> {
        chain.map_values(|step: Step| self.name_of(step.0, step.1))
    }

    /// Two good interfaces have the same name. One of them is at the end of a path, and an error
    /// about a place says that its name is in use, and names what led to it.
    pub open spec fn clash(
        self,
        good: spec_fn(Step) -> bool,
        chain: Chain,
        error: ErrorView,
        span: Span,
        path: Seq<Step>,
        b: Step,
    ) -> bool {
        let a = path.last();
        &&& self.is_path(path)
        &&& a != b
        &&& good(a)
        &&& good(b)
        &&& self.chain_named(chain + path)
        &&& self.can_take(b.0, b.1)
        &&& self.name_of(b.0, b.1) == self.name_of(a.0, a.1)
        &&& says_in_use(error, span, chain + path, self.names_of(chain + path))
    }

    /// The lines of a chain.
    proof fn lemma_lines(self, chain: Chain)
        ensures
            self.chain_text(chain) == lines(chain, self.names_of(chain)),
        decreases chain.len(),
    {
        if chain.len() > 0 {
            self.lemma_lines(chain.drop_last());
            assert(self.names_of(chain).drop_last() =~= self.names_of(chain.drop_last()));
        }
    }

    /// The error for a name that is in use.
    proof fn lemma_says_in_use(self, chain: Chain, id: InterfaceId, import: bool, span: Span)
        ensures
            says_in_use(
                failure_at(span, self.conflict(chain, id, import)),
                span,
                chain + seq![(id, import)],
                self.names_of(chain + seq![(id, import)]),
            ),
    {
        let longer = chain + seq![(id, import)];
        let names = self.names_of(longer);
        self.lemma_lines(chain);
        assert(longer.drop_last() =~= chain);
        assert(names.drop_last() =~= self.names_of(chain));
        assert(names.last() == self.name_of(id, import));
        assert(longer.last() == (id, import));
        assert(direction(import) == word(import));
    }

    proof fn lemma_visit_clash(
        self,
        good: spec_fn(Step) -> bool,
        state: Progress,
        chain: Chain,
        id: InterfaceId,
        import: bool,
        span: Span,
    )
        requires
            self.kept(good),
            good((id, import)),
            self.sound(state, chain),
            self.well_named(good, state),
            self.safe(state, chain, id, import, span),
            id < self.graph.uses.len(),
        ensures
            match self.visit(state, chain, id, import, span) {
                Ok(after) => self.well_named(good, after),
                Err(error) => exists|path: Seq<Step>, b: Step| #[trigger]
                    self.clash(good, chain, error, span, path, b) && path.first() == (id, import),
            },
        decreases self.room(chain), 0nat,
    {
        if !state.taken(id, import) && !chain.contains((id, import)) {
            let inner = chain.push((id, import));
            let taken = state.take(id, import);
            let n = self.graph.uses[id as int].len();
            lemma_nodes_push(chain, (id, import));
            lemma_unused_decreases(2 * self.graph.uses.len(), nodes(chain), node((id, import)));
            self.lemma_take_sound(state, chain, id, import);
            assert(self.well_named(good, taken)) by {
                assert forall|name: Seq<char>| #[trigger] taken.names.contains(name) implies exists|
                    x: InterfaceId,
                    d: bool,
                | #[trigger] self.placed_as(taken, x, d, name) && good((x, d)) by {
                    assert(state.names.contains(name));
                    let (x, d) = choose|x: InterfaceId, d: bool|
                        #[trigger] self.placed_as(state, x, d, name) && good((x, d));
                    assert(taken.items(d) == state.items(d));
                    assert(self.placed_as(taken, x, d, name));
                }
            }
            self.lemma_visit_uses_clash(good, taken, inner, id, import, span, n);
            self.lemma_visit_uses_sound(taken, inner, id, import, span, n);
            if let Err(error) = self.visit_uses(taken, inner, id, import, span, n) {
                let (path, b) = choose|path: Seq<Step>, b: Step| #[trigger]
                    self.clash(good, inner, error, span, path, b) && self.leads_to(
                        (id, import),
                        path.first(),
                    );
                let longer = seq![(id, import)] + path;
                assert forall|i: int| 0 <= i < longer.len() - 1 implies self.leads_to(
                    #[trigger] longer[i],
                    longer[i + 1],
                ) by {
                    if i > 0 {
                        assert(self.leads_to(path[i - 1], path[i - 1 + 1]));
                        assert(longer[i] == path[i - 1]);
                    }
                }
                assert(inner + path =~= chain + longer);
                assert(longer.last() == path.last());
                assert(self.clash(good, chain, error, span, longer, b));
                assert(longer.first() == (id, import));
            }
            if let Ok(used) = self.visit_uses(taken, inner, id, import, span, n) {
                let name = self.name_of(id, import);
                assert(self.can_take(id, import));
                if used.names.contains(name) {
                    let (x, d) = choose|x: InterfaceId, d: bool|
                        #[trigger] self.placed_as(used, x, d, name) && good((x, d));
                    let a = (id, import);
                    let b = (x, d);
                    if a == b {
                        let items = used.items(import);
                        let p = choose|p: int|
                            0 <= p < items.len() && (#[trigger] items[p]).1 == ItemView::Interface(
                                id,
                            );
                        assert(self.items_sound(used, inner, import));
                        assert(inner[chain.len() as int] == (id, import));
                        assert(inner.contains((id, import)));
                        assert(false);
                    }
                    let error = failure_at(span, self.conflict(chain, id, import));
                    self.lemma_says_in_use(chain, id, import, span);
                    let path = seq![a];
                    assert(self.chain_named(chain + path));
                    assert(self.clash(good, chain, error, span, path, b));
                    assert(path.first() == a);
                } else {
                    let after = self.place(used, chain, id, import, span)->Ok_0;
                    assert forall|other: Seq<char>| #[trigger]
                        after.names.contains(other) implies exists|x: InterfaceId, d: bool|
                        #[trigger] self.placed_as(after, x, d, other) && good((x, d)) by {
                        if other == name {
                            let items = after.items(import);
                            assert(items[items.len() - 1].1 == ItemView::Interface(id));
                            assert(self.placed_as(after, id, import, other));
                        } else {
                            assert(used.names.contains(other));
                            let (x, d) = choose|x: InterfaceId, d: bool|
                                #[trigger] self.placed_as(used, x, d, other) && good((x, d));
                            let items = used.items(d);
                            let p = choose|p: int|
                                0 <= p < items.len() && (#[trigger] items[p]).1
                                    == ItemView::Interface(x);
                            assert(after.items(d)[p] == items[p]);
                            assert(self.placed_as(after, x, d, other));
                        }
                    }
                }
            }
        }
    }

    proof fn lemma_visit_uses_clash(
        self,
        good: spec_fn(Step) -> bool,
        state: Progress,
        chain: Chain,
        id: InterfaceId,
        import: bool,
        span: Span,
        n: nat,
    )
        requires
            self.kept(good),
            good((id, import)),
            self.sound(state, chain),
            self.well_named(good, state),
            self.safe_uses(state, chain, id, import, span, n),
            id < self.graph.uses.len(),
            n <= self.graph.uses[id as int].len(),
        ensures
            match self.visit_uses(state, chain, id, import, span, n) {
                Ok(after) => self.well_named(good, after),
                Err(error) => exists|path: Seq<Step>, b: Step| #[trigger]
                    self.clash(good, chain, error, span, path, b) && self.leads_to(
                        (id, import),
                        path.first(),
                    ),
            },
        decreases self.room(chain), n,
    {
        if n > 0 {
            let m = (n - 1) as nat;
            self.lemma_visit_uses_clash(good, state, chain, id, import, span, m);
            self.lemma_visit_uses_sound(state, chain, id, import, span, m);
            if let Ok(before) = self.visit_uses(state, chain, id, import, span, m) {
                if let Some(dep) = self.graph.uses[id as int][n - 1] {
                    let d = self.imports_use(dep, import);
                    assert(self.leads_to((id, import), (dep, d)));
                    self.lemma_visit_clash(good, before, chain, dep, d, span);
                }
            }
        }
    }

    /// The place where visiting a list goes wrong.
    pub proof fn lemma_visit_all_clash(
        self,
        good: spec_fn(Step) -> bool,
        state: Progress,
        wanted: Seq<Option<InterfaceId>>,
        spans: Seq<Span>,
        import: bool,
        n: nat,
    ) -> (place: (int, Seq<Step>, Step))
        requires
            forall|a: Step, b: Step| good(a) && #[trigger] self.leads_to(a, b) ==> good(b),
            self.sound(state, Seq::empty()),
            self.well_named(good, state),
            self.safe_all(state, wanted, spans, import, n),
            n <= wanted.len(),
            forall|i: int|
                0 <= i < wanted.len() ==> (#[trigger] wanted[i] matches Some(id) ==> id
                    < self.graph.uses.len() && good((id, import))),
        ensures
            match self.visit_all(state, wanted, spans, import, n) {
                Ok(after) => self.well_named(good, after),
                Err(error) => {
                    let (i, path, b) = place;
                    0 <= i < n && (wanted[i] matches Some(id) && self.clash(
                        good,
                        Seq::empty(),
                        error,
                        spans[i],
                        path,
                        b,
                    ) && path.first() == (id, import))
                },
            },
        decreases n,
    {
        if n == 0 {
            (0, Seq::empty(), (0, import))
        } else {
            let m = (n - 1) as nat;
            let place = self.lemma_visit_all_clash(good, state, wanted, spans, import, m);
            self.lemma_visit_all_sound(state, wanted, spans, import, m);
            if let Ok(before) = self.visit_all(state, wanted, spans, import, m) {
                if let Some(id) = wanted[n - 1] {
                    let span = spans[n - 1];
                    self.lemma_visit_clash(good, before, Seq::empty(), id, import, span);
                    if let Err(error) = self.visit(before, Seq::empty(), id, import, span) {
                        let (path, b) = choose|path: Seq<Step>, b: Step| #[trigger]
                            self.clash(good, Seq::empty(), error, span, path, b) && path.first()
                                == (id, import);
                        (n - 1, path, b)
                    } else {
                        place
                    }
                } else {
                    place
                }
            } else {
                place
            }
        }
    }
}

/// The use graph says which interfaces take types from which.
proof fn lemma_takes_from(
    types: Seq<TypeDefView>,
    interfaces: Seq<InterfaceView>,
    a: InterfaceId,
    b: InterfaceId,
)
    requires
        a < interfaces.len(),
    ensures
        takes_from(types, interfaces, a, b) <==> exists|j: int|
            0 <= j < use_graph(types, interfaces).uses[a as int].len() && #[trigger] use_graph(
                types,
                interfaces,
            ).uses[a as int][j] == Some(b),
{
    let uses = use_graph(types, interfaces).uses[a as int];
    let listed = interfaces[a as int].types;
    if takes_from(types, interfaces, a, b) {
        let j = choose|j: int|
            0 <= j < listed.len() && comes_from(types, (#[trigger] listed[j]).1, b);
        assert(uses[j] == Some(b));
    }
    if exists|j: int| 0 <= j < uses.len() && #[trigger] uses[j] == Some(b) {
        let j = choose|j: int| 0 <= j < uses.len() && #[trigger] uses[j] == Some(b);
        assert(comes_from(types, listed[j].1, b));
    }
}

/// A world gives a name to what it asks for under a name.
proof fn lemma_asks_as(ids: Seq<InterfaceId>, items: ItemList, id: InterfaceId)
    requires
        asks_once(ids, items),
    ensures
        explicit_names(ids, items, items.len()).contains_key(id) <==> exists|name: Seq<char>|
            asks_as(ids, items, id, name),
        forall|name: Seq<char>| #[trigger]
            asks_as(ids, items, id, name) ==> explicit_names(ids, items, items.len())[id] == name,
{
    let names = explicit_names(ids, items, items.len());
    assert(items.take(items.len() as int) =~= items);
    lemma_explicit_names_of(ids, items, items.len(), id);
    if names.contains_key(id) {
        let i = choose|i: int|
            0 <= i < items.len() && ((#[trigger] items[i]).1 matches ItemView::Interface(x)
                && ids[x as int] == id);
        assert(asks_as(ids, items, id, items[i].0));
    }
    assert forall|name: Seq<char>| #[trigger] asks_as(ids, items, id, name) implies names[id]
        == name && names.contains_key(id) by {
        let i = choose|i: int|
            0 <= i < items.len() && (#[trigger] items[i]).0 == name && (
            items[i].1 matches ItemView::Interface(x) && ids[x as int] == id);
        lemma_explicit_name(ids, items, items.len(), i);
    }
}

/// An interface of a world goes by one name.
pub proof fn lemma_goes_by(
    map: ItemMap,
    types: Seq<TypeDefView>,
    interfaces: Seq<InterfaceView>,
    world: WorldView,
    step: Step,
    name: Seq<char>,
)
    requires
        asks_once(map.interfaces, world.imports),
        asks_once(map.interfaces, world.exports),
        world_scope(map, types, interfaces, world).can_take(step.0, step.1),
    ensures
        goes_by(map.interfaces, side(world, step.1), interfaces, step.0, name) <==> name
            == world_scope(map, types, interfaces, world).name_of(step.0, step.1),
{
    lemma_asks_as(map.interfaces, side(world, step.1), step.0);
}

/// What an interface entails is what it leads to.
pub proof fn lemma_entails(
    map: ItemMap,
    types: Seq<TypeDefView>,
    interfaces: Seq<InterfaceView>,
    world: WorldView,
    a: Step,
    b: Step,
)
    requires
        asks_once(map.interfaces, world.exports),
    ensures
        entails(map, types, interfaces, world, a, b) <==> world_scope(
            map,
            types,
            interfaces,
            world,
        ).leads_to(a, b),
{
    if a.0 < interfaces.len() {
        lemma_takes_from(types, interfaces, a.0, b.0);
        lemma_asks_as(map.interfaces, world.exports, b.0);
    }
}

/// What a world has a reason for it wants.
proof fn lemma_has_reason(map: ItemMap, types: Seq<TypeDefView>, world: WorldView, step: Step)
    ensures
        has_reason(map, types, world, step) <==> wants(map, types, world, step),
{
    let items = side(world, step.1);
    let wanted = wanted_interfaces(map.interfaces, items);
    let owners = wanted_owners(types, map.types, world.imports);
    if has_reason(map, types, world, step) {
        if exists|i: int|
            0 <= i < items.len() && ((#[trigger] items[i]).1 matches ItemView::Interface(x)
                && map.interfaces[x as int] == step.0) {
            let i = choose|i: int|
                0 <= i < items.len() && ((#[trigger] items[i]).1 matches ItemView::Interface(x)
                    && map.interfaces[x as int] == step.0);
            assert(wanted[i] == Some(step.0));
        } else {
            let i = choose|i: int|
                0 <= i < world.imports.len() && ((
                #[trigger] world.imports[i]).1 matches ItemView::Type(t) && comes_from(
                    types,
                    map.types[t as int],
                    step.0,
                ));
            assert(owners[i] == Some(step.0));
        }
    }
    if wants(map, types, world, step) {
        if wanted.contains(Some(step.0)) {
            let i = choose|i: int| 0 <= i < wanted.len() && wanted[i] == Some(step.0);
            assert(items[i].1 is Interface);
        } else {
            let i = choose|i: int| 0 <= i < owners.len() && owners[i] == Some(step.0);
            assert(world.imports[i].1 is Type);
        }
    }
}

/// What a world has to import or export it needs.
proof fn lemma_required(
    map: ItemMap,
    types: Seq<TypeDefView>,
    interfaces: Seq<InterfaceView>,
    world: WorldView,
    step: Step,
)
    requires
        asks_once(map.interfaces, world.exports),
    ensures
        required(map, types, interfaces, world, step) <==> needs(
            map,
            types,
            interfaces,
            world,
            step,
        ),
{
    let scope = world_scope(map, types, interfaces, world);
    if required(map, types, interfaces, world, step) {
        let chain = choose|chain: Seq<Step>| #[trigger]
            is_chain(map, types, interfaces, world, chain) && chain.last() == step;
        lemma_has_reason(map, types, world, chain[0]);
        assert forall|i: int| 0 <= i < chain.len() - 1 implies scope.leads_to(
            #[trigger] chain[i],
            chain[i + 1],
        ) by {
            lemma_entails(map, types, interfaces, world, chain[i], chain[i + 1]);
        }
        assert(scope.is_path(chain));
        assert(scope.reaches(chain[0], step));
    }
    if needs(map, types, interfaces, world, step) {
        let first = choose|first: Step| #[trigger]
            wants(map, types, world, first) && scope.reaches(first, step);
        let path = choose|path: Seq<Step>| #[trigger]
            scope.is_path(path) && path.first() == first && path.last() == step;
        lemma_has_reason(map, types, world, path[0]);
        assert forall|i: int| 0 <= i < path.len() - 1 implies entails(
            map,
            types,
            interfaces,
            world,
            #[trigger] path[i],
            path[i + 1],
        ) by {
            lemma_entails(map, types, interfaces, world, path[i], path[i + 1]);
        }
        assert(is_chain(map, types, interfaces, world, path));
    }
}

/// What a world has to import or export is taken up.
proof fn lemma_required_taken(
    map: ItemMap,
    types: Seq<TypeDefView>,
    interfaces: Seq<InterfaceView>,
    world: WorldView,
    import_spans: Seq<Span>,
    export_spans: Seq<Span>,
    state: Progress,
    chain: Seq<Step>,
    i: int,
)
    requires
        uses_within(types, interfaces),
        world_ready(map, types, interfaces, world, import_spans, export_spans),
        below(map.interfaces, interfaces.len()),
        below(map.types, types.len()),
        elaborated_interfaces(map, types, interfaces, world, import_spans, export_spans) == Ok::<
            Progress,
            ErrorView,
        >(state),
        is_chain(map, types, interfaces, world, chain),
        0 <= i < chain.len(),
    ensures
        state.taken(chain[i].0, chain[i].1),
    decreases i,
{
    let scope = world_scope(map, types, interfaces, world);
    lemma_elaborated_interfaces(map, types, interfaces, world, import_spans, export_spans);
    if i == 0 {
        lemma_has_reason(map, types, world, chain[0]);
        let wanted = wanted_interfaces(map.interfaces, side(world, chain[0].1));
        let owners = wanted_owners(types, map.types, world.imports);
        if wanted.contains(Some(chain[0].0)) {
            let k = choose|k: int| 0 <= k < wanted.len() && wanted[k] == Some(chain[0].0);
            assert(wanted[k] == Some(chain[0].0));
        } else {
            let k = choose|k: int| 0 <= k < owners.len() && owners[k] == Some(chain[0].0);
            assert(owners[k] == Some(chain[0].0));
        }
    } else {
        let a = chain[i - 1];
        let b = chain[i];
        lemma_required_taken(
            map,
            types,
            interfaces,
            world,
            import_spans,
            export_spans,
            state,
            chain,
            i - 1,
        );
        assert(entails(map, types, interfaces, world, chain[i - 1], chain[i - 1 + 1]));
        lemma_entails(map, types, interfaces, world, a, b);
        let uses = scope.graph.uses[a.0 as int];
        let j = choose|j: int| 0 <= j < uses.len() && #[trigger] uses[j] == Some(b.0);
        assert(scope.uses_taken(state, a.0, a.1, uses.len()));
        assert(scope.graph.uses[a.0 as int][j] == Some(b.0));
    }
}

/// What is taken up of a world is what the world has to import or export, and each goes by the name
/// under which it is placed.
pub proof fn lemma_taken_required(
    map: ItemMap,
    types: Seq<TypeDefView>,
    interfaces: Seq<InterfaceView>,
    world: WorldView,
    import_spans: Seq<Span>,
    export_spans: Seq<Span>,
    state: Progress,
)
    requires
        uses_within(types, interfaces),
        world_ready(map, types, interfaces, world, import_spans, export_spans),
        below(map.interfaces, interfaces.len()),
        below(map.types, types.len()),
        elaborated_interfaces(map, types, interfaces, world, import_spans, export_spans) == Ok::<
            Progress,
            ErrorView,
        >(state),
    ensures
        world_scope(map, types, interfaces, world).sound(state, Seq::empty()),
        forall|step: Step|
            #![trigger required(map, types, interfaces, world, step)]
            #![trigger state.taken(step.0, step.1)]
            required(map, types, interfaces, world, step) <==> state.taken(step.0, step.1),
        forall|step: Step, name: Seq<char>|
            #![trigger state.taken(step.0, step.1), goes_by(map.interfaces, side(world, step.1), interfaces, step.0, name)]
            state.taken(step.0, step.1) ==> (goes_by(
                map.interfaces,
                side(world, step.1),
                interfaces,
                step.0,
                name,
            ) <==> name == world_scope(map, types, interfaces, world).name_of(step.0, step.1)),
{
    let scope = world_scope(map, types, interfaces, world);
    lemma_elaborated_interfaces(map, types, interfaces, world, import_spans, export_spans);
    lemma_elaborated_named(map, types, interfaces, world, import_spans, export_spans);
    assert forall|step: Step|
        #![trigger required(map, types, interfaces, world, step)]
        #![trigger state.taken(step.0, step.1)]
        required(map, types, interfaces, world, step) <==> state.taken(step.0, step.1) by {
        if required(map, types, interfaces, world, step) {
            let chain = choose|chain: Seq<Step>| #[trigger]
                is_chain(map, types, interfaces, world, chain) && chain.last() == step;
            lemma_required_taken(
                map,
                types,
                interfaces,
                world,
                import_spans,
                export_spans,
                state,
                chain,
                chain.len() - 1,
            );
        }
        if state.taken(step.0, step.1) {
            lemma_taken_needed(
                map,
                types,
                interfaces,
                world,
                import_spans,
                export_spans,
                step.0,
                step.1,
            );
            lemma_required(map, types, interfaces, world, step);
        }
    }
    assert forall|step: Step, name: Seq<char>|
        #![trigger state.taken(step.0, step.1), goes_by(map.interfaces, side(world, step.1), interfaces, step.0, name)]
        state.taken(step.0, step.1) implies (goes_by(
        map.interfaces,
        side(world, step.1),
        interfaces,
        step.0,
        name,
    ) <==> name == scope.name_of(step.0, step.1)) by {
        lemma_goes_by(map, types, interfaces, world, step, name);
    }
}

/// What a world that can be elaborated has to import or export is there.
pub proof fn lemma_required_known(
    map: ItemMap,
    types: Seq<TypeDefView>,
    interfaces: Seq<InterfaceView>,
    world: WorldView,
    import_spans: Seq<Span>,
    export_spans: Seq<Span>,
)
    requires
        uses_within(types, interfaces),
        world_ready(map, types, interfaces, world, import_spans, export_spans),
        below(map.interfaces, interfaces.len()),
        below(map.types, types.len()),
        elaborated(map, types, interfaces, world, import_spans, export_spans).is_ok(),
    ensures
        forall|step: Step| #[trigger]
            required(map, types, interfaces, world, step) ==> step.0 < interfaces.len(),
{
    let state = elaborated_interfaces(
        map,
        types,
        interfaces,
        world,
        import_spans,
        export_spans,
    )->Ok_0;
    lemma_taken_required(map, types, interfaces, world, import_spans, export_spans, state);
    assert forall|step: Step| #[trigger]
        required(map, types, interfaces, world, step) implies step.0 < interfaces.len() by {
        assert(state.taken(step.0, step.1));
    }
}

impl Group {
    /// Items are added where their names are not in use.
    proof fn lemma_added_ok(
        self,
        map: ItemMap,
        start: ItemList,
        items: ItemList,
        spans: Seq<Span>,
        n: nat,
    )
        requires
            n <= items.len(),
            distinct(items),
            forall|i: int, p: int|
                #![trigger items[i], start[p]]
                0 <= i < items.len() && self.holds(items[i].1) && 0 <= p < start.len()
                    ==> start[p].0 != items[i].0,
        ensures
            self.added(map, start, items, spans, n) matches Ok(after) && {
                &&& start.is_prefix_of(after)
                &&& forall|p: int|
                    start.len() <= p < after.len() ==> exists|i: int|
                        0 <= i < n && self.holds((#[trigger] items[i]).1) && (
                        #[trigger] after[p]).0 == items[i].0
            },
        decreases n,
    {
        if n > 0 {
            let m = (n - 1) as nat;
            self.lemma_added_ok(map, start, items, spans, m);
            let before = self.added(map, start, items, spans, m)->Ok_0;
            let entry = items[n - 1];
            if self.holds(entry.1) {
                lemma_find(before, entry.0);
                if let Some(p) = find(before, entry.0) {
                    if p < start.len() {
                        assert(start[p].0 != items[n - 1].0);
                    } else {
                        let i = choose|i: int|
                            0 <= i < m && self.holds((#[trigger] items[i]).1) && before[p].0
                                == items[i].0;
                        assert(items[i].0 != items[n - 1].0);
                    }
                    assert(false);
                }
                let after = self.added(map, start, items, spans, n)->Ok_0;
                assert forall|p: int| start.len() <= p < after.len() implies exists|i: int|
                    0 <= i < n && self.holds((#[trigger] items[i]).1) && (#[trigger] after[p]).0
                        == items[i].0 by {
                    if p == before.len() {
                        assert(after[p].0 == items[n - 1].0);
                    } else {
                        assert(after[p] == before[p]);
                        let i = choose|i: int|
                            0 <= i < m && self.holds((#[trigger] items[i]).1) && before[p].0
                                == items[i].0;
                        assert(self.holds(items[i].1));
                    }
                }
            }
        }
    }
}

/// What is visited in each part of an elaboration: the interfaces that a world imports, those that
/// its types come from, and the interfaces that it exports.
pub open spec fn visited_part(
    map: ItemMap,
    types: Seq<TypeDefView>,
    world: WorldView,
    part: int,
) -> Seq<Option<InterfaceId>> {
    if part == 0 {
        wanted_interfaces(map.interfaces, world.imports)
    } else if part == 1 {
        wanted_owners(types, map.types, world.imports)
    } else {
        wanted_interfaces(map.interfaces, world.exports)
    }
}

/// What a world has to import or export.
pub open spec fn requirement(
    map: ItemMap,
    types: Seq<TypeDefView>,
    interfaces: Seq<InterfaceView>,
    world: WorldView,
) -> spec_fn(Step) -> bool {
    |step: Step| required(map, types, interfaces, world, step)
}

/// If the interfaces of a world cannot be taken up then two of those that it has to import or
/// export have the same name.
pub proof fn lemma_interfaces_clash(
    map: ItemMap,
    types: Seq<TypeDefView>,
    interfaces: Seq<InterfaceView>,
    world: WorldView,
    import_spans: Seq<Span>,
    export_spans: Seq<Span>,
) -> (place: (int, int, Seq<Step>, Step))
    requires
        uses_within(types, interfaces),
        world_ready(map, types, interfaces, world, import_spans, export_spans),
        below(map.interfaces, interfaces.len()),
        below(map.types, types.len()),
    ensures
        elaborated_interfaces(
            map,
            types,
            interfaces,
            world,
            import_spans,
            export_spans,
        ) matches Err(error) ==> {
            let (part, i, path, b) = place;
            let wanted = visited_part(map, types, world, part);
            let spans = if part < 2 {
                import_spans
            } else {
                export_spans
            };
            &&& 0 <= part <= 2
            &&& 0 <= i < wanted.len()
            &&& wanted[i] matches Some(id) && world_scope(map, types, interfaces, world).clash(
                requirement(map, types, interfaces, world),
                Seq::empty(),
                error,
                spans[i],
                path,
                b,
            ) && path.first() == (id, part < 2)
        },
{
    let scope = world_scope(map, types, interfaces, world);
    let good = requirement(map, types, interfaces, world);
    let start = Progress::start();
    let imports = wanted_interfaces(map.interfaces, world.imports);
    let owners = wanted_owners(types, map.types, world.imports);
    let exports = wanted_interfaces(map.interfaces, world.exports);
    assert forall|a: Step, b: Step|
        good(a) && #[trigger] scope.leads_to(a, b) implies good(b) by {
        lemma_entails(map, types, interfaces, world, a, b);
        let chain = choose|chain: Seq<Step>| #[trigger]
            is_chain(map, types, interfaces, world, chain) && chain.last() == a;
        let longer = chain.push(b);
        assert forall|i: int| 0 <= i < longer.len() - 1 implies entails(
            map,
            types,
            interfaces,
            world,
            #[trigger] longer[i],
            longer[i + 1],
        ) by {
            if i < chain.len() - 1 {
                assert(entails(map, types, interfaces, world, chain[i], chain[i + 1]));
                assert(longer[i + 1] == chain[i + 1]);
            }
        }
        assert(longer[0] == chain[0]);
        assert(is_chain(map, types, interfaces, world, longer));
    }
    assert(scope.sound(start, Seq::empty())) by {
        assert forall|i: int, j: int|
            #![trigger scope.graph.uses[i][j]]
            0 <= i < scope.graph.uses.len() && 0 <= j < scope.graph.uses[i].len() implies (
        scope.graph.uses[i][j] matches Some(dep) ==> dep < scope.graph.uses.len()) by {
            assert(scope.graph.uses[i][j] == use_of(types, interfaces[i].types[j].1));
        }
    }
    assert forall|id: InterfaceId, d: bool| #[trigger]
        wants(map, types, world, (id, d)) implies good((id, d)) by {
        lemma_has_reason(map, types, world, (id, d));
        let chain = seq![(id, d)];
        assert(is_chain(map, types, interfaces, world, chain));
        assert(chain.last() == (id, d));
    }
    assert forall|i: int| 0 <= i < imports.len() implies (#[trigger] imports[i] matches Some(id)
        ==> id < scope.graph.uses.len() && good((id, true))) by {
        assert(item_within(world.imports[i].1, map.interfaces.len(), map.types.len()));
        if let Some(id) = imports[i] {
            assert(imports.contains(Some(id)));
            assert(wants(map, types, world, (id, true)));
        }
    }
    assert forall|i: int| 0 <= i < owners.len() implies (#[trigger] owners[i] matches Some(id) ==> id
        < scope.graph.uses.len() && good((id, true))) by {
        assert(item_within(world.imports[i].1, map.interfaces.len(), map.types.len()));
        if let Some(id) = owners[i] {
            assert(owners.contains(Some(id)));
            assert(wants(map, types, world, (id, true)));
        }
    }
    assert forall|i: int| 0 <= i < exports.len() implies (#[trigger] exports[i] matches Some(id)
        ==> id < scope.graph.uses.len() && good((id, false))) by {
        assert(item_within(world.exports[i].1, map.interfaces.len(), map.types.len()));
        if let Some(id) = exports[i] {
            assert(exports.contains(Some(id)));
            assert(wants(map, types, world, (id, false)));
        }
    }
    let n = world.imports.len();
    let (i, path, b) = scope.lemma_visit_all_clash(good, start, imports, import_spans, true, n);
    scope.lemma_visit_all_sound(start, imports, import_spans, true, n);
    if let Ok(first) = scope.visit_all(start, imports, import_spans, true, n) {
        let (i, path, b) = scope.lemma_visit_all_clash(good, first, owners, import_spans, true, n);
        scope.lemma_visit_all_sound(first, owners, import_spans, true, n);
        if let Ok(second) = scope.visit_all(first, owners, import_spans, true, n) {
            let (i, path, b) = scope.lemma_visit_all_clash(
                good,
                second,
                exports,
                export_spans,
                false,
                world.exports.len(),
            );
            (2, i, path, b)
        } else {
            (1, i, path, b)
        }
    } else {
        (0, i, path, b)
    }
}

/// Interfaces whose names differ can be taken up.
proof fn lemma_interfaces_ok(
    map: ItemMap,
    types: Seq<TypeDefView>,
    interfaces: Seq<InterfaceView>,
    world: WorldView,
    import_spans: Seq<Span>,
    export_spans: Seq<Span>,
)
    requires
        uses_within(types, interfaces),
        world_ready(map, types, interfaces, world, import_spans, export_spans),
        below(map.interfaces, interfaces.len()),
        below(map.types, types.len()),
        names_apart(map, types, interfaces, world),
    ensures
        elaborated_interfaces(
            map,
            types,
            interfaces,
            world,
            import_spans,
            export_spans,
        ).is_ok(),
{
    let scope = world_scope(map, types, interfaces, world);
    let (part, i, path, b) = lemma_interfaces_clash(
        map,
        types,
        interfaces,
        world,
        import_spans,
        export_spans,
    );
    if elaborated_interfaces(
        map,
        types,
        interfaces,
        world,
        import_spans,
        export_spans,
    ).is_err() {
        let a = path.last();
        let name = scope.name_of(a.0, a.1);
        assert((Seq::<Step>::empty() + path)[path.len() - 1] == a);
        lemma_goes_by(map, types, interfaces, world, a, name);
        lemma_goes_by(map, types, interfaces, world, b, name);
        assert(a == b);
    }
}

/// The names of types and functions differ from those of the interfaces that were taken up.
proof fn lemma_names_free(
    map: ItemMap,
    types: Seq<TypeDefView>,
    interfaces: Seq<InterfaceView>,
    world: WorldView,
    import_spans: Seq<Span>,
    export_spans: Seq<Span>,
    state: Progress,
    import: bool,
    i: int,
    p: int,
)
    requires
        uses_within(types, interfaces),
        world_ready(map, types, interfaces, world, import_spans, export_spans),
        below(map.interfaces, interfaces.len()),
        below(map.types, types.len()),
        names_apart(map, types, interfaces, world),
        elaborated_interfaces(map, types, interfaces, world, import_spans, export_spans) == Ok::<
            Progress,
            ErrorView,
        >(state),
        0 <= i < side(world, import).len(),
        !(side(world, import)[i].1 is Interface),
        0 <= p < state.items(import).len(),
    ensures
        state.items(import)[p].0 != side(world, import)[i].0,
{
    lemma_taken_required(map, types, interfaces, world, import_spans, export_spans, state);
    let scope = world_scope(map, types, interfaces, world);
    let entry = state.items(import)[p];
    assert(scope.items_sound(state, Seq::empty(), import));
    let step = (entry.1->Interface_0, import);
    assert(state.taken(step.0, step.1));
    assert(required(map, types, interfaces, world, step));
    assert(goes_by(map.interfaces, side(world, step.1), interfaces, step.0, entry.0));
    assert(side(world, step.1)[i] == side(world, import)[i]);
}

/// A world can be elaborated if, and only if, the names of the interfaces that it has to import or
/// export differ from each other and from those of its types and functions.
pub proof fn worlds_elaborate_unless_names_clash(
    map: ItemMap,
    types: Seq<TypeDefView>,
    interfaces: Seq<InterfaceView>,
    world: WorldView,
    import_spans: Seq<Span>,
    export_spans: Seq<Span>,
)
    requires
        uses_within(types, interfaces),
        world_ready(map, types, interfaces, world, import_spans, export_spans),
        below(map.interfaces, interfaces.len()),
        below(map.types, types.len()),
        distinct(world.imports),
        distinct(world.exports),
    ensures
        elaborated(map, types, interfaces, world, import_spans, export_spans).is_ok()
            <==> names_apart(map, types, interfaces, world),
{
    let scope = world_scope(map, types, interfaces, world);
    let result = elaborated(map, types, interfaces, world, import_spans, export_spans);
    if names_apart(map, types, interfaces, world) {
        lemma_interfaces_ok(map, types, interfaces, world, import_spans, export_spans);
        let state = elaborated_interfaces(
            map,
            types,
            interfaces,
            world,
            import_spans,
            export_spans,
        )->Ok_0;
        assert forall|import: bool, i: int, p: int|
            #![trigger side(world, import)[i], state.items(import)[p]]
            0 <= i < side(world, import).len() && !(side(world, import)[i].1 is Interface) && 0 <= p
                < state.items(import).len() implies state.items(import)[p].0 != side(
            world,
            import,
        )[i].0 by {
            lemma_names_free(
                map,
                types,
                interfaces,
                world,
                import_spans,
                export_spans,
                state,
                import,
                i,
                p,
            );
        }
        let n = world.imports.len();
        assert forall|i: int, p: int|
            #![trigger world.imports[i], state.imports[p]]
            0 <= i < n && !(world.imports[i].1 is Interface) && 0 <= p
                < state.imports.len() implies state.imports[p].0 != world.imports[i].0 by {
            assert(side(world, true)[i] == world.imports[i]);
            assert(state.items(true)[p] == state.imports[p]);
        }
        assert forall|i: int, p: int|
            #![trigger world.exports[i], state.exports[p]]
            0 <= i < world.exports.len() && !(world.exports[i].1 is Interface) && 0 <= p
                < state.exports.len() implies state.exports[p].0 != world.exports[i].0 by {
            assert(side(world, false)[i] == world.exports[i]);
            assert(state.items(false)[p] == state.exports[p]);
        }
        Group::ImportedTypes.lemma_added_ok(map, state.imports, world.imports, import_spans, n);
        let with_types = Group::ImportedTypes.added(
            map,
            state.imports,
            world.imports,
            import_spans,
            n,
        )->Ok_0;
        assert forall|i: int, p: int|
            #![trigger world.imports[i], with_types[p]]
            0 <= i < n && Group::ImportedFunctions.holds(world.imports[i].1) && 0 <= p
                < with_types.len() implies with_types[p].0 != world.imports[i].0 by {
            if p < state.imports.len() {
                assert(with_types[p] == state.imports[p]);
            } else {
                let k = choose|k: int|
                    0 <= k < n && Group::ImportedTypes.holds((#[trigger] world.imports[k]).1)
                        && with_types[p].0 == world.imports[k].0;
                assert(k != i);
                assert(world.imports[k].0 != world.imports[i].0);
            }
        }
        Group::ImportedFunctions.lemma_added_ok(map, with_types, world.imports, import_spans, n);
        Group::ExportedFunctions.lemma_added_ok(
            map,
            state.exports,
            world.exports,
            export_spans,
            world.exports.len(),
        );
    }
    if let Ok(after) = result {
        let state = elaborated_interfaces(
            map,
            types,
            interfaces,
            world,
            import_spans,
            export_spans,
        )->Ok_0;
        lemma_elaborated(map, types, interfaces, world, import_spans, export_spans);
        lemma_taken_required(map, types, interfaces, world, import_spans, export_spans, state);
        worlds_keep_items(map, types, interfaces, world, import_spans, export_spans);
        assert forall|s: Step, t: Step, name: Seq<char>|
            #![trigger goes_by(map.interfaces, side(world, s.1), interfaces, s.0, name), goes_by(map.interfaces, side(world, t.1), interfaces, t.0, name)]
            required(map, types, interfaces, world, s) && required(map, types, interfaces, world, t)
                && goes_by(map.interfaces, side(world, s.1), interfaces, s.0, name) && goes_by(
                map.interfaces,
                side(world, t.1),
                interfaces,
                t.0,
                name,
            ) implies s == t by {
            lemma_placed_under_name(scope, state, s.0, s.1);
            lemma_placed_under_name(scope, state, t.0, t.1);
            let a = choose|a: int|
                0 <= a < state.items(s.1).len() && state.items(s.1)[a] == (
                    name,
                    ItemView::Interface(s.0),
                );
            let b = choose|b: int|
                0 <= b < state.items(t.1).len() && state.items(t.1)[b] == (
                    name,
                    ItemView::Interface(t.0),
                );
            if s.1 == t.1 {
                assert(scope.items_sound(state, Seq::empty(), s.1));
                assert(a == b);
            } else if s.1 {
                assert(state.imports[a].0 != state.exports[b].0);
            } else {
                assert(state.imports[b].0 != state.exports[a].0);
            }
        }
        assert forall|s: Step, i: int|
            #![trigger required(map, types, interfaces, world, s), side(world, s.1)[i]]
            required(map, types, interfaces, world, s) && 0 <= i < side(world, s.1).len() && !(side(
                world,
                s.1,
            )[i].1 is Interface) implies !goes_by(
            map.interfaces,
            side(world, s.1),
            interfaces,
            s.0,
            side(world, s.1)[i].0,
        ) by {
            let entry = side(world, s.1)[i];
            if goes_by(map.interfaces, side(world, s.1), interfaces, s.0, entry.0) {
                lemma_placed_under_name(scope, state, s.0, s.1);
                let items = side(after, s.1);
                let a = choose|a: int|
                    0 <= a < state.items(s.1).len() && state.items(s.1)[a] == (
                        entry.0,
                        ItemView::Interface(s.0),
                    );
                assert(items[a] == state.items(s.1)[a]);
                assert(items.contains((entry.0, mapped_item(map, entry.1))));
                let b = choose|b: int|
                    0 <= b < items.len() && items[b] == (entry.0, mapped_item(map, entry.1));
                assert(distinct(items));
                assert(a == b);
                assert(false);
            }
        }
    }
}

/// An elaborated world imports and exports the interfaces that it has to import and export and no
/// others, each under the name that the world gives to it, or else under its own.
pub proof fn worlds_list_what_they_require(
    map: ItemMap,
    types: Seq<TypeDefView>,
    interfaces: Seq<InterfaceView>,
    world: WorldView,
    import_spans: Seq<Span>,
    export_spans: Seq<Span>,
)
    requires
        uses_within(types, interfaces),
        world_ready(map, types, interfaces, world, import_spans, export_spans),
        below(map.interfaces, interfaces.len()),
        below(map.types, types.len()),
    ensures
        elaborated(map, types, interfaces, world, import_spans, export_spans) matches Ok(after)
            ==> forall|id: InterfaceId, import: bool, name: Seq<char>| #[trigger]
            side(after, import).contains((name, ItemView::Interface(id))) <==> required(
                map,
                types,
                interfaces,
                world,
                (id, import),
            ) && goes_by(map.interfaces, side(world, import), interfaces, id, name),
{
    let scope = world_scope(map, types, interfaces, world);
    if let Ok(after) = elaborated(map, types, interfaces, world, import_spans, export_spans) {
        let state = elaborated_interfaces(
            map,
            types,
            interfaces,
            world,
            import_spans,
            export_spans,
        )->Ok_0;
        lemma_elaborated(map, types, interfaces, world, import_spans, export_spans);
        lemma_taken_required(map, types, interfaces, world, import_spans, export_spans, state);
        assert forall|id: InterfaceId, import: bool, name: Seq<char>| #[trigger]
            side(after, import).contains((name, ItemView::Interface(id))) <==> required(
                map,
                types,
                interfaces,
                world,
                (id, import),
            ) && goes_by(map.interfaces, side(world, import), interfaces, id, name) by {
            let step = (id, import);
            let entry = (name, ItemView::Interface(id));
            let items = side(after, import);
            let before = state.items(import);
            if items.contains(entry) {
                let p = choose|p: int| 0 <= p < items.len() && items[p] == entry;
                assert(p < before.len());
                assert(before[p] == items[p]);
                assert(scope.items_sound(state, Seq::empty(), import));
                assert(state.taken(step.0, step.1));
                assert(goes_by(map.interfaces, side(world, step.1), interfaces, step.0, name));
            }
            if required(map, types, interfaces, world, step) && goes_by(
                map.interfaces,
                side(world, import),
                interfaces,
                id,
                name,
            ) {
                assert(state.taken(step.0, step.1));
                assert(goes_by(map.interfaces, side(world, step.1), interfaces, step.0, name));
                lemma_placed_under_name(scope, state, id, import);
                let p = choose|p: int| 0 <= p < before.len() && before[p] == entry;
                assert(items[p] == before[p]);
            }
        }
    }
}

/// Worlds list interfaces first, then types, then functions.
pub open spec fn rank(item: ItemView) -> int {
    match item {
        ItemView::Interface(_) => 0,
        ItemView::Type(_) => 1,
        ItemView::Function(_) => 2,
    }
}

impl Group {
    /// What is added keeps its order.
    proof fn lemma_added_order(
        self,
        map: ItemMap,
        start: ItemList,
        items: ItemList,
        spans: Seq<Span>,
        n: nat,
    )
        requires
            n <= items.len(),
            distinct(items),
        ensures
            self.added(map, start, items, spans, n) matches Ok(after) ==> forall|
                p: int,
                q: int,
                i: int,
                j: int,
            |
                #![trigger after[p], after[q], items[i], items[j]]
                start.len() <= p < after.len() && start.len() <= q < after.len() && 0 <= i < j < n
                    && self.holds(items[i].1) && self.holds(items[j].1) && after[p].0 == items[i].0
                    && after[q].0 == items[j].0 ==> p < q,
        decreases n,
    {
        if n > 0 {
            let m = (n - 1) as nat;
            self.lemma_added_order(map, start, items, spans, m);
            if let Ok(after) = self.added(map, start, items, spans, n) {
                let before = self.added(map, start, items, spans, m)->Ok_0;
                if self.holds(items[n - 1].1) {
                    lemma_find(before, items[n - 1].0);
                    assert forall|p: int, q: int, i: int, j: int|
                        #![trigger after[p], after[q], items[i], items[j]]
                        start.len() <= p < after.len() && start.len() <= q < after.len() && 0 <= i
                            < j < n && self.holds(items[i].1) && self.holds(items[j].1)
                            && after[p].0 == items[i].0 && after[q].0 == items[j].0 implies p
                        < q by {
                        assert(items[i].0 != items[j].0);
                        if p == before.len() {
                            assert(items[i].0 != items[n - 1].0);
                        } else if q < before.len() {
                            assert(after[p] == before[p] && after[q] == before[q]);
                            assert(j < n - 1);
                        }
                    }
                }
            }
        }
    }
}

/// What a list of imports or exports holds behind its interfaces.
proof fn lemma_segments(
    map: ItemMap,
    types: Seq<TypeDefView>,
    interfaces: Seq<InterfaceView>,
    world: WorldView,
    import_spans: Seq<Span>,
    export_spans: Seq<Span>,
    import: bool,
) -> (bounds: (int, int))
    requires
        uses_within(types, interfaces),
        world_ready(map, types, interfaces, world, import_spans, export_spans),
        below(map.interfaces, interfaces.len()),
        below(map.types, types.len()),
        elaborated(map, types, interfaces, world, import_spans, export_spans).is_ok(),
    ensures
        ({
            let after = elaborated(map, types, interfaces, world, import_spans, export_spans)->Ok_0;
            let items = side(after, import);
            let old = side(world, import);
            &&& 0 <= bounds.0 <= bounds.1 <= items.len()
            &&& forall|p: int|
                0 <= p < items.len() ==> rank((#[trigger] items[p]).1) == if p < bounds.0 {
                    0int
                } else if p < bounds.1 {
                    1
                } else {
                    2
                }
            &&& distinct(old) ==> forall|p: int, q: int, i: int, j: int|
                #![trigger items[p], items[q], old[i], old[j]]
                0 <= p < items.len() && 0 <= q < items.len() && 0 <= i < j < old.len() && rank(
                    old[i].1,
                ) != 0 && rank(items[p].1) == rank(old[i].1) && rank(items[q].1) == rank(old[j].1)
                    && rank(old[i].1) == rank(old[j].1) && items[p].0 == old[i].0 && items[q].0
                    == old[j].0 ==> p < q
        }),
{
    let scope = world_scope(map, types, interfaces, world);
    let after = elaborated(map, types, interfaces, world, import_spans, export_spans)->Ok_0;
    let state = elaborated_interfaces(
        map,
        types,
        interfaces,
        world,
        import_spans,
        export_spans,
    )->Ok_0;
    lemma_elaborated(map, types, interfaces, world, import_spans, export_spans);
    lemma_elaborated_interfaces(map, types, interfaces, world, import_spans, export_spans);
    assert(scope.items_sound(state, Seq::empty(), import));
    if import {
        let n = world.imports.len();
        let a = Group::ImportedTypes;
        let b = Group::ImportedFunctions;
        let with_types = a.added(map, state.imports, world.imports, import_spans, n)->Ok_0;
        a.lemma_added_all(map, state.imports, world.imports, import_spans, n);
        b.lemma_added_all(map, with_types, world.imports, import_spans, n);
        assert forall|p: int| 0 <= p < after.imports.len() implies rank(
            (#[trigger] after.imports[p]).1,
        ) == if p < state.imports.len() {
            0int
        } else if p < with_types.len() {
            1
        } else {
            2
        } by {
            if p < state.imports.len() {
                assert(after.imports[p] == state.imports[p]);
            } else if p < with_types.len() {
                assert(after.imports[p] == with_types[p]);
                let i = a.lemma_added_origin(
                    map,
                    state.imports,
                    world.imports,
                    import_spans,
                    n,
                    p,
                );
            } else {
                let i = b.lemma_added_origin(map, with_types, world.imports, import_spans, n, p);
            }
        }
        if distinct(world.imports) {
            a.lemma_added_order(map, state.imports, world.imports, import_spans, n);
            b.lemma_added_order(map, with_types, world.imports, import_spans, n);
            assert forall|p: int, q: int, i: int, j: int|
                #![trigger after.imports[p], after.imports[q], world.imports[i], world.imports[j]]
                0 <= p < after.imports.len() && 0 <= q < after.imports.len() && 0 <= i < j < n
                    && rank(world.imports[i].1) != 0 && rank(after.imports[p].1) == rank(
                    world.imports[i].1,
                ) && rank(after.imports[q].1) == rank(world.imports[j].1) && rank(
                    world.imports[i].1,
                ) == rank(world.imports[j].1) && after.imports[p].0 == world.imports[i].0
                    && after.imports[q].0 == world.imports[j].0 implies p < q by {
                if rank(world.imports[i].1) == 1 {
                    assert(after.imports[p] == with_types[p]);
                    assert(after.imports[q] == with_types[q]);
                }
            }
        }
        (state.imports.len() as int, with_types.len() as int)
    } else {
        let n = world.exports.len();
        let c = Group::ExportedFunctions;
        c.lemma_added_all(map, state.exports, world.exports, export_spans, n);
        assert forall|p: int| 0 <= p < after.exports.len() implies rank(
            (#[trigger] after.exports[p]).1,
        ) == if p < state.exports.len() {
            0int
        } else {
            2
        } by {
            if p < state.exports.len() {
                assert(after.exports[p] == state.exports[p]);
            } else {
                let i = c.lemma_added_origin(
                    map,
                    state.exports,
                    world.exports,
                    export_spans,
                    n,
                    p,
                );
            }
        }
        if distinct(world.exports) {
            c.lemma_added_order(map, state.exports, world.exports, export_spans, n);
        }
        (state.exports.len() as int, state.exports.len() as int)
    }
}

/// What an elaborated world imports and exports beside interfaces are copies of what it had before,
/// under the same names. Interfaces come first, then types, then functions, and both types and
/// functions keep their order.
pub proof fn worlds_list_types_and_functions_in_order(
    map: ItemMap,
    types: Seq<TypeDefView>,
    interfaces: Seq<InterfaceView>,
    world: WorldView,
    import_spans: Seq<Span>,
    export_spans: Seq<Span>,
    import: bool,
)
    requires
        uses_within(types, interfaces),
        world_ready(map, types, interfaces, world, import_spans, export_spans),
        below(map.interfaces, interfaces.len()),
        below(map.types, types.len()),
        distinct(world.imports),
        distinct(world.exports),
    ensures
        elaborated(map, types, interfaces, world, import_spans, export_spans) matches Ok(after)
            ==> {
            let items = side(after, import);
            let old = side(world, import);
            &&& forall|i: int|
                0 <= i < old.len() && rank((#[trigger] old[i]).1) != 0 ==> exists|p: int|
                    0 <= p < items.len() && (#[trigger] items[p]).0 == old[i].0 && copies_item(
                        map,
                        old[i].1,
                        items[p].1,
                    )
            &&& forall|p: int|
                0 <= p < items.len() && rank((#[trigger] items[p]).1) != 0 ==> exists|i: int|
                    0 <= i < old.len() && (#[trigger] old[i]).0 == items[p].0 && copies_item(
                        map,
                        old[i].1,
                        items[p].1,
                    )
            &&& forall|p: int, q: int|
                #![trigger items[p], items[q]]
                0 <= p < q < items.len() ==> rank(items[p].1) <= rank(items[q].1)
            &&& forall|p: int, q: int, i: int, j: int|
                #![trigger items[p], items[q], old[i], old[j]]
                0 <= p < items.len() && 0 <= q < items.len() && 0 <= i < j < old.len() && rank(
                    old[i].1,
                ) != 0 && rank(items[p].1) == rank(old[i].1) && rank(items[q].1) == rank(old[j].1)
                    && rank(old[i].1) == rank(old[j].1) && items[p].0 == old[i].0 && items[q].0
                    == old[j].0 ==> p < q
        },
{
    if let Ok(after) = elaborated(map, types, interfaces, world, import_spans, export_spans) {
        let items = side(after, import);
        let old = side(world, import);
        let bounds = lemma_segments(
            map,
            types,
            interfaces,
            world,
            import_spans,
            export_spans,
            import,
        );
        worlds_keep_items(map, types, interfaces, world, import_spans, export_spans);
        worlds_hold_nothing_else(map, types, interfaces, world, import_spans, export_spans);
        assert forall|i: int| 0 <= i < old.len() && rank((#[trigger] old[i]).1) != 0 implies exists|
            p: int,
        |
            0 <= p < items.len() && (#[trigger] items[p]).0 == old[i].0 && copies_item(
                map,
                old[i].1,
                items[p].1,
            ) by {
            let entry = (old[i].0, mapped_item(map, old[i].1));
            assert(items.contains(entry));
            let p = choose|p: int| 0 <= p < items.len() && items[p] == entry;
            lemma_copies_item(map, old[i].1);
            assert(items[p].0 == old[i].0);
        }
        assert forall|p: int|
            0 <= p < items.len() && rank((#[trigger] items[p]).1) != 0 implies exists|i: int|
            0 <= i < old.len() && (#[trigger] old[i]).0 == items[p].0 && copies_item(
                map,
                old[i].1,
                items[p].1,
            ) by {
            assert(held_before(map, old, items[p]));
            let i = choose|i: int|
                0 <= i < old.len() && items[p] == (
                    (#[trigger] old[i]).0,
                    mapped_item(map, old[i].1),
                );
            lemma_copies_item(map, old[i].1);
            assert(old[i].0 == items[p].0);
        }
    }
}

} // verus!
