//! In which order an elaborated world lists the interfaces that it needs.
use vstd::prelude::*;

use crate::bound::lemma_unused_decreases;
use crate::closure::{lemma_elaborated, lemma_elaborated_interfaces, lemma_placed_under_name};
use crate::elaborate::{
    asks_once, below, elaborated, elaborated_interfaces, lemma_nodes_push, node, nodes, use_of,
    uses_within, wanted_interfaces, wanted_owners, world_ready, world_scope, Chain, Progress, Scope,
    Step,
};
use crate::elaboration::{entails, lemma_entails, side};
use crate::remap::{item_within, ItemMap};
use crate::types::{
    InterfaceId, InterfaceView, ItemView, KindView, Span, Type, TypeDefView, TypeOwner, WorldView,
};

verus! {

/// What a world asks for, in order: the interfaces that it imports, those that the types come from
/// which it imports, and the interfaces that it exports.
pub open spec fn requests(map: ItemMap, types: Seq<TypeDefView>, world: WorldView) -> Seq<
    Option<Step>,
> {
    Seq::new(
        world.imports.len(),
        |i: int|
            match world.imports[i].1 {
                ItemView::Interface(x) => Some((map.interfaces[x as int], true)),
                _ => None,
            },
    ) + Seq::new(
        world.imports.len(),
        |i: int|
            match world.imports[i].1 {
                ItemView::Type(t) => match types[map.types[t as int] as int].kind {
                    KindView::Type(Type::Id(other)) => match types[other as int].owner {
                        TypeOwner::Interface(owner) => Some((owner, true)),
                        _ => None,
                    },
                    _ => None,
                },
                _ => None,
            },
    ) + Seq::new(
        world.exports.len(),
        |i: int|
            match world.exports[i].1 {
                ItemView::Interface(x) => Some((map.interfaces[x as int], false)),
                _ => None,
            },
    )
}

/// A chain of interfaces that leads from one to another, each of which entails the next.
pub open spec fn connects(
    map: ItemMap,
    types: Seq<TypeDefView>,
    interfaces: Seq<InterfaceView>,
    world: WorldView,
    chain: Seq<Step>,
) -> bool {
    chain.len() > 0 && forall|i: int|
        0 <= i < chain.len() - 1 ==> entails(
            map,
            types,
            interfaces,
            world,
            #[trigger] chain[i],
            chain[i + 1],
        )
}

/// One of the first `n` requests of a world leads to an interface.
pub open spec fn called_for(
    map: ItemMap,
    types: Seq<TypeDefView>,
    interfaces: Seq<InterfaceView>,
    world: WorldView,
    n: int,
    step: Step,
) -> bool {
    exists|i: int, chain: Seq<Step>|
        0 <= i < n && i < requests(map, types, world).len() && #[trigger] requests(
            map,
            types,
            world,
        )[i] == Some(chain[0]) && #[trigger] connects(map, types, interfaces, world, chain)
            && chain.last() == step
}

/// Lists only grow.
spec fn grows(before: Progress, after: Progress) -> bool {
    &&& before.imports.is_prefix_of(after.imports)
    &&& before.exports.is_prefix_of(after.exports)
}

/// One of the first `n` interfaces of a list leads to another.
spec fn reached_from(
    scope: Scope,
    wanted: Seq<Option<InterfaceId>>,
    import: bool,
    n: int,
    step: Step,
) -> bool {
    exists|i: int|
        0 <= i < n && i < wanted.len() && (#[trigger] wanted[i] matches Some(id) && scope.reaches(
            (id, import),
            step,
        ))
}

impl Scope {
    proof fn lemma_visit_grows(
        self,
        state: Progress,
        chain: Chain,
        id: InterfaceId,
        import: bool,
        span: Span,
    )
        ensures
            self.visit(state, chain, id, import, span) matches Ok(after) ==> grows(state, after),
        decreases self.room(chain), 0nat,
    {
        if !state.taken(id, import) && id < self.graph.uses.len() && !chain.contains((id, import)) {
            let n = self.graph.uses[id as int].len();
            lemma_nodes_push(chain, (id, import));
            lemma_unused_decreases(2 * self.graph.uses.len(), nodes(chain), node((id, import)));
            self.lemma_visit_uses_grows(
                state.take(id, import),
                chain.push((id, import)),
                id,
                import,
                span,
                n,
            );
        }
    }

    proof fn lemma_visit_uses_grows(
        self,
        state: Progress,
        chain: Chain,
        id: InterfaceId,
        import: bool,
        span: Span,
        n: nat,
    )
        ensures
            self.visit_uses(state, chain, id, import, span, n) matches Ok(after) ==> grows(
                state,
                after,
            ),
        decreases self.room(chain), n,
    {
        if n > 0 {
            let m = (n - 1) as nat;
            self.lemma_visit_uses_grows(state, chain, id, import, span, m);
            if let Ok(before) = self.visit_uses(state, chain, id, import, span, m) {
                if let Some(dep) = self.graph.uses[id as int][n - 1] {
                    self.lemma_visit_grows(
                        before,
                        chain,
                        dep,
                        self.imports_use(dep, import),
                        span,
                    );
                }
            }
        }
    }

    /// What was taken up comes with everything that it leads to.
    proof fn lemma_taken_closed(self, state: Progress, a: Step, path: Seq<Step>, i: int)
        requires
            self.sound(state, Seq::empty()),
            state.taken(a.0, a.1),
            self.is_path(path),
            path[0] == a,
            0 <= i < path.len(),
        ensures
            state.taken(path[i].0, path[i].1),
        decreases i,
    {
        if i > 0 {
            self.lemma_taken_closed(state, a, path, i - 1);
            let from = path[i - 1];
            let to = path[i];
            assert(self.leads_to(path[i - 1], path[i - 1 + 1]));
            let uses = self.graph.uses[from.0 as int];
            let j = choose|j: int| 0 <= j < uses.len() && #[trigger] uses[j] == Some(to.0);
            assert(self.uses_taken(state, from.0, from.1, uses.len()));
            assert(self.graph.uses[from.0 as int][j] == Some(to.0));
        }
    }

    /// What is taken up for the first interfaces of a list.
    proof fn lemma_visit_all_first(
        self,
        state: Progress,
        wanted: Seq<Option<InterfaceId>>,
        spans: Seq<Span>,
        import: bool,
        m: nat,
        n: nat,
    )
        requires
            self.sound(state, Seq::empty()),
            m <= n <= wanted.len(),
            forall|i: int|
                0 <= i < wanted.len() ==> (#[trigger] wanted[i] matches Some(id) ==> id
                    < self.graph.uses.len()),
            self.visit_all(state, wanted, spans, import, n).is_ok(),
        ensures
            self.visit_all(state, wanted, spans, import, m) matches Ok(first) && {
                &&& self.sound(first, Seq::empty())
                &&& grows(state, first)
                &&& grows(first, self.visit_all(state, wanted, spans, import, n)->Ok_0)
                &&& forall|step: Step|
                    #![trigger first.taken(step.0, step.1)]
                    first.taken(step.0, step.1) <==> state.taken(step.0, step.1) || reached_from(
                        self,
                        wanted,
                        import,
                        m as int,
                        step,
                    )
            },
        decreases n,
    {
        let after = self.visit_all(state, wanted, spans, import, n)->Ok_0;
        if n > 0 {
            let k = (n - 1) as nat;
            let before = self.visit_all(state, wanted, spans, import, k)->Ok_0;
            let lesser = if m < n {
                m
            } else {
                k
            };
            self.lemma_visit_all_first(state, wanted, spans, import, lesser, k);
            if let Some(id) = wanted[n - 1] {
                self.lemma_visit_grows(before, Seq::empty(), id, import, spans[n - 1]);
            }
            if m == n {
                self.lemma_visit_all_sound(state, wanted, spans, import, n);
                if let Some(id) = wanted[n - 1] {
                    self.lemma_visit_needed(before, Seq::empty(), id, import, spans[n - 1]);
                }
                assert forall|step: Step|
                    #![trigger after.taken(step.0, step.1)]
                    after.taken(step.0, step.1) <==> state.taken(step.0, step.1) || reached_from(
                        self,
                        wanted,
                        import,
                        n as int,
                        step,
                    ) by {
                    if after.taken(step.0, step.1) {
                        if before.taken(step.0, step.1) {
                            if !state.taken(step.0, step.1) {
                                assert(reached_from(self, wanted, import, k as int, step));
                                let i = choose|i: int|
                                    0 <= i < k && i < wanted.len() && (
                                    #[trigger] wanted[i] matches Some(id) && self.reaches(
                                        (id, import),
                                        step,
                                    ));
                                assert(wanted[i].is_some());
                            }
                        } else {
                            assert(wanted[n - 1].is_some());
                            assert(self.reaches((wanted[n - 1].unwrap(), import), step));
                        }
                    }
                    if reached_from(self, wanted, import, n as int, step) {
                        let i = choose|i: int|
                            0 <= i < n && i < wanted.len() && (
                            #[trigger] wanted[i] matches Some(id) && self.reaches(
                                (id, import),
                                step,
                            ));
                        let first = (wanted[i].unwrap(), import);
                        assert(after.taken(first.0, first.1));
                        let path = choose|path: Seq<Step>| #[trigger]
                            self.is_path(path) && path.first() == first && path.last() == step;
                        self.lemma_taken_closed(after, first, path, path.len() - 1);
                    }
                }
            }
        } else {
            assert forall|step: Step|
                #![trigger after.taken(step.0, step.1)]
                after.taken(step.0, step.1) <==> state.taken(step.0, step.1) || reached_from(
                    self,
                    wanted,
                    import,
                    m as int,
                    step,
                ) by {}
        }
    }
}

/// One of the first `n` requests of a world leads to an interface, as far as its scope says.
spec fn called_by(
    map: ItemMap,
    types: Seq<TypeDefView>,
    interfaces: Seq<InterfaceView>,
    world: WorldView,
    n: int,
    step: Step,
) -> bool {
    exists|i: int|
        0 <= i < n && i < requests(map, types, world).len() && (#[trigger] requests(
            map,
            types,
            world,
        )[i] matches Some(first) && world_scope(map, types, interfaces, world).reaches(first, step))
}

proof fn lemma_called_by(
    map: ItemMap,
    types: Seq<TypeDefView>,
    interfaces: Seq<InterfaceView>,
    world: WorldView,
    n: int,
    step: Step,
)
    requires
        asks_once(map.interfaces, world.exports),
    ensures
        called_by(map, types, interfaces, world, n, step) <==> called_for(
            map,
            types,
            interfaces,
            world,
            n,
            step,
        ),
{
    let scope = world_scope(map, types, interfaces, world);
    let asked = requests(map, types, world);
    if called_by(map, types, interfaces, world, n, step) {
        let i = choose|i: int|
            0 <= i < n && i < asked.len() && (#[trigger] asked[i] matches Some(first)
                && scope.reaches(first, step));
        let path = choose|path: Seq<Step>| #[trigger]
            scope.is_path(path) && path.first() == asked[i].unwrap() && path.last() == step;
        assert forall|k: int| 0 <= k < path.len() - 1 implies entails(
            map,
            types,
            interfaces,
            world,
            #[trigger] path[k],
            path[k + 1],
        ) by {
            lemma_entails(map, types, interfaces, world, path[k], path[k + 1]);
        }
        assert(connects(map, types, interfaces, world, path));
        assert(requests(map, types, world)[i] == Some(path[0]));
    }
    if called_for(map, types, interfaces, world, n, step) {
        let (i, chain) = choose|i: int, chain: Seq<Step>|
            0 <= i < n && i < asked.len() && #[trigger] asked[i] == Some(chain[0])
                && #[trigger] connects(map, types, interfaces, world, chain) && chain.last()
                == step;
        assert forall|k: int| 0 <= k < chain.len() - 1 implies scope.leads_to(
            #[trigger] chain[k],
            chain[k + 1],
        ) by {
            lemma_entails(map, types, interfaces, world, chain[k], chain[k + 1]);
        }
        assert(scope.is_path(chain));
        assert(scope.reaches(chain[0], step));
        assert(asked[i] == Some(chain[0]));
    }
}

/// The requests of a world are what is visited, part by part.
proof fn lemma_parts(
    map: ItemMap,
    types: Seq<TypeDefView>,
    interfaces: Seq<InterfaceView>,
    world: WorldView,
    n: int,
    step: Step,
)
    requires
        0 <= n <= 2 * world.imports.len() + world.exports.len(),
    ensures
        ({
            let scope = world_scope(map, types, interfaces, world);
            let count = world.imports.len() as int;
            let imports = wanted_interfaces(map.interfaces, world.imports);
            let owners = wanted_owners(types, map.types, world.imports);
            let exports = wanted_interfaces(map.interfaces, world.exports);
            called_by(map, types, interfaces, world, n, step) <==> {
                ||| reached_from(scope, imports, true, n, step)
                ||| reached_from(scope, owners, true, n - count, step)
                ||| reached_from(scope, exports, false, n - 2 * count, step)
            }
        }),
{
    let scope = world_scope(map, types, interfaces, world);
    let asked = requests(map, types, world);
    let count = world.imports.len() as int;
    let imports = wanted_interfaces(map.interfaces, world.imports);
    let owners = wanted_owners(types, map.types, world.imports);
    let exports = wanted_interfaces(map.interfaces, world.exports);
    if called_by(map, types, interfaces, world, n, step) {
        let i = choose|i: int|
            0 <= i < n && i < asked.len() && (#[trigger] asked[i] matches Some(first)
                && scope.reaches(first, step));
        let first = asked[i].unwrap();
        if i < count {
            assert(imports[i] == Some(first.0) && first.1);
        } else if i < 2 * count {
            assert(owners[i - count] == Some(first.0) && first.1);
        } else {
            assert(exports[i - 2 * count] == Some(first.0) && !first.1);
        }
    }
    if reached_from(scope, imports, true, n, step) {
        let i = choose|i: int|
            0 <= i < n && i < imports.len() && (#[trigger] imports[i] matches Some(id)
                && scope.reaches((id, true), step));
        assert(asked[i] == Some((imports[i].unwrap(), true)));
    }
    if reached_from(scope, owners, true, n - count, step) {
        let i = choose|i: int|
            0 <= i < n - count && i < owners.len() && (#[trigger] owners[i] matches Some(id)
                && scope.reaches((id, true), step));
        assert(asked[count + i] == Some((owners[i].unwrap(), true)));
    }
    if reached_from(scope, exports, false, n - 2 * count, step) {
        let i = choose|i: int|
            0 <= i < n - 2 * count && i < exports.len() && (#[trigger] exports[i] matches Some(id)
                && scope.reaches((id, false), step));
        assert(asked[2 * count + i] == Some((exports[i].unwrap(), false)));
    }
}

/// What was taken up after the first `n` requests of a world.
proof fn lemma_stage(
    map: ItemMap,
    types: Seq<TypeDefView>,
    interfaces: Seq<InterfaceView>,
    world: WorldView,
    import_spans: Seq<Span>,
    export_spans: Seq<Span>,
    n: int,
) -> (stage: Progress)
    requires
        uses_within(types, interfaces),
        world_ready(map, types, interfaces, world, import_spans, export_spans),
        below(map.interfaces, interfaces.len()),
        below(map.types, types.len()),
        elaborated_interfaces(
            map,
            types,
            interfaces,
            world,
            import_spans,
            export_spans,
        ).is_ok(),
        0 <= n <= 2 * world.imports.len() + world.exports.len(),
    ensures
        world_scope(map, types, interfaces, world).sound(stage, Seq::empty()),
        grows(
            stage,
            elaborated_interfaces(
                map,
                types,
                interfaces,
                world,
                import_spans,
                export_spans,
            )->Ok_0,
        ),
        forall|step: Step|
            #![trigger stage.taken(step.0, step.1)]
            stage.taken(step.0, step.1) <==> called_for(map, types, interfaces, world, n, step),
{
    let scope = world_scope(map, types, interfaces, world);
    let start = Progress::start();
    let imports = wanted_interfaces(map.interfaces, world.imports);
    let owners = wanted_owners(types, map.types, world.imports);
    let exports = wanted_interfaces(map.interfaces, world.exports);
    let count = world.imports.len();
    let last = world.exports.len();
    assert(scope.sound(start, Seq::empty())) by {
        assert forall|i: int, j: int|
            #![trigger scope.graph.uses[i][j]]
            0 <= i < scope.graph.uses.len() && 0 <= j < scope.graph.uses[i].len() implies (
        scope.graph.uses[i][j] matches Some(dep) ==> dep < scope.graph.uses.len()) by {
            assert(scope.graph.uses[i][j] == use_of(types, interfaces[i].types[j].1));
        }
    }
    assert forall|i: int| 0 <= i < imports.len() implies (#[trigger] imports[i] matches Some(id)
        ==> id < scope.graph.uses.len()) by {
        assert(item_within(world.imports[i].1, map.interfaces.len(), map.types.len()));
    }
    assert forall|i: int| 0 <= i < owners.len() implies (#[trigger] owners[i] matches Some(id) ==> id
        < scope.graph.uses.len()) by {
        assert(item_within(world.imports[i].1, map.interfaces.len(), map.types.len()));
    }
    assert forall|i: int| 0 <= i < exports.len() implies (#[trigger] exports[i] matches Some(id)
        ==> id < scope.graph.uses.len()) by {
        assert(item_within(world.exports[i].1, map.interfaces.len(), map.types.len()));
    }
    let first = scope.visit_all(start, imports, import_spans, true, count)->Ok_0;
    let second = scope.visit_all(first, owners, import_spans, true, count)->Ok_0;
    let a = if n <= count {
        n as nat
    } else {
        count
    };
    let b = if n <= count {
        0
    } else if n <= 2 * count {
        (n - count) as nat
    } else {
        count
    };
    let c = if n <= 2 * count {
        0
    } else {
        (n - 2 * count) as nat
    };
    scope.lemma_visit_all_first(start, imports, import_spans, true, count, count);
    scope.lemma_visit_all_first(start, imports, import_spans, true, a, count);
    scope.lemma_visit_all_first(first, owners, import_spans, true, count, count);
    scope.lemma_visit_all_first(first, owners, import_spans, true, b, count);
    scope.lemma_visit_all_first(second, exports, export_spans, false, 0, last);
    scope.lemma_visit_all_first(second, exports, export_spans, false, c, last);
    let stage = if n <= count {
        scope.visit_all(start, imports, import_spans, true, a)->Ok_0
    } else if n <= 2 * count {
        scope.visit_all(first, owners, import_spans, true, b)->Ok_0
    } else {
        scope.visit_all(second, exports, export_spans, false, c)->Ok_0
    };
    assert forall|step: Step|
        #![trigger stage.taken(step.0, step.1)]
        stage.taken(step.0, step.1) <==> called_for(map, types, interfaces, world, n, step) by {
        lemma_called_by(map, types, interfaces, world, n, step);
        lemma_parts(map, types, interfaces, world, n, step);
        assert(!start.taken(step.0, step.1));
        lemma_reached_all(scope, imports, true, a as int, n, step);
        lemma_reached_all(scope, owners, true, b as int, n - count, step);
        lemma_reached_all(scope, exports, false, c as int, n - 2 * count, step);
        assert(first.taken(step.0, step.1) <==> reached_from(
            scope,
            imports,
            true,
            count as int,
            step,
        ));
        assert(second.taken(step.0, step.1) <==> first.taken(step.0, step.1) || reached_from(
            scope,
            owners,
            true,
            count as int,
            step,
        ));
    }
    stage
}

/// There is nothing behind the end of a list.
proof fn lemma_reached_all(
    scope: Scope,
    wanted: Seq<Option<InterfaceId>>,
    import: bool,
    m: int,
    n: int,
    step: Step,
)
    requires
        m == n || m == 0 && n <= 0 || m == wanted.len() && n >= m,
    ensures
        reached_from(scope, wanted, import, m, step) <==> reached_from(
            scope,
            wanted,
            import,
            n,
            step,
        ),
{
    if reached_from(scope, wanted, import, m, step) {
        let i = choose|i: int|
            0 <= i < m && i < wanted.len() && (#[trigger] wanted[i] matches Some(id)
                && scope.reaches((id, import), step));
        assert(wanted[i].is_some());
    }
    if reached_from(scope, wanted, import, n, step) {
        let i = choose|i: int|
            0 <= i < n && i < wanted.len() && (#[trigger] wanted[i] matches Some(id)
                && scope.reaches((id, import), step));
        assert(wanted[i].is_some());
    }
}

/// An elaborated world lists interfaces in the order of its first request that leads to them: for
/// the interfaces that it imports, then for those that its types come from, then for those that it
/// exports.
pub proof fn interfaces_follow_the_requests(
    map: ItemMap,
    types: Seq<TypeDefView>,
    interfaces: Seq<InterfaceView>,
    world: WorldView,
    import_spans: Seq<Span>,
    export_spans: Seq<Span>,
    import: bool,
    p: int,
    q: int,
    n: int,
)
    requires
        uses_within(types, interfaces),
        world_ready(map, types, interfaces, world, import_spans, export_spans),
        below(map.interfaces, interfaces.len()),
        below(map.types, types.len()),
        0 <= n <= 2 * world.imports.len() + world.exports.len(),
        0 <= p < q,
    ensures
        elaborated(map, types, interfaces, world, import_spans, export_spans) matches Ok(after)
            ==> {
            let items = side(after, import);
            q < items.len() ==> (items[p].1 matches ItemView::Interface(a) ==> (
            items[q].1 matches ItemView::Interface(b) ==> called_for(
                map,
                types,
                interfaces,
                world,
                n,
                (b, import),
            ) ==> called_for(map, types, interfaces, world, n, (a, import))))
        },
{
    if let Ok(after) = elaborated(map, types, interfaces, world, import_spans, export_spans) {
        let items = side(after, import);
        if q < items.len() && items[p].1 is Interface && items[q].1 is Interface {
            let scope = world_scope(map, types, interfaces, world);
            let a = items[p].1->Interface_0;
            let b = items[q].1->Interface_0;
            let state = elaborated_interfaces(
                map,
                types,
                interfaces,
                world,
                import_spans,
                export_spans,
            )->Ok_0;
            let stage = lemma_stage(map, types, interfaces, world, import_spans, export_spans, n);
            lemma_elaborated(map, types, interfaces, world, import_spans, export_spans);
            lemma_elaborated_interfaces(
                map,
                types,
                interfaces,
                world,
                import_spans,
                export_spans,
            );
            if called_for(map, types, interfaces, world, n, (b, import)) {
                let step = (b, import);
                assert(stage.taken(step.0, step.1));
                lemma_placed_under_name(scope, stage, b, import);
                let listed = stage.items(import);
                let entry = (scope.name_of(b, import), ItemView::Interface(b));
                let k = choose|k: int| 0 <= k < listed.len() && listed[k] == entry;
                assert(state.items(import)[k] == listed[k]);
                assert(items[k] == listed[k]);
                assert(scope.items_sound(state, Seq::empty(), import));
                assert(state.items(import)[q] == items[q]);
                assert(k == q);
                assert(listed[p] == state.items(import)[p]);
                assert(scope.items_sound(stage, Seq::empty(), import));
                assert(stage.taken(a, import));
                let other = (a, import);
                assert(stage.taken(other.0, other.1));
            }
        }
    }
}

} // verus!
