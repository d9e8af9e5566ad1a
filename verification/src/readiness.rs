//! What it takes to push a package, and to go on pushing after a merge.
use vstd::prelude::*;

use crate::append::{
    can_elaborate, can_push, elaborated_worlds, pushed, pushed_map, with_interfaces, with_package,
};
use crate::bound::lemma_unused_decreases;
use crate::closure::lemma_explicit_names_of;
use crate::correspondence::{comparable, matched_items_correspond, parented_resolves_merge};
use crate::descent::references_keep_names;
use crate::elaborate::{
    asks_for, asks_once, lemma_nodes_push, node, nodes, use_graph, use_of, use_of_world, use_valid,
    wanted_interfaces, wanted_owners, world_scope, Chain, Progress, Scope, Step,
};
use crate::link::{lemma_linked, linked, linkable, Deps};
use crate::lineage::{lemma_source, merge_of, merging_maps_parents};
use crate::matching::{lemma_matched_within, matched, Plan};
use crate::merge::merged;
use crate::merge_laws::{
    lemma_union_len, mapped_owner, merging_keeps_items, merging_keeps_valid, merging_maps_items,
};
use crate::package::UnresolvedView;
use crate::remap::{item_within, mapped_ids, mapped_kind, RemapView};
use crate::resolve::ResolveView;
use crate::types::{
    InterfaceId, InterfaceView, ItemView, KindView, Span, Type, TypeDefView, TypeId, TypeOwner,
};

verus! {

/// If a type in an interface stands for one of another interface then that interface has a name.
pub open spec fn use_named(
    types: Seq<TypeDefView>,
    interfaces: Seq<InterfaceView>,
    i: int,
    id: TypeId,
) -> bool {
    use_of(types, id) matches Some(owner) ==> owner == i || interfaces[owner as int].name.is_some()
}

/// What interfaces use can be used by any world: it is there, other interfaces that they use have a
/// name, and it is not part of a world.
pub open spec fn uses_valid(types: Seq<TypeDefView>, interfaces: Seq<InterfaceView>) -> bool {
    forall|i: int, j: int|
        #![trigger interfaces[i].types[j]]
        0 <= i < interfaces.len() && 0 <= j < interfaces[i].types.len() ==> use_valid(
            types,
            interfaces,
            interfaces[i].types[j].1,
        ) && use_named(types, interfaces, i, interfaces[i].types[j].1) && !use_of_world(
            types,
            interfaces[i].types[j].1,
        )
}

impl UnresolvedView {
    /// The interface that a type comes from, where the type stands for one of an interface and both
    /// are of the package.
    pub open spec fn local_use(self, t: int) -> Option<InterfaceId> {
        match self.types[t].kind {
            KindView::Type(Type::Id(other)) => match self.types[other as int].owner {
                TypeOwner::Interface(id) => if self.foreign_types() <= other {
                    Some(id)
                } else {
                    None
                },
                _ => None,
            },
            _ => None,
        }
    }

    /// If a type stands for another one of the package then that one is not part of a world.
    pub open spec fn use_free(self, t: int) -> bool {
        self.types[t].kind matches KindView::Type(Type::Id(other)) ==> self.foreign_types() <= other
            ==> !(self.types[other as int].owner is World)
    }

    /// A world imports an interface.
    pub open spec fn imports_interface(self, w: int, id: InterfaceId) -> bool {
        exists|j: int|
            0 <= j < self.worlds[w].imports.len() && (#[trigger] self.worlds[w].imports[j]).1
                == ItemView::Interface(id)
    }

    /// What the interfaces and the worlds of the package use of it can be used: other interfaces
    /// that they use have a name, but for those that a world imports itself.
    pub open spec fn uses_ready(self) -> bool {
        &&& forall|i: int, j: int|
            #![trigger self.interfaces[i].types[j]]
            self.foreign_interfaces() <= i < self.interfaces.len() && 0 <= j
                < self.interfaces[i].types.len() ==> {
                let t = self.interfaces[i].types[j].1 as int;
                &&& self.use_free(t)
                &&& self.local_use(t) matches Some(id) ==> id == i
                    || self.interfaces[id as int].name.is_some()
            }
        &&& forall|i: int, j: int|
            #![trigger self.worlds[i].imports[j]]
            0 <= i < self.worlds.len() && 0 <= j < self.worlds[i].imports.len() ==> (
            self.worlds[i].imports[j].1 matches ItemView::Type(t) ==> (self.local_use(
                t as int,
            ) matches Some(id) ==> self.interfaces[id as int].name.is_some()
                || self.imports_interface(i, id)))
    }

    /// No world of the package imports an interface twice or exports one twice, once its references
    /// are linked.
    pub open spec fn worlds_ask_once(self, resolve: ResolveView, deps: Deps) -> bool {
        linked(resolve, self, deps) matches Ok(link) ==> forall|i: int|
            0 <= i < self.worlds.len() ==> asks_once(
                pushed_map(resolve, self, link).interfaces,
                (#[trigger] self.worlds[i]).imports,
            ) && asks_once(pushed_map(resolve, self, link).interfaces, self.worlds[i].exports)
    }
}

/// What a type that was moved uses: what it used in the package, or an interface with a name.
pub proof fn lemma_use_moved(
    resolve: ResolveView,
    package: UnresolvedView,
    deps: Deps,
    link: RemapView,
    t: int,
)
    requires
        resolve.valid(),
        resolve.parented(),
        package.valid(),
        package.parented(),
        linkable(resolve, package, deps),
        linked(resolve, package, deps) == Ok::<RemapView, crate::error::ErrorView>(link),
        with_interfaces(resolve, package, pushed_map(resolve, package, link)).fits(),
        package.foreign_types() <= t < package.types.len(),
    ensures
        ({
            let map = pushed_map(resolve, package, link);
            let middle = with_interfaces(resolve, package, map);
            &&& use_valid(middle.types, middle.interfaces, map.types[t])
            &&& package.use_free(t) ==> !use_of_world(middle.types, map.types[t])
            &&& match (use_of(middle.types, map.types[t]), package.local_use(t)) {
                (Some(new), Some(old)) => {
                    &&& old < package.interfaces.len()
                    &&& new == map.interfaces[old as int]
                    &&& middle.interfaces[new as int].name == package.interfaces[old as int].name
                },
                (Some(new), None) => new < resolve.interfaces.len()
                    && middle.interfaces[new as int].name.is_some(),
                (None, _) => true,
            }
        }),
{
    let map = pushed_map(resolve, package, link);
    let middle = with_interfaces(resolve, package, map);
    lemma_linked(resolve, package, deps);
    references_keep_names(resolve, package, deps);
    let base = resolve.types.len();
    let new = base + (t - package.foreign_types());
    assert(map.types[t] == new);
    assert(middle.types[new].kind == mapped_kind(map.types, package.types[t].kind));
    assert(package.type_valid(t));
    if let KindView::Type(Type::Id(other)) = package.types[t].kind {
        let target = map.types[other as int];
        if other < package.foreign_types() {
            assert(package.type_bare(other as int));
            assert(target == link.types[other as int]);
            assert(target < base);
            assert(middle.types[target as int] == resolve.types[target as int]);
            let owner = package.types[other as int].owner->Interface_0;
            let id = link.interfaces[owner as int];
            assert(resolve.types[target as int].owner == TypeOwner::Interface(id));
            assert(middle.interfaces[id as int] == resolve.interfaces[id as int]);
        } else {
            assert(target == base + (other - package.foreign_types()));
            assert(package.type_valid(other as int));
            assert(package.type_listed(other as int));
            if let TypeOwner::Interface(owner) = package.types[other as int].owner {
                let id = map.interfaces[owner as int];
                assert(middle.types[target as int].owner == TypeOwner::Interface(id));
                assert(middle.interfaces[id as int].name == package.interfaces[owner as int].name);
            }
        }
    }
}

/// What the interfaces of a resolve and of a package that was moved into it use can be used.
proof fn lemma_middle_uses_valid(
    resolve: ResolveView,
    package: UnresolvedView,
    deps: Deps,
    link: RemapView,
)
    requires
        resolve.valid(),
        resolve.parented(),
        uses_valid(resolve.types, resolve.interfaces),
        package.valid(),
        package.parented(),
        package.uses_ready(),
        linkable(resolve, package, deps),
        linked(resolve, package, deps) == Ok::<RemapView, crate::error::ErrorView>(link),
        with_interfaces(resolve, package, pushed_map(resolve, package, link)).fits(),
    ensures
        ({
            let middle = with_interfaces(resolve, package, pushed_map(resolve, package, link));
            uses_valid(middle.types, middle.interfaces)
        }),
{
    let map = pushed_map(resolve, package, link);
    let middle = with_interfaces(resolve, package, map);
    let base = resolve.interfaces.len();
    lemma_linked(resolve, package, deps);
    assert forall|i: int, j: int|
        #![trigger middle.interfaces[i].types[j]]
        0 <= i < middle.interfaces.len() && 0 <= j
            < middle.interfaces[i].types.len() implies use_valid(
        middle.types,
        middle.interfaces,
        middle.interfaces[i].types[j].1,
    ) && use_named(
        middle.types,
        middle.interfaces,
        i,
        middle.interfaces[i].types[j].1,
    ) && !use_of_world(middle.types, middle.interfaces[i].types[j].1) by {
        if i < base {
            assert(middle.interfaces[i] == resolve.interfaces[i]);
            let id = resolve.interfaces[i].types[j].1;
            assert(use_valid(resolve.types, resolve.interfaces, id));
            assert(use_named(resolve.types, resolve.interfaces, i, id));
            assert(!use_of_world(resolve.types, id));
            assert(middle.types[id as int] == resolve.types[id as int]);
            if let KindView::Type(Type::Id(other)) = resolve.types[id as int].kind {
                assert(middle.types[other as int] == resolve.types[other as int]);
                if let TypeOwner::Interface(owner) = resolve.types[other as int].owner {
                    assert(middle.interfaces[owner as int]
                        == resolve.interfaces[owner as int]);
                }
            }
        } else {
            let k = package.foreign_interfaces() + (i - base);
            assert(middle.interfaces[i].types == mapped_ids(
                map.types,
                package.interfaces[k].types,
            ));
            assert(package.interface_lists(k));
            assert(package.interface_valid(k));
            let (name, id) = package.interfaces[k].types[j];
            lemma_use_moved(resolve, package, deps, link, id as int);
            assert(map.interfaces[k] == i);
        }
    }
}

/// If what interfaces use can be used then an interface that has a name can be taken up.
proof fn lemma_safe(
    scope: Scope,
    types: Seq<TypeDefView>,
    interfaces: Seq<InterfaceView>,
    state: Progress,
    chain: Chain,
    step: Step,
    span: Span,
)
    requires
        scope.graph == use_graph(types, interfaces),
        uses_valid(types, interfaces),
        scope.can_take(step.0, step.1),
        scope.chain_named(chain),
    ensures
        scope.safe(state, chain, step.0, step.1, span),
    decreases scope.room(chain), 0nat,
{
    let (id, import) = step;
    if !state.taken(id, import) && !chain.contains(step) {
        let inner = chain.push(step);
        let n = scope.graph.uses[id as int].len();
        lemma_nodes_push(chain, step);
        lemma_unused_decreases(2 * scope.graph.uses.len(), nodes(chain), node(step));
        assert(scope.chain_named(inner));
        lemma_safe_uses(scope, types, interfaces, state.take(id, import), inner, step, span, n);
    }
}

proof fn lemma_safe_uses(
    scope: Scope,
    types: Seq<TypeDefView>,
    interfaces: Seq<InterfaceView>,
    state: Progress,
    chain: Chain,
    step: Step,
    span: Span,
    n: nat,
)
    requires
        scope.graph == use_graph(types, interfaces),
        uses_valid(types, interfaces),
        scope.can_take(step.0, step.1),
        scope.chain_named(chain),
        n <= scope.graph.uses[step.0 as int].len(),
    ensures
        scope.safe_uses(state, chain, step.0, step.1, span, n),
    decreases scope.room(chain), n,
{
    if n > 0 {
        let m = (n - 1) as nat;
        let (id, import) = step;
        lemma_safe_uses(scope, types, interfaces, state, chain, step, span, m);
        let t = interfaces[id as int].types[n - 1].1;
        assert(scope.graph.of_worlds[id as int][n - 1] == use_of_world(types, t));
        assert(scope.graph.uses[id as int][n - 1] == use_of(types, t));
        assert(use_named(types, interfaces, id as int, t));
        if let (Ok(used), Some(dep)) = (
            scope.visit_uses(state, chain, id, import, span, m),
            use_of(types, t),
        ) {
            let next = (dep, scope.imports_use(dep, import));
            lemma_safe(scope, types, interfaces, used, chain, next, span);
        }
    }
}

proof fn lemma_safe_all(
    scope: Scope,
    types: Seq<TypeDefView>,
    interfaces: Seq<InterfaceView>,
    state: Progress,
    wanted: Seq<Option<InterfaceId>>,
    spans: Seq<Span>,
    import: bool,
    n: nat,
)
    requires
        scope.graph == use_graph(types, interfaces),
        uses_valid(types, interfaces),
        n <= wanted.len(),
        forall|k: int|
            0 <= k < wanted.len() ==> (#[trigger] wanted[k] matches Some(id) ==> scope.can_take(
                id,
                import,
            )),
    ensures
        scope.safe_all(state, wanted, spans, import, n),
    decreases n,
{
    if n > 0 {
        let m = (n - 1) as nat;
        lemma_safe_all(scope, types, interfaces, state, wanted, spans, import, m);
        if let (Ok(used), Some(id)) = (
            scope.visit_all(state, wanted, spans, import, m),
            wanted[n - 1],
        ) {
            let step = (id, import);
            lemma_safe(scope, types, interfaces, used, Seq::empty(), step, spans[n - 1]);
        }
    }
}

/// A package whose items can be traced back to it, and whose worlds and interfaces use what can be
/// used, can be pushed into a resolve of which the same holds, if no world asks for an interface
/// twice and its references can be linked.
pub proof fn packages_can_be_pushed(resolve: ResolveView, package: UnresolvedView, deps: Deps)
    requires
        resolve.valid(),
        resolve.parented(),
        uses_valid(resolve.types, resolve.interfaces),
        package.valid(),
        package.parented(),
        package.uses_ready(),
        package.worlds_ask_once(resolve, deps),
        linkable(resolve, package, deps),
        pushed(resolve, package, deps).0.fits(),
    ensures
        can_push(resolve, package, deps),
{
    reveal(can_push);
    reveal(pushed);
    if let Ok(link) = linked(resolve, package, deps) {
        let map = pushed_map(resolve, package, link);
        let middle = with_interfaces(resolve, package, map);
        lemma_linked(resolve, package, deps);
        lemma_middle_uses_valid(resolve, package, deps, link);
        assert forall|i: int| 0 <= i < package.worlds.len() implies #[trigger] can_elaborate(
            middle,
            package,
            map,
            i,
        ) by {
            lemma_world_ready(resolve, package, deps, link, i);
        }
    }
}

proof fn lemma_world_ready(
    resolve: ResolveView,
    package: UnresolvedView,
    deps: Deps,
    link: RemapView,
    i: int,
)
    requires
        resolve.valid(),
        resolve.parented(),
        package.valid(),
        package.parented(),
        package.uses_ready(),
        package.worlds_ask_once(resolve, deps),
        linkable(resolve, package, deps),
        linked(resolve, package, deps) == Ok::<RemapView, crate::error::ErrorView>(link),
        with_interfaces(resolve, package, pushed_map(resolve, package, link)).fits(),
        0 <= i < package.worlds.len(),
        ({
            let middle = with_interfaces(resolve, package, pushed_map(resolve, package, link));
            uses_valid(middle.types, middle.interfaces)
        }),
    ensures
        ({
            let map = pushed_map(resolve, package, link);
            let middle = with_interfaces(resolve, package, map);
            can_elaborate(middle, package, map, i)
        }),
{
    let map = pushed_map(resolve, package, link);
    let middle = with_interfaces(resolve, package, map);
    let world = package.worlds[i];
    let scope = world_scope(map.item_map(), middle.types, middle.interfaces, world);
    lemma_linked(resolve, package, deps);
    assert(package.world_valid(i));
    assert(package.world_lists(i));
    assert(world.imports.take(world.imports.len() as int) =~= world.imports);
    assert(world.exports.take(world.exports.len() as int) =~= world.exports);
    assert forall|k: int| 0 <= k < map.interfaces.len() implies #[trigger] map.interfaces[k]
        < middle.interfaces.len() by {
        if k < link.interfaces.len() {
            assert(link.interfaces[k] < resolve.interfaces.len());
        }
    }
    assert forall|j: int| 0 <= j < world.imports.len() implies ((
    #[trigger] world.imports[j]).1 matches ItemView::Type(id) ==> use_valid(
        middle.types,
        middle.interfaces,
        map.types[id as int],
    ) && (use_of(middle.types, map.types[id as int]) matches Some(owner) ==> scope.can_take(
        owner,
        true,
    ))) by {
        assert(package.worlds[i].imports[j] == world.imports[j]);
        if let ItemView::Type(id) = world.imports[j].1 {
            assert(item_within(
                world.imports[j].1,
                package.interfaces.len(),
                package.types.len(),
            ));
            lemma_use_moved(resolve, package, deps, link, id as int);
            if let Some(owner) = package.local_use(id as int) {
                if package.imports_interface(i, owner) {
                    let k = choose|k: int|
                        0 <= k < package.worlds[i].imports.len() && (
                        #[trigger] package.worlds[i].imports[k]).1 == ItemView::Interface(owner);
                    assert(world.imports[k].1 == ItemView::Interface(owner));
                    let new = map.interfaces[owner as int];
                    assert(asks_for(map.interfaces, world.imports, new));
                    lemma_explicit_names_of(
                        map.interfaces,
                        world.imports,
                        world.imports.len(),
                        new,
                    );
                }
            }
        }
    }
    let imports = wanted_interfaces(map.interfaces, world.imports);
    let owners = wanted_owners(middle.types, map.types, world.imports);
    let exports = wanted_interfaces(map.interfaces, world.exports);
    assert forall|k: int| 0 <= k < imports.len() implies (#[trigger] imports[k] matches Some(id)
        ==> scope.can_take(id, true)) by {
        if let Some(id) = imports[k] {
            assert(world.imports[k].1 is Interface);
            assert(item_within(world.imports[k].1, map.interfaces.len(), map.types.len()));
            assert(asks_for(map.interfaces, world.imports, id));
            lemma_explicit_names_of(map.interfaces, world.imports, world.imports.len(), id);
        }
    }
    assert forall|k: int| 0 <= k < owners.len() implies (#[trigger] owners[k] matches Some(id)
        ==> scope.can_take(id, true)) by {
        assert(world.imports[k] == world.imports[k]);
    }
    assert forall|k: int| 0 <= k < exports.len() implies (#[trigger] exports[k] matches Some(id)
        ==> scope.can_take(id, false)) by {
        if let Some(id) = exports[k] {
            assert(world.exports[k].1 is Interface);
            assert(item_within(world.exports[k].1, map.interfaces.len(), map.types.len()));
            assert(asks_for(map.interfaces, world.exports, id));
            lemma_explicit_names_of(map.interfaces, world.exports, world.exports.len(), id);
        }
    }
    let (types, interfaces) = (middle.types, middle.interfaces);
    let (a, b) = package.world_spans[i];
    let start = Progress::start();
    lemma_safe_all(scope, types, interfaces, start, imports, a, true, imports.len());
    if let Ok(named) = scope.visit_all(start, imports, a, true, imports.len()) {
        lemma_safe_all(scope, types, interfaces, named, owners, a, true, owners.len());
        if let Ok(owned) = scope.visit_all(named, owners, a, true, owners.len()) {
            lemma_safe_all(scope, types, interfaces, owned, exports, b, false, exports.len());
        }
    }
}

/// What interfaces use can still be used by any world once a package was pushed that uses only what
/// can be used.
pub proof fn pushing_keeps_uses(resolve: ResolveView, package: UnresolvedView, deps: Deps)
    requires
        can_push(resolve, package, deps),
        resolve.valid(),
        resolve.parented(),
        uses_valid(resolve.types, resolve.interfaces),
        package.parented(),
        package.uses_ready(),
        pushed(resolve, package, deps).0.fits(),
    ensures
        pushed(resolve, package, deps) matches (after, Ok(_)) ==> uses_valid(
            after.types,
            after.interfaces,
        ),
{
    reveal(can_push);
    reveal(pushed);
    if let Ok(link) = linked(resolve, package, deps) {
        let map = pushed_map(resolve, package, link);
        let middle = with_interfaces(resolve, package, map);
        let (worlds, error) = elaborated_worlds(middle, package, map, package.worlds.len());
        if error.is_none() {
            let after = with_package(resolve, middle, package, map, worlds);
            lemma_middle_uses_valid(resolve, package, deps, link);
            lemma_uses_still_valid(middle, after);
        }
    }
}

/// What interfaces use does not depend on where interfaces are defined, nor on which world owns a
/// type.
proof fn lemma_uses_still_valid(before: ResolveView, after: ResolveView)
    requires
        uses_valid(before.types, before.interfaces),
        before.types.len() == after.types.len(),
        before.interfaces.len() == after.interfaces.len(),
        forall|i: int|
            0 <= i < before.types.len() ==> (#[trigger] after.types[i]).kind == before.types[i].kind
                && match before.types[i].owner {
                TypeOwner::World(_) => after.types[i].owner is World,
                owner => after.types[i].owner == owner,
            },
        forall|i: int|
            0 <= i < before.interfaces.len() ==> (#[trigger] after.interfaces[i]).types
                == before.interfaces[i].types && after.interfaces[i].name
                == before.interfaces[i].name,
    ensures
        uses_valid(after.types, after.interfaces),
{
    assert forall|i: int, j: int|
        #![trigger after.interfaces[i].types[j]]
        0 <= i < after.interfaces.len() && 0 <= j
            < after.interfaces[i].types.len() implies use_valid(
        after.types,
        after.interfaces,
        after.interfaces[i].types[j].1,
    ) && use_named(
        after.types,
        after.interfaces,
        i,
        after.interfaces[i].types[j].1,
    ) && !use_of_world(after.types, after.interfaces[i].types[j].1) by {
        assert(after.interfaces[i].types == before.interfaces[i].types);
        let id = before.interfaces[i].types[j].1;
        assert(use_valid(before.types, before.interfaces, id));
        assert(use_named(before.types, before.interfaces, i, id));
        assert(after.types[id as int].kind == before.types[id as int].kind);
        if let KindView::Type(Type::Id(other)) = before.types[id as int].kind {
            assert(after.types[other as int].kind == before.types[other as int].kind);
            if let TypeOwner::Interface(owner) = before.types[other as int].owner {
                assert(after.interfaces[owner as int].name
                    == before.interfaces[owner as int].name);
            }
        }
    }
}

/// What interfaces use can still be used once one resolve was merged into another.
pub proof fn merging_keeps_uses(into: ResolveView, from: ResolveView)
    requires
        comparable(from, into),
        uses_valid(from.types, from.interfaces),
        uses_valid(into.types, into.interfaces),
        merged(into, from).0.fits(),
    ensures
        uses_valid(merged(into, from).0.types, merged(into, from).0.interfaces),
{
    parented_resolves_merge(from, into);
    if matched(from, into).is_ok() && merged(into, from).1.is_ok() {
        let plan = matched(from, into)->Ok_0;
        let (after, map) = (merged(into, from).0, merged(into, from).1->Ok_0);
        merging_keeps_items(into, from);
        assert(merge_of(into, from, plan, after, map));
        assert forall|x: int, j: int|
            #![trigger after.interfaces[x].types[j]]
            0 <= x < after.interfaces.len() && 0 <= j
                < after.interfaces[x].types.len() implies use_valid(
            after.types,
            after.interfaces,
            after.interfaces[x].types[j].1,
        ) && use_named(
            after.types,
            after.interfaces,
            x,
            after.interfaces[x].types[j].1,
        ) && !use_of_world(after.types, after.interfaces[x].types[j].1) by {
            if x < into.interfaces.len() {
                assert(after.interfaces[x] == into.interfaces[x]);
                let id = into.interfaces[x].types[j].1;
                assert(use_valid(into.types, into.interfaces, id));
                assert(use_named(into.types, into.interfaces, x, id));
                assert(!use_of_world(into.types, id));
                assert(after.types[id as int] == into.types[id as int]);
                if let KindView::Type(Type::Id(other)) = into.types[id as int].kind {
                    assert(after.types[other as int] == into.types[other as int]);
                    if let TypeOwner::Interface(owner) = into.types[other as int].owner {
                        assert(after.interfaces[owner as int] == into.interfaces[owner as int]);
                    }
                }
            } else {
                lemma_moved_use(into, from, plan, after, map, x, j);
            }
        }
    }
}

/// What an interface that was moved uses can be used where it is now.
proof fn lemma_moved_use(
    into: ResolveView,
    from: ResolveView,
    plan: Plan,
    after: ResolveView,
    map: RemapView,
    x: int,
    j: int,
)
    requires
        merge_of(into, from, plan, after, map),
        uses_valid(from.types, from.interfaces),
        into.interfaces.len() <= x < after.interfaces.len(),
        0 <= j < after.interfaces[x].types.len(),
    ensures
        use_valid(after.types, after.interfaces, after.interfaces[x].types[j].1),
        use_named(after.types, after.interfaces, x, after.interfaces[x].types[j].1),
        !use_of_world(after.types, after.interfaces[x].types[j].1),
{
    lemma_matched_within(from, into);
    lemma_union_len(into, from, plan);
    merging_keeps_valid(into, from);
    merging_maps_items(into, from);
    merging_maps_parents(into, from);
    matched_items_correspond(from, into);
    let k = lemma_source(
        into.interfaces.len(),
        plan.interfaces,
        from.interfaces.len() as int,
        x,
    );
    assert(map.interfaces[k] == x);
    let old = from.interfaces[k].types;
    assert(after.interfaces[x].types == mapped_ids(map.types, old));
    assert(from.interface_lists(k));
    assert(from.interface_valid(k));
    let (name, t) = from.interfaces[k].types[j];
    assert(use_valid(from.types, from.interfaces, t));
    assert(use_named(from.types, from.interfaces, k, t));
    assert(!use_of_world(from.types, t));
    if plan.types.contains_key(t) {
        assert(plan.type_homed(from, into, t));
    }
    assert(after.types[map.types[t as int] as int].kind == mapped_kind(
        map.types,
        from.types[t as int].kind,
    ));
    assert(after.interface_valid(x));
    if let KindView::Type(Type::Id(other)) = from.types[t as int].kind {
        let target = map.types[other as int];
        assert(after.type_valid(map.types[t as int] as int));
        assert(after.types[target as int].owner == mapped_owner(
            map,
            from.types[other as int].owner,
        ));
        assert(after.type_valid(target as int));
        if let TypeOwner::Interface(owner) = from.types[other as int].owner {
            let id = map.interfaces[owner as int];
            assert(after.interfaces[id as int].name == from.interfaces[owner as int].name);
        }
    }
}

} // verus!
