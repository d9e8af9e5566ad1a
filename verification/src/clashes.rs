//! What is reported of worlds that cannot be elaborated.
use vstd::prelude::*;

use crate::elaborate::{
    below, elaborated, elaborated_interfaces, uses_within, world_ready, world_scope, Group,
    Progress, Step,
};
use crate::elaboration::{
    entails, goes_by, lemma_entails, lemma_goes_by, lemma_interfaces_clash, lemma_taken_required,
    required, says_in_use, side, visited_part,
};
use crate::error::ErrorView;
use crate::names::{distinct, find, lemma_find};
use crate::precedence::{connects, requests};
use crate::remap::ItemMap;
use crate::types::{InterfaceId, InterfaceView, ItemView, Span, TypeDefView, WorldView};
use crate::worlds::ItemList;

verus! {

/// An error says that the name of an interface which the world has to import or export is that of
/// another one, where the world makes the request that leads to it, and names the interfaces on the
/// way.
pub open spec fn reports_clash(
    map: ItemMap,
    types: Seq<TypeDefView>,
    interfaces: Seq<InterfaceView>,
    world: WorldView,
    spans: Seq<Span>,
    error: ErrorView,
    i: int,
    chain: Seq<Step>,
    names: Seq<Seq<char>>,
    other: Step,
) -> bool {
    &&& 0 <= i < requests(map, types, world).len()
    &&& requests(map, types, world)[i] == Some(chain[0])
    &&& connects(map, types, interfaces, world, chain)
    &&& names.len() == chain.len()
    &&& forall|k: int|
        0 <= k < chain.len() ==> goes_by(
            map.interfaces,
            side(world, (#[trigger] chain[k]).1),
            interfaces,
            chain[k].0,
            names[k],
        )
    &&& other != chain.last()
    &&& required(map, types, interfaces, world, chain.last())
    &&& required(map, types, interfaces, world, other)
    &&& goes_by(map.interfaces, side(world, other.1), interfaces, other.0, names.last())
    &&& says_in_use(error, spans[i], chain, names)
}

/// An error says that the name of a type or function is that of an interface which the world has to
/// import or export, where the world asks for the type or function.
pub open spec fn reports_shadow(
    map: ItemMap,
    types: Seq<TypeDefView>,
    interfaces: Seq<InterfaceView>,
    world: WorldView,
    spans: Seq<Span>,
    error: ErrorView,
    import: bool,
    i: int,
    id: InterfaceId,
) -> bool {
    let (name, item) = side(world, import)[i];
    &&& 0 <= i < side(world, import).len()
    &&& required(map, types, interfaces, world, (id, import))
    &&& goes_by(map.interfaces, side(world, import), interfaces, id, name)
    &&& error.span == Some(spans[i])
    &&& error.context.len() == 0
    &&& match item {
        ItemView::Interface(_) => false,
        ItemView::Type(_) => import && error.msg == "export of type `"@ + name
            + "` shadows previously imported interface"@,
        ItemView::Function(_) => error.msg == if import {
            "import of function `"@ + name + "` shadows previously imported interface"@
        } else {
            "export of function `"@ + name + "` shadows previously exported interface"@
        },
    }
}

/// An error says which name of a world is in use, and where.
pub open spec fn reports(
    map: ItemMap,
    types: Seq<TypeDefView>,
    interfaces: Seq<InterfaceView>,
    world: WorldView,
    import_spans: Seq<Span>,
    export_spans: Seq<Span>,
    error: ErrorView,
) -> bool {
    ||| exists|i: int, chain: Seq<Step>, names: Seq<Seq<char>>, other: Step| #[trigger]
        reports_clash(
            map,
            types,
            interfaces,
            world,
            import_spans + import_spans + export_spans,
            error,
            i,
            chain,
            names,
            other,
        )
    ||| exists|i: int, id: InterfaceId| #[trigger]
        reports_shadow(map, types, interfaces, world, import_spans, error, true, i, id)
    ||| exists|i: int, id: InterfaceId| #[trigger]
        reports_shadow(map, types, interfaces, world, export_spans, error, false, i, id)
}

impl Group {
    /// What cannot be added has the name of something that was there.
    proof fn lemma_added_err(
        self,
        map: ItemMap,
        start: ItemList,
        items: ItemList,
        spans: Seq<Span>,
        n: nat,
    ) -> (place: (int, int))
        requires
            n <= items.len(),
            distinct(items),
        ensures
            match self.added(map, start, items, spans, n) {
                Ok(after) => {
                    &&& start.is_prefix_of(after)
                    &&& forall|p: int|
                        start.len() <= p < after.len() ==> exists|i: int|
                            0 <= i < n && self.holds((#[trigger] items[i]).1) && (
                            #[trigger] after[p]).0 == items[i].0
                },
                Err(error) => {
                    let (i, p) = place;
                    &&& 0 <= i < n
                    &&& 0 <= p < start.len()
                    &&& self.holds(items[i].1)
                    &&& start[p].0 == items[i].0
                    &&& error.span == Some(spans[i])
                    &&& error.msg == self.shadows(items[i].0)
                    &&& error.context.len() == 0
                },
            },
        decreases n,
    {
        if n == 0 {
            (0, 0)
        } else {
            let m = (n - 1) as nat;
            let place = self.lemma_added_err(map, start, items, spans, m);
            if let Ok(before) = self.added(map, start, items, spans, m) {
                let entry = items[n - 1];
                lemma_find(before, entry.0);
                if !self.holds(entry.1) {
                    place
                } else if let Some(p) = find(before, entry.0) {
                    if p >= start.len() {
                        let i = choose|i: int|
                            0 <= i < m && self.holds((#[trigger] items[i]).1) && before[p].0
                                == items[i].0;
                        assert(items[i].0 != items[n - 1].0);
                    }
                    (n - 1, p)
                } else {
                    let after = self.added(map, start, items, spans, n)->Ok_0;
                    assert forall|p: int| start.len() <= p < after.len() implies exists|i: int|
                        0 <= i < n && self.holds((#[trigger] items[i]).1) && (#[trigger] after[p]).0
                            == items[i].0 by {
                        if p == before.len() {
                            assert(after[p].0 == items[n - 1].0);
                        } else {
                            assert(after[p] == before[p]);
                            let i = choose|i: int|
                                0 <= i < m && self.holds((#[trigger] items[i]).1) && before[p].0
                                    == items[i].0;
                            assert(self.holds(items[i].1));
                        }
                    }
                    place
                }
            } else {
                place
            }
        }
    }
}

/// What a part of an elaboration visits are requests of the world.
proof fn lemma_request(
    map: ItemMap,
    types: Seq<TypeDefView>,
    world: WorldView,
    part: int,
    i: int,
    id: InterfaceId,
) -> (k: int)
    requires
        0 <= part <= 2,
        0 <= i < visited_part(map, types, world, part).len(),
        visited_part(map, types, world, part)[i] == Some(id),
    ensures
        k == part * world.imports.len() + i,
        0 <= k < requests(map, types, world).len(),
        requests(map, types, world)[k] == Some((id, part < 2)),
{
    let n = world.imports.len() as int;
    if part == 0 {
        i
    } else if part == 1 {
        n + i
    } else {
        2 * n + i
    }
}

/// A name of something that was taken up is that of an interface which the world has to import or
/// export.
proof fn lemma_shadow(
    map: ItemMap,
    types: Seq<TypeDefView>,
    interfaces: Seq<InterfaceView>,
    world: WorldView,
    import_spans: Seq<Span>,
    export_spans: Seq<Span>,
    state: Progress,
    import: bool,
    p: int,
) -> (id: InterfaceId)
    requires
        uses_within(types, interfaces),
        world_ready(map, types, interfaces, world, import_spans, export_spans),
        below(map.interfaces, interfaces.len()),
        below(map.types, types.len()),
        elaborated_interfaces(map, types, interfaces, world, import_spans, export_spans) == Ok::<
            Progress,
            ErrorView,
        >(state),
        0 <= p < state.items(import).len(),
    ensures
        required(map, types, interfaces, world, (id, import)),
        goes_by(map.interfaces, side(world, import), interfaces, id, state.items(import)[p].0),
{
    let scope = world_scope(map, types, interfaces, world);
    lemma_taken_required(map, types, interfaces, world, import_spans, export_spans, state);
    assert(scope.items_sound(state, Seq::empty(), import));
    let entry = state.items(import)[p];
    let id = entry.1->Interface_0;
    let step = (id, import);
    assert(state.taken(step.0, step.1));
    assert(goes_by(map.interfaces, side(world, step.1), interfaces, step.0, entry.0));
    id
}

/// Interfaces that cannot be taken up clash.
proof fn lemma_clash(
    map: ItemMap,
    types: Seq<TypeDefView>,
    interfaces: Seq<InterfaceView>,
    world: WorldView,
    import_spans: Seq<Span>,
    export_spans: Seq<Span>,
    error: ErrorView,
)
    requires
        uses_within(types, interfaces),
        world_ready(map, types, interfaces, world, import_spans, export_spans),
        below(map.interfaces, interfaces.len()),
        below(map.types, types.len()),
        import_spans.len() == world.imports.len(),
        export_spans.len() == world.exports.len(),
        elaborated_interfaces(map, types, interfaces, world, import_spans, export_spans) == Err::<
            Progress,
            ErrorView,
        >(error),
    ensures
        exists|i: int, chain: Seq<Step>, names: Seq<Seq<char>>, other: Step| #[trigger]
            reports_clash(
                map,
                types,
                interfaces,
                world,
                import_spans + import_spans + export_spans,
                error,
                i,
                chain,
                names,
                other,
            ),
{
    let scope = world_scope(map, types, interfaces, world);
    let (part, i, path, b) = lemma_interfaces_clash(
        map,
        types,
        interfaces,
        world,
        import_spans,
        export_spans,
    );
    let names = scope.names_of(path);
    let id = visited_part(map, types, world, part)[i].unwrap();
    let k = lemma_request(map, types, world, part, i, id);
    assert(Seq::<Step>::empty() + path =~= path);
    assert forall|j: int| 0 <= j < path.len() - 1 implies entails(
        map,
        types,
        interfaces,
        world,
        #[trigger] path[j],
        path[j + 1],
    ) by {
        lemma_entails(map, types, interfaces, world, path[j], path[j + 1]);
    }
    assert forall|j: int| 0 <= j < path.len() implies goes_by(
        map.interfaces,
        side(world, (#[trigger] path[j]).1),
        interfaces,
        path[j].0,
        names[j],
    ) by {
        lemma_goes_by(map, types, interfaces, world, path[j], names[j]);
    }
    lemma_goes_by(map, types, interfaces, world, b, names.last());
    let spans = import_spans + import_spans + export_spans;
    let own = if part < 2 {
        import_spans
    } else {
        export_spans
    };
    assert(spans[k] == own[i]) by {
        if part == 1 {
            assert(k == world.imports.len() + i);
        } else if part == 2 {
            assert(k == 2 * world.imports.len() + i);
        }
    }
    assert(reports_clash(map, types, interfaces, world, spans, error, k, path, names, b));
}

/// An imported type or function that cannot be added has the name of an interface.
proof fn lemma_import_shadow(
    map: ItemMap,
    types: Seq<TypeDefView>,
    interfaces: Seq<InterfaceView>,
    world: WorldView,
    import_spans: Seq<Span>,
    export_spans: Seq<Span>,
    state: Progress,
    error: ErrorView,
)
    requires
        uses_within(types, interfaces),
        world_ready(map, types, interfaces, world, import_spans, export_spans),
        below(map.interfaces, interfaces.len()),
        below(map.types, types.len()),
        distinct(world.imports),
        elaborated_interfaces(map, types, interfaces, world, import_spans, export_spans) == Ok::<
            Progress,
            ErrorView,
        >(state),
        match Group::ImportedTypes.added(
            map,
            state.imports,
            world.imports,
            import_spans,
            world.imports.len(),
        ) {
            Err(other) => other == error,
            Ok(with_types) => Group::ImportedFunctions.added(
                map,
                with_types,
                world.imports,
                import_spans,
                world.imports.len(),
            ) == Err::<ItemList, ErrorView>(error),
        },
    ensures
        exists|i: int, id: InterfaceId| #[trigger]
            reports_shadow(map, types, interfaces, world, import_spans, error, true, i, id),
{
    let n = world.imports.len();
    let first = Group::ImportedTypes;
    let second = Group::ImportedFunctions;
    let (i, p) = first.lemma_added_err(map, state.imports, world.imports, import_spans, n);
    let place = if let Ok(with_types) = first.added(
        map,
        state.imports,
        world.imports,
        import_spans,
        n,
    ) {
        let (i, p) = second.lemma_added_err(map, with_types, world.imports, import_spans, n);
        if p >= state.imports.len() {
            let k = choose|k: int|
                0 <= k < n && first.holds((#[trigger] world.imports[k]).1) && with_types[p].0
                    == world.imports[k].0;
            assert(k != i);
            assert(world.imports[k].0 != world.imports[i].0);
        }
        assert(with_types[p] == state.imports[p]);
        (i, p)
    } else {
        (i, p)
    };
    let id = lemma_shadow(
        map,
        types,
        interfaces,
        world,
        import_spans,
        export_spans,
        state,
        true,
        place.1,
    );
    assert(side(world, true)[place.0] == world.imports[place.0]);
    assert(reports_shadow(
        map,
        types,
        interfaces,
        world,
        import_spans,
        error,
        true,
        place.0,
        id,
    ));
}

/// An exported function that cannot be added has the name of an interface.
proof fn lemma_export_shadow(
    map: ItemMap,
    types: Seq<TypeDefView>,
    interfaces: Seq<InterfaceView>,
    world: WorldView,
    import_spans: Seq<Span>,
    export_spans: Seq<Span>,
    state: Progress,
    error: ErrorView,
)
    requires
        uses_within(types, interfaces),
        world_ready(map, types, interfaces, world, import_spans, export_spans),
        below(map.interfaces, interfaces.len()),
        below(map.types, types.len()),
        distinct(world.exports),
        elaborated_interfaces(map, types, interfaces, world, import_spans, export_spans) == Ok::<
            Progress,
            ErrorView,
        >(state),
        Group::ExportedFunctions.added(
            map,
            state.exports,
            world.exports,
            export_spans,
            world.exports.len(),
        ) == Err::<ItemList, ErrorView>(error),
    ensures
        exists|i: int, id: InterfaceId| #[trigger]
            reports_shadow(map, types, interfaces, world, export_spans, error, false, i, id),
{
    let (i, p) = Group::ExportedFunctions.lemma_added_err(
        map,
        state.exports,
        world.exports,
        export_spans,
        world.exports.len(),
    );
    let id = lemma_shadow(
        map,
        types,
        interfaces,
        world,
        import_spans,
        export_spans,
        state,
        false,
        p,
    );
    assert(side(world, false)[i] == world.exports[i]);
    assert(reports_shadow(map, types, interfaces, world, export_spans, error, false, i, id));
}

/// The error of a world that cannot be elaborated says which name is in use, and where the world
/// asks for what has that name or leads to it: it is that of two interfaces, or of an interface and
/// of a type or function.
pub proof fn clashes_are_reported(
    map: ItemMap,
    types: Seq<TypeDefView>,
    interfaces: Seq<InterfaceView>,
    world: WorldView,
    import_spans: Seq<Span>,
    export_spans: Seq<Span>,
)
    requires
        uses_within(types, interfaces),
        world_ready(map, types, interfaces, world, import_spans, export_spans),
        below(map.interfaces, interfaces.len()),
        below(map.types, types.len()),
        distinct(world.imports),
        distinct(world.exports),
        import_spans.len() == world.imports.len(),
        export_spans.len() == world.exports.len(),
    ensures
        elaborated(map, types, interfaces, world, import_spans, export_spans) matches Err(error)
            ==> reports(map, types, interfaces, world, import_spans, export_spans, error),
{
    if let Err(error) = elaborated(map, types, interfaces, world, import_spans, export_spans) {
        match elaborated_interfaces(map, types, interfaces, world, import_spans, export_spans) {
            Err(other) => {
                lemma_clash(
                    map,
                    types,
                    interfaces,
                    world,
                    import_spans,
                    export_spans,
                    error,
                );
            },
            Ok(state) => {
                let n = world.imports.len();
                let imported = match Group::ImportedTypes.added(
                    map,
                    state.imports,
                    world.imports,
                    import_spans,
                    n,
                ) {
                    Err(_) => false,
                    Ok(with_types) => Group::ImportedFunctions.added(
                        map,
                        with_types,
                        world.imports,
                        import_spans,
                        n,
                    ).is_ok(),
                };
                if imported {
                    lemma_export_shadow(
                        map,
                        types,
                        interfaces,
                        world,
                        import_spans,
                        export_spans,
                        state,
                        error,
                    );
                } else {
                    lemma_import_shadow(
                        map,
                        types,
                        interfaces,
                        world,
                        import_spans,
                        export_spans,
                        state,
                        error,
                    );
                }
            },
        }
    }
}

} // verus!
