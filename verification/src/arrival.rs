//! What becomes of the worlds of a package that is pushed into a resolve.
use vstd::prelude::*;

use crate::append::{
    can_elaborate, can_elaborate_worlds, can_push, elaborated_worlds, lemma_can_elaborate,
    lemma_elaborated_worlds, lemma_middle_uses, pushed, pushed_map, with_interfaces,
};
use crate::clashes::{clashes_are_reported, reports};
use crate::closure::lemma_elaborated;
use crate::elaborate::{below, elaborated, use_valid, uses_within, world_ready, Step};
use crate::error::ErrorView;
use crate::elaboration::{
    comes_from, entails, goes_by, has_reason, is_chain, lemma_required_known, names_apart, rank,
    required, side, takes_from, worlds_elaborate_unless_names_clash,
    worlds_list_types_and_functions_in_order, worlds_list_what_they_require,
};
use crate::link::{lemma_linked, linked, Deps};
use crate::names::distinct;
use crate::package::UnresolvedView;
use crate::precedence::{called_for, connects, interfaces_follow_the_requests, requests};
use crate::remap::{item_within, ItemMap, RemapView};
use crate::renumbering::copies_item;
use crate::resolve::ResolveView;
use crate::types::{InterfaceId, InterfaceView, ItemView, Span, TypeDefView, TypeId, WorldView};
use crate::worlds::ItemList;

verus! {

/// Types are defined in the same way and belong to the same interfaces, and interfaces have the
/// same names and list the same types.
spec fn same_sources(
    a: Seq<TypeDefView>,
    b: Seq<TypeDefView>,
    c: Seq<InterfaceView>,
    d: Seq<InterfaceView>,
) -> bool {
    &&& a.len() == b.len()
    &&& forall|t: int|
        #![trigger a[t]]
        #![trigger b[t]]
        0 <= t < a.len() ==> {
            &&& a[t].kind == b[t].kind
            &&& a[t].owner == b[t].owner || a[t].owner is World && b[t].owner is World
        }
    &&& c.len() == d.len()
    &&& forall|i: int|
        #![trigger c[i]]
        #![trigger d[i]]
        0 <= i < c.len() ==> c[i].types == d[i].types && c[i].name == d[i].name
}

/// What interfaces and a world use is there.
spec fn sources_known(
    map: ItemMap,
    types: Seq<TypeDefView>,
    interfaces: Seq<InterfaceView>,
    world: WorldView,
) -> bool {
    &&& uses_within(types, interfaces)
    &&& forall|i: int|
        0 <= i < world.imports.len() ==> ((#[trigger] world.imports[i]).1 matches ItemView::Type(t)
            ==> use_valid(types, interfaces, map.types[t as int]))
}

/// What an interface entails depends on where types come from.
proof fn lemma_same_entails(
    map: ItemMap,
    a: Seq<TypeDefView>,
    b: Seq<TypeDefView>,
    c: Seq<InterfaceView>,
    d: Seq<InterfaceView>,
    world: WorldView,
    x: Step,
    y: Step,
)
    requires
        same_sources(a, b, c, d),
        sources_known(map, a, c, world),
        entails(map, a, c, world, x, y),
    ensures
        entails(map, b, d, world, x, y),
{
    let i = x.0 as int;
    let j = choose|j: int|
        0 <= j < c[i].types.len() && comes_from(a, (#[trigger] c[i].types[j]).1, y.0);
    assert(use_valid(a, c, c[i].types[j].1));
    assert(comes_from(a, c[i].types[j].1, y.0));
    assert(comes_from(b, d[i].types[j].1, y.0));
    assert(takes_from(b, d, x.0, y.0));
}

/// What the requests of a world lead to depends on where types come from.
proof fn lemma_same_calls(
    map: ItemMap,
    a: Seq<TypeDefView>,
    b: Seq<TypeDefView>,
    c: Seq<InterfaceView>,
    d: Seq<InterfaceView>,
    world: WorldView,
    n: int,
    step: Step,
)
    requires
        same_sources(a, b, c, d),
        sources_known(map, a, c, world),
        called_for(map, a, c, world, n, step),
    ensures
        called_for(map, b, d, world, n, step),
{
    let (i, chain) = choose|i: int, chain: Seq<Step>|
        0 <= i < n && i < requests(map, a, world).len() && #[trigger] requests(map, a, world)[i]
            == Some(chain[0]) && #[trigger] connects(map, a, c, world, chain) && chain.last()
            == step;
    assert(requests(map, b, world)[i] == requests(map, a, world)[i]) by {
        let count = world.imports.len();
        if count <= i < 2 * count {
            let item = world.imports[i - count].1;
            if let ItemView::Type(t) = item {
                assert(use_valid(a, c, map.types[t as int]));
            }
        }
    }
    assert forall|k: int| 0 <= k < chain.len() - 1 implies entails(
        map,
        b,
        d,
        world,
        #[trigger] chain[k],
        chain[k + 1],
    ) by {
        assert(entails(map, a, c, world, chain[k], chain[k + 1]));
        lemma_same_entails(map, a, b, c, d, world, chain[k], chain[k + 1]);
    }
    assert(connects(map, b, d, world, chain));
}

/// Which interfaces a world has to import or export depends on where types come from.
proof fn lemma_same_sources(
    map: ItemMap,
    a: Seq<TypeDefView>,
    b: Seq<TypeDefView>,
    c: Seq<InterfaceView>,
    d: Seq<InterfaceView>,
    world: WorldView,
    step: Step,
)
    requires
        same_sources(a, b, c, d),
        sources_known(map, a, c, world),
        required(map, a, c, world, step),
    ensures
        required(map, b, d, world, step),
{
    let chain = choose|chain: Seq<Step>| #[trigger]
        is_chain(map, a, c, world, chain) && chain.last() == step;
    assert(has_reason(map, b, world, chain[0])) by {
        let first = chain[0];
        if exists|i: int|
            0 <= i < world.imports.len() && ((
            #[trigger] world.imports[i]).1 matches ItemView::Type(t) && comes_from(
                a,
                map.types[t as int],
                first.0,
            )) {
            let i = choose|i: int|
                0 <= i < world.imports.len() && ((
                #[trigger] world.imports[i]).1 matches ItemView::Type(t) && comes_from(
                    a,
                    map.types[t as int],
                    first.0,
                ));
            let t = world.imports[i].1->Type_0;
            assert(use_valid(a, c, map.types[t as int]));
            assert(comes_from(b, map.types[t as int], first.0));
        }
    }
    assert forall|i: int| 0 <= i < chain.len() - 1 implies entails(
        map,
        b,
        d,
        world,
        #[trigger] chain[i],
        chain[i + 1],
    ) by {
        assert(entails(map, a, c, world, chain[i], chain[i + 1]));
        lemma_same_entails(map, a, b, c, d, world, chain[i], chain[i + 1]);
    }
    assert(is_chain(map, b, d, world, chain));
}

/// Where types come from is settled before the worlds of a package are.
proof fn lemma_settled(resolve: ResolveView, package: UnresolvedView, deps: Deps, link: RemapView)
    requires
        can_push(resolve, package, deps),
        pushed(resolve, package, deps).0.fits(),
        linked(resolve, package, deps) == Ok::<RemapView, ErrorView>(link),
    ensures
        ({
            let map = pushed_map(resolve, package, link);
            let middle = with_interfaces(resolve, package, map);
            let after = pushed(resolve, package, deps).0;
            &&& same_sources(middle.types, after.types, middle.interfaces, after.interfaces)
            &&& uses_within(middle.types, middle.interfaces)
            &&& below(map.item_map().interfaces, middle.interfaces.len())
            &&& below(map.item_map().types, middle.types.len())
            &&& can_elaborate_worlds(middle, package, map)
        }),
{
    reveal(can_push);
    reveal(pushed);
    let map = pushed_map(resolve, package, link);
    let middle = with_interfaces(resolve, package, map);
    let after = pushed(resolve, package, deps).0;
    lemma_linked(resolve, package, deps);
    assert(middle.fits());
    lemma_middle_uses(resolve, package, link);
}

/// What interfaces and worlds use is there in either.
proof fn lemma_sources_known(
    map: ItemMap,
    a: Seq<TypeDefView>,
    b: Seq<TypeDefView>,
    c: Seq<InterfaceView>,
    d: Seq<InterfaceView>,
    world: WorldView,
)
    requires
        same_sources(a, b, c, d),
        sources_known(map, a, c, world),
    ensures
        same_sources(b, a, d, c),
        sources_known(map, b, d, world),
        forall|step: Step|
            #![trigger required(map, a, c, world, step)]
            #![trigger required(map, b, d, world, step)]
            required(map, a, c, world, step) == required(map, b, d, world, step),
        forall|ids: Seq<InterfaceId>, items: ItemList, id: InterfaceId, name: Seq<char>|
            #![trigger goes_by(ids, items, c, id, name)]
            #![trigger goes_by(ids, items, d, id, name)]
            id < c.len() ==> goes_by(ids, items, c, id, name) == goes_by(ids, items, d, id, name),
{
    assert forall|t: TypeId| #[trigger] use_valid(a, c, t) implies use_valid(b, d, t) by {}
    assert forall|i: int, j: int|
        #![trigger d[i].types[j]]
        0 <= i < d.len() && 0 <= j < d[i].types.len() implies use_valid(b, d, d[i].types[j].1) by {
        assert(use_valid(a, c, c[i].types[j].1));
    }
    assert forall|step: Step|
        #![trigger required(map, a, c, world, step)]
        #![trigger required(map, b, d, world, step)]
        required(map, a, c, world, step) == required(map, b, d, world, step) by {
        if required(map, a, c, world, step) {
            lemma_same_sources(map, a, b, c, d, world, step);
        }
        if required(map, b, d, world, step) {
            lemma_same_sources(map, b, a, d, c, world, step);
        }
    }
}

/// What a world that is pushed imports and exports. The interfaces are those that the world of the
/// package has to import and export and no others, each under the name that the world gives to it,
/// or else under its own. They come first. Then come copies of the types that it asks for, then
/// copies of the functions, in their order.
pub proof fn pushed_worlds_list_what_they_require(
    resolve: ResolveView,
    package: UnresolvedView,
    deps: Deps,
    k: int,
    import: bool,
)
    requires
        can_push(resolve, package, deps),
        pushed(resolve, package, deps).0.fits(),
        0 <= k < package.worlds.len(),
        distinct(package.worlds[k].imports),
        distinct(package.worlds[k].exports),
    ensures
        pushed(resolve, package, deps) matches (after, Ok(_)) ==> (linked(
            resolve,
            package,
            deps,
        ) matches Ok(link) && {
            let map = pushed_map(resolve, package, link).item_map();
            let world = package.worlds[k];
            let old = side(world, import);
            let items = side(after.worlds[resolve.worlds.len() + k], import);
            &&& forall|id: InterfaceId, name: Seq<char>| #[trigger]
                items.contains((name, ItemView::Interface(id))) <==> id < after.interfaces.len()
                    && required(map, after.types, after.interfaces, world, (id, import))
                    && goes_by(map.interfaces, old, after.interfaces, id, name)
            &&& forall|i: int|
                0 <= i < old.len() && rank((#[trigger] old[i]).1) != 0 ==> exists|p: int|
                    0 <= p < items.len() && (#[trigger] items[p]).0 == old[i].0 && copies_item(
                        map,
                        old[i].1,
                        items[p].1,
                    )
            &&& forall|p: int|
                0 <= p < items.len() && rank((#[trigger] items[p]).1) != 0 ==> exists|i: int|
                    0 <= i < old.len() && (#[trigger] old[i]).0 == items[p].0 && copies_item(
                        map,
                        old[i].1,
                        items[p].1,
                    )
            &&& forall|p: int, q: int|
                #![trigger items[p], items[q]]
                0 <= p < q < items.len() ==> rank(items[p].1) <= rank(items[q].1)
            &&& forall|p: int, q: int, i: int, j: int|
                #![trigger items[p], items[q], old[i], old[j]]
                0 <= p < items.len() && 0 <= q < items.len() && 0 <= i < j < old.len() && rank(
                    old[i].1,
                ) != 0 && rank(items[p].1) == rank(old[i].1) && rank(items[q].1) == rank(old[j].1)
                    && rank(old[i].1) == rank(old[j].1) && items[p].0 == old[i].0 && items[q].0
                    == old[j].0 ==> p < q
        }),
{
    reveal(pushed);
    if let (after, Ok(_)) = pushed(resolve, package, deps) {
        let link = linked(resolve, package, deps)->Ok_0;
        let remap = pushed_map(resolve, package, link);
        let map = remap.item_map();
        let middle = with_interfaces(resolve, package, remap);
        let world = package.worlds[k];
        let spans = package.world_spans[k];
        lemma_settled(resolve, package, deps, link);
        lemma_elaborated_worlds(middle, package, remap, package.worlds.len());
        lemma_can_elaborate(middle, package, remap);
        let made = elaborated_worlds(middle, package, remap, package.worlds.len()).0[k];
        let new = after.worlds[resolve.worlds.len() + k];
        assert(can_elaborate(middle, package, remap, k));
        assert(elaborated(map, middle.types, middle.interfaces, world, spans.0, spans.1) == Ok::<
            WorldView,
            ErrorView,
        >(made));
        assert(side(new, import) == side(made, import));
        worlds_list_what_they_require(
            map,
            middle.types,
            middle.interfaces,
            world,
            spans.0,
            spans.1,
        );
        worlds_list_types_and_functions_in_order(
            map,
            middle.types,
            middle.interfaces,
            world,
            spans.0,
            spans.1,
            import,
        );
        lemma_sources_known(
            map,
            middle.types,
            after.types,
            middle.interfaces,
            after.interfaces,
            world,
        );
        lemma_elaborated(map, middle.types, middle.interfaces, world, spans.0, spans.1);
        let old = side(world, import);
        let items = side(new, import);
        assert forall|id: InterfaceId, name: Seq<char>| #[trigger]
            items.contains((name, ItemView::Interface(id))) <==> id < after.interfaces.len()
                && required(map, after.types, after.interfaces, world, (id, import)) && goes_by(
                map.interfaces,
                old,
                after.interfaces,
                id,
                name,
            ) by {
            let entry = (name, ItemView::Interface(id));
            assert(side(made, import).contains(entry) <==> required(
                map,
                middle.types,
                middle.interfaces,
                world,
                (id, import),
            ) && goes_by(map.interfaces, old, middle.interfaces, id, name));
            if items.contains(entry) {
                let p = choose|p: int| 0 <= p < items.len() && items[p] == entry;
                assert(item_within(items[p].1, middle.interfaces.len(), middle.types.len()));
            }
        }
    }
}

/// A world that is pushed lists interfaces in the order of the first request of the world of the
/// package that leads to them: for the interfaces that it imports, then for those that its types
/// come from, then for those that it exports.
pub proof fn pushed_worlds_follow_the_requests(
    resolve: ResolveView,
    package: UnresolvedView,
    deps: Deps,
    k: int,
    import: bool,
    p: int,
    q: int,
    n: int,
)
    requires
        can_push(resolve, package, deps),
        pushed(resolve, package, deps).0.fits(),
        0 <= k < package.worlds.len(),
        0 <= n <= 2 * package.worlds[k].imports.len() + package.worlds[k].exports.len(),
        0 <= p < q,
    ensures
        pushed(resolve, package, deps) matches (after, Ok(_)) ==> (linked(
            resolve,
            package,
            deps,
        ) matches Ok(link) && {
            let map = pushed_map(resolve, package, link).item_map();
            let world = package.worlds[k];
            let items = side(after.worlds[resolve.worlds.len() + k], import);
            q < items.len() ==> (items[p].1 matches ItemView::Interface(a) ==> (
            items[q].1 matches ItemView::Interface(b) ==> called_for(
                map,
                after.types,
                after.interfaces,
                world,
                n,
                (b, import),
            ) ==> called_for(map, after.types, after.interfaces, world, n, (a, import))))
        }),
{
    reveal(pushed);
    if let (after, Ok(_)) = pushed(resolve, package, deps) {
        let link = linked(resolve, package, deps)->Ok_0;
        let remap = pushed_map(resolve, package, link);
        let map = remap.item_map();
        let middle = with_interfaces(resolve, package, remap);
        let world = package.worlds[k];
        let spans = package.world_spans[k];
        lemma_settled(resolve, package, deps, link);
        lemma_elaborated_worlds(middle, package, remap, package.worlds.len());
        lemma_can_elaborate(middle, package, remap);
        let made = elaborated_worlds(middle, package, remap, package.worlds.len()).0[k];
        let items = side(after.worlds[resolve.worlds.len() + k], import);
        assert(can_elaborate(middle, package, remap, k));
        assert(items == side(made, import));
        interfaces_follow_the_requests(
            map,
            middle.types,
            middle.interfaces,
            world,
            spans.0,
            spans.1,
            import,
            p,
            q,
            n,
        );
        lemma_sources_known(
            map,
            middle.types,
            after.types,
            middle.interfaces,
            after.interfaces,
            world,
        );
        if q < items.len() && items[p].1 is Interface && items[q].1 is Interface {
            let a = items[p].1->Interface_0;
            let b = items[q].1->Interface_0;
            if called_for(map, after.types, after.interfaces, world, n, (b, import)) {
                lemma_same_calls(
                    map,
                    after.types,
                    middle.types,
                    after.interfaces,
                    middle.interfaces,
                    world,
                    n,
                    (b, import),
                );
                lemma_same_calls(
                    map,
                    middle.types,
                    after.types,
                    middle.interfaces,
                    after.interfaces,
                    world,
                    n,
                    (a, import),
                );
            }
        }
    }
}

/// A package whose references can be linked is pushed if, and only if, there is no world in which
/// two of the names clash.
pub proof fn packages_are_pushed_unless_names_clash(
    resolve: ResolveView,
    package: UnresolvedView,
    deps: Deps,
)
    requires
        can_push(resolve, package, deps),
        pushed(resolve, package, deps).0.fits(),
        linked(resolve, package, deps).is_ok(),
        forall|k: int|
            0 <= k < package.worlds.len() ==> distinct((#[trigger] package.worlds[k]).imports)
                && distinct(package.worlds[k].exports),
    ensures
        ({
            let map = pushed_map(resolve, package, linked(resolve, package, deps)->Ok_0).item_map();
            let after = pushed(resolve, package, deps).0;
            pushed(resolve, package, deps).1.is_ok() <==> forall|k: int|
                0 <= k < package.worlds.len() ==> names_apart(
                    map,
                    after.types,
                    after.interfaces,
                    #[trigger] package.worlds[k],
                )
        }),
{
    reveal(pushed);
    let link = linked(resolve, package, deps)->Ok_0;
    let remap = pushed_map(resolve, package, link);
    let map = remap.item_map();
    let middle = with_interfaces(resolve, package, remap);
    let after = pushed(resolve, package, deps).0;
    let n = package.worlds.len();
    lemma_settled(resolve, package, deps, link);
    lemma_elaborated_worlds(middle, package, remap, n);
    let made = elaborated_worlds(middle, package, remap, n);
    if made.1.is_none() {
        lemma_can_elaborate(middle, package, remap);
        assert forall|k: int| 0 <= k < n implies names_apart(
            map,
            after.types,
            after.interfaces,
            #[trigger] package.worlds[k],
        ) by {
            let world = package.worlds[k];
            let spans = package.world_spans[k];
            assert(made.0[k].name == world.name);
            assert(can_elaborate(middle, package, remap, k));
            worlds_elaborate_unless_names_clash(
                map,
                middle.types,
                middle.interfaces,
                world,
                spans.0,
                spans.1,
            );
            lemma_names_apart(
                map,
                middle.types,
                after.types,
                middle.interfaces,
                after.interfaces,
                world,
                spans.0,
                spans.1,
            );
        }
    } else {
        let k = lemma_first_failure(middle, package, remap, n);
        let world = package.worlds[k];
        let spans = package.world_spans[k];
        assert(can_elaborate(middle, package, remap, k));
        worlds_elaborate_unless_names_clash(
            map,
            middle.types,
            middle.interfaces,
            world,
            spans.0,
            spans.1,
        );
        assert(!names_apart(map, after.types, after.interfaces, package.worlds[k]));
    }
}

/// A package whose references can be linked, but which cannot be pushed, leaves the worlds before
/// the first one with a clash. The error says which name of that world is in use, and where.
pub proof fn clashes_in_packages_are_reported(
    resolve: ResolveView,
    package: UnresolvedView,
    deps: Deps,
) -> (k: int)
    requires
        can_push(resolve, package, deps),
        pushed(resolve, package, deps).0.fits(),
        linked(resolve, package, deps).is_ok(),
        pushed(resolve, package, deps).1.is_err(),
        forall|k: int|
            0 <= k < package.worlds.len() ==> distinct((#[trigger] package.worlds[k]).imports)
                && distinct(package.worlds[k].exports),
    ensures
        ({
            let map = pushed_map(resolve, package, linked(resolve, package, deps)->Ok_0).item_map();
            let after = pushed(resolve, package, deps).0;
            &&& 0 <= k < package.worlds.len()
            &&& after.worlds.len() == resolve.worlds.len() + k
            &&& after.documents == resolve.documents
            &&& after.packages == resolve.packages
            &&& reports(
                map,
                after.types,
                after.interfaces,
                package.worlds[k],
                package.world_spans[k].0,
                package.world_spans[k].1,
                pushed(resolve, package, deps).1->Err_0,
            )
        }),
{
    reveal(pushed);
    let link = linked(resolve, package, deps)->Ok_0;
    let remap = pushed_map(resolve, package, link);
    let middle = with_interfaces(resolve, package, remap);
    lemma_settled(resolve, package, deps, link);
    let k = lemma_first_failure(middle, package, remap, package.worlds.len());
    assert(can_elaborate(middle, package, remap, k));
    clashes_are_reported(
        remap.item_map(),
        middle.types,
        middle.interfaces,
        package.worlds[k],
        package.world_spans[k].0,
        package.world_spans[k].1,
    );
    k
}

/// The first world that cannot be elaborated.
proof fn lemma_first_failure(
    resolve: ResolveView,
    package: UnresolvedView,
    map: RemapView,
    n: nat,
) -> (k: int)
    requires
        elaborated_worlds(resolve, package, map, n).1.is_some(),
    ensures
        0 <= k < n,
        elaborated_worlds(resolve, package, map, k as nat).1.is_none(),
        elaborated(
            map.item_map(),
            resolve.types,
            resolve.interfaces,
            package.worlds[k],
            package.world_spans[k].0,
            package.world_spans[k].1,
        ) == Err::<WorldView, ErrorView>(elaborated_worlds(resolve, package, map, n).1.unwrap()),
        elaborated_worlds(resolve, package, map, n).0.len() == k,
    decreases n,
{
    if elaborated_worlds(resolve, package, map, (n - 1) as nat).1.is_some() {
        lemma_first_failure(resolve, package, map, (n - 1) as nat)
    } else {
        lemma_elaborated_worlds(resolve, package, map, (n - 1) as nat);
        n - 1
    }
}

/// Names that differ do so once the package is there.
proof fn lemma_names_apart(
    map: ItemMap,
    a: Seq<TypeDefView>,
    b: Seq<TypeDefView>,
    c: Seq<InterfaceView>,
    d: Seq<InterfaceView>,
    world: WorldView,
    import_spans: Seq<Span>,
    export_spans: Seq<Span>,
)
    requires
        same_sources(a, b, c, d),
        uses_within(a, c),
        world_ready(map, a, c, world, import_spans, export_spans),
        below(map.interfaces, c.len()),
        below(map.types, a.len()),
        elaborated(map, a, c, world, import_spans, export_spans).is_ok(),
        names_apart(map, a, c, world),
    ensures
        names_apart(map, b, d, world),
{
    lemma_sources_known(map, a, b, c, d, world);
    lemma_required_known(map, a, c, world, import_spans, export_spans);
    assert forall|s: Step, t: Step, name: Seq<char>|
        #![trigger goes_by(map.interfaces, side(world, s.1), d, s.0, name), goes_by(map.interfaces, side(world, t.1), d, t.0, name)]
        required(map, b, d, world, s) && required(map, b, d, world, t) && goes_by(
            map.interfaces,
            side(world, s.1),
            d,
            s.0,
            name,
        ) && goes_by(map.interfaces, side(world, t.1), d, t.0, name) implies s == t by {
        assert(required(map, a, c, world, s) && required(map, a, c, world, t));
        assert(goes_by(map.interfaces, side(world, s.1), c, s.0, name));
        assert(goes_by(map.interfaces, side(world, t.1), c, t.0, name));
    }
    assert forall|s: Step, i: int|
        #![trigger required(map, b, d, world, s), side(world, s.1)[i]]
        required(map, b, d, world, s) && 0 <= i < side(world, s.1).len() && !(side(world, s.1)[i].1
            is Interface) implies !goes_by(
        map.interfaces,
        side(world, s.1),
        d,
        s.0,
        side(world, s.1)[i].0,
    ) by {
        assert(required(map, a, c, world, s));
        assert(!goes_by(map.interfaces, side(world, s.1), c, s.0, side(world, s.1)[i].0));
    }
}

} // verus!
