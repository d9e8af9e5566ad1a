//! What pushing a package keeps: references stay within their arenas, and what was there before
//! stays as it is.
use vstd::prelude::*;

use crate::append::{
    can_elaborate, can_elaborate_worlds, can_push, elaborated_worlds, lemma_can_elaborate,
    lemma_elaborated_worlds, lemma_middle_uses, package_documents, pushed, pushed_map,
    with_interfaces, with_package,
};
use crate::closure::lemma_elaborated;
use crate::elaborate::{below, uses_within};
use crate::link::{lemma_linked, linked, Deps};
use crate::moving::interface_owner;
use crate::names::distinct;
use crate::package::UnresolvedView;
use crate::remap::{
    function_within, functions_within, ids_within, item_within, items_within, kind_within,
    mapped_function, mapped_functions, mapped_ids, mapped_kind, option_within, type_within,
    RemapView,
};
use crate::resolve::ResolveView;
use crate::types::{FunctionView, ItemView, KindView, ResultsView, TypeOwner};

verus! {

/// The first `n` ids of a mapping are below `m`.
pub open spec fn prefix_below(ids: Seq<usize>, n: nat, m: nat) -> bool {
    &&& n <= ids.len()
    &&& forall|j: int| 0 <= j < n ==> #[trigger] ids[j] < m
}

pub proof fn lemma_mapped_kind(ids: Seq<usize>, kind: KindView, n: nat, m: nat)
    requires
        kind_within(kind, n),
        prefix_below(ids, n, m),
    ensures
        kind_within(mapped_kind(ids, kind), m),
        kind != KindView::Unknown ==> mapped_kind(ids, kind) != KindView::Unknown,
{
    let mapped = mapped_kind(ids, kind);
    match kind {
        KindView::Record(fields) => {
            assert forall|i: int| 0 <= i < fields.len() implies type_within(
                (#[trigger] mapped->Record_0[i]).1,
                m,
            ) by {
                assert(type_within(fields[i].1, n));
            }
        },
        KindView::Tuple(types) => {
            assert forall|i: int| 0 <= i < types.len() implies type_within(
                #[trigger] mapped->Tuple_0[i],
                m,
            ) by {
                assert(type_within(types[i], n));
            }
        },
        KindView::Variant(cases) => {
            assert forall|i: int| 0 <= i < cases.len() implies option_within(
                (#[trigger] mapped->Variant_0[i]).1,
                m,
            ) by {
                assert(option_within(cases[i].1, n));
            }
        },
        KindView::Union(types) => {
            assert forall|i: int| 0 <= i < types.len() implies type_within(
                #[trigger] mapped->Union_0[i],
                m,
            ) by {
                assert(type_within(types[i], n));
            }
        },
        _ => {},
    }
}

pub proof fn lemma_mapped_function(ids: Seq<usize>, func: FunctionView, n: nat, m: nat)
    requires
        function_within(func, n),
        prefix_below(ids, n, m),
    ensures
        function_within(mapped_function(ids, func), m),
{
    let mapped = mapped_function(ids, func);
    assert forall|i: int| 0 <= i < mapped.params.len() implies type_within(
        (#[trigger] mapped.params[i]).1,
        m,
    ) by {
        assert(type_within(func.params[i].1, n));
    }
    if let ResultsView::Named(named) = func.results {
        let after = mapped.results->Named_0;
        assert forall|i: int| 0 <= i < after.len() implies type_within(
            (#[trigger] after[i]).1,
            m,
        ) by {
            assert(type_within(named[i].1, n));
        }
    }
}

pub proof fn lemma_mapped_functions(
    ids: Seq<usize>,
    functions: Seq<(Seq<char>, FunctionView)>,
    n: nat,
    m: nat,
)
    requires
        functions_within(functions, n),
        distinct(functions),
        prefix_below(ids, n, m),
    ensures
        functions_within(mapped_functions(ids, functions), m),
        distinct(mapped_functions(ids, functions)),
{
    let mapped = mapped_functions(ids, functions);
    assert forall|i: int| 0 <= i < mapped.len() implies function_within(
        (#[trigger] mapped[i]).1,
        m,
    ) by {
        lemma_mapped_function(ids, functions[i].1, n, m);
    }
    assert forall|i: int, j: int|
        #![trigger mapped[i], mapped[j]]
        0 <= i < j < mapped.len() implies mapped[i].0 != mapped[j].0 by {
        assert(functions[i].0 != functions[j].0);
    }
}

pub proof fn lemma_mapped_ids(ids: Seq<usize>, entries: Seq<(Seq<char>, usize)>, n: nat, m: nat)
    requires
        ids_within(entries, n),
        distinct(entries),
        prefix_below(ids, n, m),
    ensures
        ids_within(mapped_ids(ids, entries), m),
        distinct(mapped_ids(ids, entries)),
{
    let mapped = mapped_ids(ids, entries);
    assert forall|i: int| 0 <= i < mapped.len() implies (#[trigger] mapped[i]).1 < m by {
        assert(entries[i].1 < n);
    }
    assert forall|i: int, j: int|
        #![trigger mapped[i], mapped[j]]
        0 <= i < j < mapped.len() implies mapped[i].0 != mapped[j].0 by {
        assert(entries[i].0 != entries[j].0);
    }
}

/// What is known of a package that was linked and whose worlds were elaborated.
pub open spec fn push_ready(
    start: ResolveView,
    package: UnresolvedView,
    link: RemapView,
    after: ResolveView,
) -> bool {
    let map = pushed_map(start, package, link);
    let middle = with_interfaces(start, package, map);
    let (worlds, error) = elaborated_worlds(middle, package, map, package.worlds.len());
    &&& start.usable()
    &&& package.valid()
    &&& link.types.len() == package.foreign_types()
    &&& link.interfaces.len() == package.foreign_interfaces()
    &&& link.documents.len() == package.foreign_documents()
    &&& below(link.types, start.types.len())
    &&& below(link.interfaces, start.interfaces.len())
    &&& below(link.documents, start.documents.len())
    &&& error.is_none()
    &&& worlds.len() == package.worlds.len()
    &&& after == with_package(start, middle, package, map, worlds)
    &&& after.fits()
}

/// The new ids of a package are ids of the resolve that it was pushed into.
pub proof fn lemma_pushed_map(
    start: ResolveView,
    package: UnresolvedView,
    link: RemapView,
    after: ResolveView,
)
    requires
        push_ready(start, package, link, after),
    ensures
        ({
            let map = pushed_map(start, package, link);
            &&& map.types.len() == package.types.len()
            &&& map.interfaces.len() == package.interfaces.len()
            &&& map.worlds.len() == package.worlds.len()
            &&& map.documents.len() == package.documents.len()
            &&& below(map.types, after.types.len())
            &&& below(map.interfaces, after.interfaces.len())
            &&& below(map.worlds, after.worlds.len())
            &&& below(map.documents, after.documents.len())
        }),
        start.types.len() + package.types.len() - package.foreign_types() == after.types.len(),
        start.interfaces.len() + package.interfaces.len() - package.foreign_interfaces()
            == after.interfaces.len(),
        start.worlds.len() + package.worlds.len() == after.worlds.len(),
        start.documents.len() + package.documents.len() - package.foreign_documents()
            == after.documents.len(),
        start.packages.len() + 1 == after.packages.len(),
{
    let map = pushed_map(start, package, link);
    assert forall|i: int| 0 <= i < map.types.len() implies #[trigger] map.types[i]
        < after.types.len() by {
        if i < link.types.len() {
            assert(link.types[i] < start.types.len());
        }
    }
    assert forall|i: int| 0 <= i < map.interfaces.len() implies #[trigger] map.interfaces[i]
        < after.interfaces.len() by {
        if i < link.interfaces.len() {
            assert(link.interfaces[i] < start.interfaces.len());
        }
    }
    assert forall|i: int| 0 <= i < map.documents.len() implies #[trigger] map.documents[i]
        < after.documents.len() by {
        if i < link.documents.len() {
            assert(link.documents[i] < start.documents.len());
        }
    }
}

proof fn lemma_pushed_types(
    start: ResolveView,
    package: UnresolvedView,
    link: RemapView,
    after: ResolveView,
)
    requires
        push_ready(start, package, link, after),
    ensures
        forall|i: int| 0 <= i < after.types.len() ==> #[trigger] after.type_usable(i),
        start.valid() ==> forall|i: int|
            0 <= i < after.types.len() ==> #[trigger] after.type_valid(i),
{
    let map = pushed_map(start, package, link);
    let base = start.types.len();
    lemma_pushed_map(start, package, link, after);
    assert forall|i: int|
        #![trigger after.type_usable(i)]
        #![trigger after.type_valid(i)]
        0 <= i < after.types.len() implies after.type_usable(i) && (start.valid()
        ==> after.type_valid(i)) by {
        if i < base {
            assert(start.type_usable(i));
            assert(start.valid() ==> start.type_valid(i));
            assert(after.types[i] == start.types[i]);
        } else {
            let k = package.foreign_types() + (i - base);
            assert(package.type_valid(k));
            assert(after.types[i].kind == mapped_kind(map.types, package.types[k].kind));
            assert forall|j: int| 0 <= j < k implies #[trigger] map.types[j] < i by {
                if j < link.types.len() {
                    assert(link.types[j] < base);
                }
            }
            lemma_mapped_kind(map.types, package.types[k].kind, k as nat, i as nat);
            match package.types[k].owner {
                TypeOwner::Interface(id) => {
                    assert(after.types[i].owner == TypeOwner::Interface(
                        map.interfaces[id as int],
                    ));
                },
                TypeOwner::World(id) => {
                    assert(after.types[i].owner == TypeOwner::World(map.worlds[id as int]));
                },
                TypeOwner::Unowned => {},
            }
        }
    }
}

proof fn lemma_pushed_interfaces(
    start: ResolveView,
    package: UnresolvedView,
    link: RemapView,
    after: ResolveView,
)
    requires
        push_ready(start, package, link, after),
    ensures
        forall|i: int| 0 <= i < after.interfaces.len() ==> #[trigger] after.interface_usable(i),
        start.valid() ==> forall|i: int|
            0 <= i < after.interfaces.len() ==> #[trigger] after.interface_valid(i),
{
    let map = pushed_map(start, package, link);
    let base = start.interfaces.len();
    lemma_pushed_map(start, package, link, after);
    assert forall|i: int|
        #![trigger after.interface_usable(i)]
        #![trigger after.interface_valid(i)]
        0 <= i < after.interfaces.len() implies after.interface_usable(i) && (start.valid()
        ==> after.interface_valid(i)) by {
        let n = after.types.len();
        if i < base {
            assert(start.interface_usable(i));
            assert(start.valid() ==> start.interface_valid(i));
            assert(after.interfaces[i] == start.interfaces[i]);
            lemma_functions_within_more(start.interfaces[i].functions, start.types.len(), n);
        } else {
            let k = package.foreign_interfaces() + (i - base);
            let iface = package.interfaces[k];
            assert(package.interface_valid(k));
            assert(after.interfaces[i].types == mapped_ids(map.types, iface.types));
            assert(after.interfaces[i].functions == mapped_functions(map.types, iface.functions));
            assert(after.interfaces[i].document == map.documents[iface.document as int]);
            lemma_mapped_ids(map.types, iface.types, package.types.len(), n);
            lemma_mapped_functions(map.types, iface.functions, package.types.len(), n);
        }
    }
}

pub proof fn lemma_function_within_more(func: FunctionView, n: nat, m: nat)
    requires
        function_within(func, n),
        n <= m,
    ensures
        function_within(func, m),
{
    assert forall|i: int| 0 <= i < func.params.len() implies type_within(
        (#[trigger] func.params[i]).1,
        m,
    ) by {
        assert(type_within(func.params[i].1, n));
    }
    if let ResultsView::Named(named) = func.results {
        assert forall|i: int| 0 <= i < named.len() implies type_within(
            (#[trigger] named[i]).1,
            m,
        ) by {
            assert(type_within(named[i].1, n));
        }
    }
}

pub proof fn lemma_functions_within_more(
    functions: Seq<(Seq<char>, FunctionView)>,
    n: nat,
    m: nat,
)
    requires
        functions_within(functions, n),
        n <= m,
    ensures
        functions_within(functions, m),
{
    assert forall|i: int| 0 <= i < functions.len() implies function_within(
        (#[trigger] functions[i]).1,
        m,
    ) by {
        lemma_function_within_more(functions[i].1, n, m);
    }
}

pub proof fn lemma_items_within_more(
    items: Seq<(Seq<char>, ItemView)>,
    interfaces: nat,
    types: nat,
    more_interfaces: nat,
    more_types: nat,
)
    requires
        items_within(items, interfaces, types),
        interfaces <= more_interfaces,
        types <= more_types,
    ensures
        items_within(items, more_interfaces, more_types),
{
    assert forall|i: int| 0 <= i < items.len() implies item_within(
        (#[trigger] items[i]).1,
        more_interfaces,
        more_types,
    ) by {
        assert(item_within(items[i].1, interfaces, types));
        if let ItemView::Function(f) = items[i].1 {
            lemma_function_within_more(f, types, more_types);
        }
    }
}

proof fn lemma_pushed_worlds(
    start: ResolveView,
    package: UnresolvedView,
    link: RemapView,
    after: ResolveView,
)
    requires
        push_ready(start, package, link, after),
        ({
            let map = pushed_map(start, package, link);
            let middle = with_interfaces(start, package, map);
            &&& uses_within(middle.types, middle.interfaces)
            &&& forall|i: int|
                0 <= i < package.worlds.len() ==> #[trigger] can_elaborate(middle, package, map, i)
        }),
    ensures
        forall|i: int| 0 <= i < after.worlds.len() ==> #[trigger] after.world_usable(i),
        start.valid() ==> forall|i: int|
            0 <= i < after.worlds.len() ==> #[trigger] after.world_valid(i),
{
    let map = pushed_map(start, package, link);
    let middle = with_interfaces(start, package, map);
    let worlds = elaborated_worlds(middle, package, map, package.worlds.len()).0;
    let base = start.worlds.len();
    lemma_pushed_map(start, package, link, after);
    lemma_elaborated_worlds(middle, package, map, package.worlds.len());
    assert(middle.types.len() == after.types.len());
    assert(middle.interfaces.len() == after.interfaces.len());
    assert forall|i: int|
        #![trigger after.world_usable(i)]
        #![trigger after.world_valid(i)]
        0 <= i < after.worlds.len() implies after.world_usable(i) && (start.valid()
        ==> after.world_valid(i)) by {
        if i < base {
            assert(start.world_usable(i));
            assert(start.valid() ==> start.world_valid(i));
            assert(after.worlds[i] == start.worlds[i]);
            let (a, b) = (start.interfaces.len(), start.types.len());
            let (c, d) = (after.interfaces.len(), after.types.len());
            lemma_items_within_more(start.worlds[i].imports, a, b, c, d);
            lemma_items_within_more(start.worlds[i].exports, a, b, c, d);
        } else {
            let k = i - base;
            assert((start.worlds + worlds)[i] == worlds[k]);
            assert(worlds[k].document == package.worlds[k].document);
            assert(package.world_valid(k));
            assert(can_elaborate(middle, package, map, k));
            lemma_elaborated(
                map.item_map(),
                middle.types,
                middle.interfaces,
                package.worlds[k],
                package.world_spans[k].0,
                package.world_spans[k].1,
            );
        }
    }
}

proof fn lemma_pushed_documents(
    start: ResolveView,
    package: UnresolvedView,
    link: RemapView,
    after: ResolveView,
)
    requires
        push_ready(start, package, link, after),
    ensures
        forall|i: int| 0 <= i < after.documents.len() ==> #[trigger] after.document_valid(i),
        forall|i: int| 0 <= i < after.packages.len() ==> #[trigger] after.package_valid(i),
{
    let map = pushed_map(start, package, link);
    let base = start.documents.len();
    lemma_pushed_map(start, package, link, after);
    assert forall|i: int| 0 <= i < after.documents.len() implies #[trigger] after.document_valid(
        i,
    ) by {
        if i < base {
            assert(start.document_valid(i));
            assert(after.documents[i] == start.documents[i]);
        } else {
            let k = package.foreign_documents() + (i - base);
            let doc = package.documents[k];
            assert(package.document_valid(k));
            let moved = after.documents[i];
            assert(moved.interfaces == mapped_ids(map.interfaces, doc.interfaces));
            assert(moved.worlds == mapped_ids(map.worlds, doc.worlds));
            lemma_mapped_ids(
                map.interfaces,
                doc.interfaces,
                package.interfaces.len(),
                after.interfaces.len(),
            );
            lemma_mapped_ids(map.worlds, doc.worlds, package.worlds.len(), after.worlds.len());
        }
    }
    assert forall|i: int| 0 <= i < after.packages.len() implies #[trigger] after.package_valid(
        i,
    ) by {
        if i < start.packages.len() {
            assert(start.package_valid(i));
            assert(after.packages[i] == start.packages[i]);
        } else {
            let docs = package_documents(package, map);
            assert(after.packages[i].documents == docs);
            assert forall|j: int| 0 <= j < docs.len() implies (#[trigger] docs[j]).1
                < after.documents.len() by {}
            assert forall|j: int, l: int|
                #![trigger docs[j], docs[l]]
                0 <= j < l < docs.len() implies docs[j].0 != docs[l].0 by {
                let first = package.foreign_documents();
                assert(package.documents[first + j].name != package.documents[first + l].name);
            }
        }
    }
}

/// A resolve is still usable with what a package leaves behind that has a world that cannot be
/// elaborated.
proof fn lemma_left_behind(start: ResolveView, package: UnresolvedView, link: RemapView)
    requires
        start.usable(),
        package.items_ready(),
        link.types.len() == package.foreign_types(),
        link.interfaces.len() == package.foreign_interfaces(),
        below(link.types, start.types.len()),
        below(link.interfaces, start.interfaces.len()),
        ({
            let map = pushed_map(start, package, link);
            let middle = with_interfaces(start, package, map);
            let worlds = elaborated_worlds(middle, package, map, package.worlds.len()).0;
            &&& can_elaborate_worlds(middle, package, map)
            &&& (ResolveView { worlds: start.worlds + worlds, ..middle }).fits()
        }),
    ensures
        ({
            let map = pushed_map(start, package, link);
            let middle = with_interfaces(start, package, map);
            let worlds = elaborated_worlds(middle, package, map, package.worlds.len()).0;
            (ResolveView { worlds: start.worlds + worlds, ..middle }).usable()
        }),
{
    let map = pushed_map(start, package, link);
    let middle = with_interfaces(start, package, map);
    let worlds = elaborated_worlds(middle, package, map, package.worlds.len()).0;
    let after = ResolveView { worlds: start.worlds + worlds, ..middle };
    lemma_middle_uses(start, package, link);
    lemma_elaborated_worlds(middle, package, map, package.worlds.len());
    lemma_can_elaborate(middle, package, map);
    assert forall|i: int| 0 <= i < map.types.len() implies #[trigger] map.types[i]
        < after.types.len() by {
        if i < link.types.len() {
            assert(link.types[i] < start.types.len());
        }
    }
    assert forall|i: int| 0 <= i < map.interfaces.len() implies #[trigger] map.interfaces[i]
        < after.interfaces.len() by {
        if i < link.interfaces.len() {
            assert(link.interfaces[i] < start.interfaces.len());
        }
    }
    assert forall|i: int| 0 <= i < after.types.len() implies #[trigger] after.type_usable(i) by {
        let base = start.types.len();
        if i < base {
            assert(start.type_usable(i));
            assert(after.types[i] == start.types[i]);
        } else {
            let k = package.foreign_types() + (i - base);
            assert(package.type_ready(k));
            assert(after.types[i].kind == mapped_kind(map.types, package.types[k].kind));
            assert forall|j: int| 0 <= j < k implies #[trigger] map.types[j] < i by {
                if j < link.types.len() {
                    assert(link.types[j] < base);
                }
            }
            lemma_mapped_kind(map.types, package.types[k].kind, k as nat, i as nat);
            assert(after.types[i].owner == interface_owner(map.interfaces, package.types[k].owner));
        }
    }
    let n = after.types.len();
    assert forall|i: int| 0 <= i < after.interfaces.len() implies
        #[trigger] after.interface_usable(i) by {
        let base = start.interfaces.len();
        if i < base {
            assert(start.interface_usable(i));
            assert(after.interfaces[i] == start.interfaces[i]);
            lemma_functions_within_more(start.interfaces[i].functions, start.types.len(), n);
        } else {
            let k = package.foreign_interfaces() + (i - base);
            let iface = package.interfaces[k];
            assert(package.interface_ready(k));
            assert(after.interfaces[i].types == mapped_ids(map.types, iface.types));
            assert(after.interfaces[i].functions == mapped_functions(map.types, iface.functions));
            lemma_mapped_ids(map.types, iface.types, package.types.len(), n);
            lemma_mapped_functions(map.types, iface.functions, package.types.len(), n);
        }
    }
    assert forall|i: int| 0 <= i < after.worlds.len() implies #[trigger] after.world_usable(i) by {
        let base = start.worlds.len();
        if i < base {
            assert(start.world_usable(i));
            let (a, b) = (start.interfaces.len(), start.types.len());
            lemma_items_within_more(start.worlds[i].imports, a, b, after.interfaces.len(), n);
            lemma_items_within_more(start.worlds[i].exports, a, b, after.interfaces.len(), n);
        } else {
            let k = i - base;
            assert(after.worlds[i] == worlds[k]);
            assert(can_elaborate(middle, package, map, k));
            lemma_elaborated(
                map.item_map(),
                middle.types,
                middle.interfaces,
                package.worlds[k],
                package.world_spans[k].0,
                package.world_spans[k].1,
            );
        }
    }
    assert forall|i: int| 0 <= i < after.documents.len() implies #[trigger] after.document_valid(
        i,
    ) by {
        assert(start.document_valid(i));
    }
    assert forall|i: int| 0 <= i < after.packages.len() implies #[trigger] after.package_valid(
        i,
    ) by {
        assert(start.package_valid(i));
    }
}

/// A resolve stays usable whatever comes of pushing a package. A package that was pushed into a
/// valid resolve leaves it valid: the new package has no dangling references, and types are still
/// sorted topologically.
pub proof fn pushing_keeps_valid(resolve: ResolveView, package: UnresolvedView, deps: Deps)
    requires
        can_push(resolve, package, deps),
        pushed(resolve, package, deps).0.fits(),
    ensures
        pushed(resolve, package, deps).0.usable(),
        pushed(resolve, package, deps) matches (after, Ok(id)) ==> {
            &&& resolve.valid() ==> after.valid()
            &&& id == resolve.packages.len()
        },
{
    reveal(can_push);
    reveal(pushed);
    if let Ok(link) = linked(resolve, package, deps) {
        let map = pushed_map(resolve, package, link);
        let middle = with_interfaces(resolve, package, map);
        let (worlds, error) = elaborated_worlds(middle, package, map, package.worlds.len());
        if error.is_none() {
            let after = with_package(resolve, middle, package, map, worlds);
            lemma_linked(resolve, package, deps);
            lemma_elaborated_worlds(middle, package, map, package.worlds.len());
            assert(push_ready(resolve, package, link, after));
            lemma_middle_uses(resolve, package, link);
            lemma_can_elaborate(middle, package, map);
            lemma_pushed_types(resolve, package, link, after);
            lemma_pushed_interfaces(resolve, package, link, after);
            lemma_pushed_worlds(resolve, package, link, after);
            lemma_pushed_documents(resolve, package, link, after);
        } else {
            lemma_linked(resolve, package, deps);
            lemma_left_behind(resolve, package, link);
        }
    }
}

/// Whatever comes of pushing a package, everything that was there before stays as it is and where
/// it is. A package that was pushed has the name and the URL that it came with, and lists its
/// documents in the order in which it came with them.
pub proof fn pushing_keeps_items(resolve: ResolveView, package: UnresolvedView, deps: Deps)
    requires
        can_push(resolve, package, deps),
    ensures
        ({
            let after = pushed(resolve, package, deps).0;
            let result = pushed(resolve, package, deps).1;
            &&& resolve.types.is_prefix_of(after.types)
            &&& resolve.interfaces.is_prefix_of(after.interfaces)
            &&& resolve.worlds.is_prefix_of(after.worlds)
            &&& resolve.documents.is_prefix_of(after.documents)
            &&& resolve.packages.is_prefix_of(after.packages)
            &&& result matches Err(_) ==> after.documents == resolve.documents && after.packages
                == resolve.packages
            &&& result matches Ok(_) ==> {
                let new = after.packages.last();
                let first = package.foreign_documents();
                &&& after.packages.len() == resolve.packages.len() + 1
                &&& new.name == package.name
                &&& new.url == package.url
                &&& new.documents.len() == package.documents.len() - first
                &&& forall|i: int|
                    0 <= i < new.documents.len() ==> (#[trigger] new.documents[i]).0
                        == package.documents[first + i].name
            }
        }),
{
    reveal(can_push);
    reveal(pushed);
    let (after, result) = pushed(resolve, package, deps);
    if let Ok(link) = linked(resolve, package, deps) {
        lemma_linked(resolve, package, deps);
        assert(resolve.types =~= after.types.take(resolve.types.len() as int));
        assert(resolve.interfaces =~= after.interfaces.take(resolve.interfaces.len() as int));
        assert(resolve.worlds =~= after.worlds.take(resolve.worlds.len() as int));
        assert(resolve.documents =~= after.documents.take(resolve.documents.len() as int));
        assert(resolve.packages =~= after.packages.take(resolve.packages.len() as int));
    }
}

} // verus!
