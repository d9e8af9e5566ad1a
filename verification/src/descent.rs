//! What pushing a package makes of the links between items.
use vstd::prelude::*;

use crate::append::{
    can_elaborate, can_push, elaborated_worlds, lemma_can_elaborate, lemma_elaborated_worlds,
    lemma_middle_uses, package_documents, pushed, pushed_map, with_interfaces, with_package,
};
use crate::closure::{lemma_types_origin, lemma_unnamed_asked, lists_interface, worlds_list_once};
use crate::elaborate::{asks_for, below, elaborated, uses_within};
use crate::error::ErrorView;
use crate::link::{
    document_linkable, lemma_linked, linkable, linked, linked_document, linked_documents,
    linked_interface, linked_interfaces, linked_type, linked_types, Deps,
};
use crate::names::{distinct, find, lemma_find, lookup};
use crate::package::UnresolvedView;
use crate::parents::lemma_lookup_at;
use crate::remap::{item_within, mapped_ids, mapped_item, RemapView};
use crate::resolve::ResolveView;
use crate::types::{DocumentId, InterfaceId, ItemView, TypeOwner};
use crate::validity::{lemma_pushed_map, push_ready, pushing_keeps_valid};
use crate::worlds::interfaces_once;

verus! {

pub proof fn lemma_linked_documents_at(
    resolve: ResolveView,
    package: UnresolvedView,
    deps: Deps,
    n: nat,
    i: int,
)
    requires
        linked_documents(resolve, package, deps, n).is_ok(),
    ensures
        linked_documents(resolve, package, deps, n)->Ok_0.len() == n,
        0 <= i < n ==> linked_document(resolve, package, deps, i) == Ok::<_, ErrorView>(
            linked_documents(resolve, package, deps, n)->Ok_0[i],
        ),
    decreases n,
{
    if n > 0 {
        lemma_linked_documents_at(resolve, package, deps, (n - 1) as nat, i);
    }
}

pub proof fn lemma_linked_interfaces_at(
    resolve: ResolveView,
    package: UnresolvedView,
    documents: Seq<DocumentId>,
    n: nat,
    i: int,
)
    requires
        linked_interfaces(resolve, package, documents, n).is_ok(),
    ensures
        linked_interfaces(resolve, package, documents, n)->Ok_0.len() == n,
        0 <= i < n ==> linked_interface(resolve, package, documents, i) == Ok::<_, ErrorView>(
            linked_interfaces(resolve, package, documents, n)->Ok_0[i],
        ),
    decreases n,
{
    if n > 0 {
        lemma_linked_interfaces_at(resolve, package, documents, (n - 1) as nat, i);
    }
}

pub proof fn lemma_linked_types_at(
    resolve: ResolveView,
    package: UnresolvedView,
    interfaces: Seq<InterfaceId>,
    n: nat,
    i: int,
)
    requires
        linked_types(resolve, package, interfaces, n).is_ok(),
    ensures
        linked_types(resolve, package, interfaces, n)->Ok_0.len() == n,
        0 <= i < n ==> linked_type(resolve, package, interfaces, i) == Ok::<_, ErrorView>(
            linked_types(resolve, package, interfaces, n)->Ok_0[i],
        ),
    decreases n,
{
    if n > 0 {
        lemma_linked_types_at(resolve, package, interfaces, (n - 1) as nat, i);
    }
}

/// References of a package are linked to what they name: a document to the document of that name in
/// the package that was given for it, an interface to one of that name in that document, and a type
/// to one of that name in that interface. What an interface without a name is linked to has one.
pub proof fn references_keep_names(resolve: ResolveView, package: UnresolvedView, deps: Deps)
    requires
        resolve.valid(),
        resolve.parented(),
        linkable(resolve, package, deps),
    ensures
        linked(resolve, package, deps) matches Ok(link) ==> {
            &&& forall|d: int|
                0 <= d < package.foreign_documents() ==> {
                    let (i, j) = package.place_of(d);
                    let new = resolve.documents[#[trigger] link.documents[d] as int];
                    &&& new.name == package.foreign_deps[i].1[j].0
                    &&& lookup(deps, package.foreign_deps[i].0) == new.package
                }
            &&& forall|i: int|
                0 <= i < package.foreign_interfaces() ==> {
                    let old = package.interfaces[i];
                    let new = resolve.interfaces[#[trigger] link.interfaces[i] as int];
                    &&& new.document == link.documents[old.document as int]
                    &&& new.name.is_some()
                    &&& old.name.is_some() ==> new.name == old.name
                }
            &&& forall|t: int|
                0 <= t < package.foreign_types() ==> {
                    let old = package.types[t];
                    let new = resolve.types[#[trigger] link.types[t] as int];
                    &&& new.name == old.name
                    &&& new.owner == TypeOwner::Interface(
                        link.interfaces[old.owner->Interface_0 as int],
                    )
                }
        },
{
    lemma_linked(resolve, package, deps);
    if let Ok(link) = linked(resolve, package, deps) {
        assert forall|d: int| 0 <= d < package.foreign_documents() implies {
            let (i, j) = package.place_of(d);
            let new = resolve.documents[#[trigger] link.documents[d] as int];
            &&& new.name == package.foreign_deps[i].1[j].0
            &&& lookup(deps, package.foreign_deps[i].0) == new.package
        } by {
            lemma_linked_documents_at(
                resolve,
                package,
                deps,
                package.foreign_documents() as nat,
                d,
            );
            let (i, j) = package.place_of(d);
            let name = package.foreign_deps[i].1[j].0;
            assert(document_linkable(resolve, package, deps, d));
            let p = lookup(deps, package.foreign_deps[i].0).unwrap();
            lemma_find(resolve.packages[p as int].documents, name);
            assert(resolve.package_lists(p as int));
        }
        assert forall|i: int| 0 <= i < package.foreign_interfaces() implies {
            let old = package.interfaces[i];
            let new = resolve.interfaces[#[trigger] link.interfaces[i] as int];
            &&& new.document == link.documents[old.document as int]
            &&& new.name.is_some()
            &&& old.name.is_some() ==> new.name == old.name
        } by {
            lemma_linked_interfaces_at(
                resolve,
                package,
                link.documents,
                package.foreign_interfaces() as nat,
                i,
            );
            let old = package.interfaces[i];
            let d = link.documents[old.document as int] as int;
            assert(link.documents[old.document as int] < resolve.documents.len());
            assert(resolve.document_lists(d));
            assert(resolve.document_defaults(d));
            if let Some(name) = old.name {
                lemma_find(resolve.documents[d].interfaces, name);
            }
        }
        assert forall|t: int| 0 <= t < package.foreign_types() implies {
            let old = package.types[t];
            let new = resolve.types[#[trigger] link.types[t] as int];
            &&& new.name == old.name
            &&& new.owner == TypeOwner::Interface(
                link.interfaces[old.owner->Interface_0 as int],
            )
        } by {
            lemma_linked_types_at(
                resolve,
                package,
                link.interfaces,
                package.foreign_types() as nat,
                t,
            );
            let old = package.types[t];
            assert(package.type_bare(t));
            let i = link.interfaces[old.owner->Interface_0 as int] as int;
            assert(link.interfaces[old.owner->Interface_0 as int] < resolve.interfaces.len());
            assert(resolve.interface_lists(i));
            lemma_find(resolve.interfaces[i].types, old.name.unwrap());
        }
    }
}

/// What is known of a package that was pushed into a resolve, where every item of either can be
/// traced back.
spec fn grown(
    start: ResolveView,
    package: UnresolvedView,
    link: RemapView,
    after: ResolveView,
) -> bool {
    let map = pushed_map(start, package, link);
    let middle = with_interfaces(start, package, map);
    &&& push_ready(start, package, link, after)
    &&& start.valid()
    &&& after.valid()
    &&& start.parented()
    &&& package.parented()
    &&& uses_within(middle.types, middle.interfaces)
    &&& forall|i: int|
        0 <= i < package.worlds.len() ==> #[trigger] can_elaborate(middle, package, map, i)
    &&& forall|i: int|
        0 <= i < link.interfaces.len() ==> start.interfaces[
        #[trigger] link.interfaces[i] as int].name.is_some()
}

proof fn lemma_grown_packages(
    start: ResolveView,
    package: UnresolvedView,
    link: RemapView,
    after: ResolveView,
)
    requires
        grown(start, package, link, after),
    ensures
        forall|i: int| 0 <= i < after.packages.len() ==> #[trigger] after.package_lists(i),
        forall|i: int| 0 <= i < after.documents.len() ==> #[trigger] after.document_listed(i),
{
    let map = pushed_map(start, package, link);
    let base = start.documents.len();
    let first = package.foreign_documents();
    let docs = package_documents(package, map);
    lemma_pushed_map(start, package, link, after);
    assert(start.packages.len() <= usize::MAX);
    assert forall|i: int| 0 <= i < after.packages.len() implies #[trigger] after.package_lists(
        i,
    ) by {
        assert forall|j: int| 0 <= j < after.packages[i].documents.len() implies {
            let (name, id) = #[trigger] after.packages[i].documents[j];
            &&& after.documents[id as int].package == Some(i as usize)
            &&& after.documents[id as int].name == name
        } by {
            if i < start.packages.len() {
                assert(start.package_lists(i));
                assert(start.package_valid(i));
                assert(after.packages[i] == start.packages[i]);
                let (name, id) = start.packages[i].documents[j];
                assert(id < base);
                assert(after.documents[id as int] == start.documents[id as int]);
            } else {
                assert(after.packages[i].documents[j] == docs[j]);
                assert(map.documents[first + j] == base + j);
                assert(after.documents[base + j].name == package.documents[first + j].name);
            }
        }
    }
    assert forall|i: int, j: int|
        #![trigger docs[i], docs[j]]
        0 <= i < j < docs.len() implies docs[i].0 != docs[j].0 by {
        assert(package.documents[first + i].name == docs[i].0);
        assert(package.documents[first + j].name == docs[j].0);
    }
    assert forall|i: int| 0 <= i < after.documents.len() implies #[trigger] after.document_listed(
        i,
    ) by {
        if i < base {
            assert(start.document_listed(i));
            assert(start.document_valid(i));
            assert(after.documents[i] == start.documents[i]);
            let p = start.documents[i].package.unwrap();
            assert(after.packages[p as int] == start.packages[p as int]);
        } else {
            assert(distinct(docs));
            lemma_lookup_at(docs, i - base);
            assert(map.documents[first + (i - base)] == i);
        }
    }
}

proof fn lemma_grown_documents(
    start: ResolveView,
    package: UnresolvedView,
    link: RemapView,
    after: ResolveView,
)
    requires
        grown(start, package, link, after),
    ensures
        forall|i: int| 0 <= i < after.documents.len() ==> #[trigger] after.document_lists(i),
        forall|i: int| 0 <= i < after.documents.len() ==> #[trigger] after.document_defaults(i),
{
    let map = pushed_map(start, package, link);
    let middle = with_interfaces(start, package, map);
    let base = start.documents.len();
    let first = package.foreign_documents();
    lemma_pushed_map(start, package, link, after);
    lemma_elaborated_worlds(middle, package, map, package.worlds.len());
    assert forall|i: int|
        #![trigger after.document_lists(i)]
        #![trigger after.document_defaults(i)]
        0 <= i < after.documents.len() implies after.document_lists(i) && after.document_defaults(
        i,
    ) by {
        let new = after.documents[i];
        if i < base {
            let old = start.documents[i];
            assert(start.document_lists(i));
            assert(start.document_defaults(i));
            assert(start.document_valid(i));
            assert(new == old);
            assert forall|j: int| 0 <= j < new.interfaces.len() implies {
                let (name, id) = #[trigger] after.documents[i].interfaces[j];
                &&& after.interfaces[id as int].document == i
                &&& after.interfaces[id as int].name == Some(name)
            } by {
                let (name, id) = start.documents[i].interfaces[j];
                assert(id < start.interfaces.len());
                assert(after.interfaces[id as int] == start.interfaces[id as int]);
            }
            assert forall|j: int| 0 <= j < new.worlds.len() implies {
                let (name, id) = #[trigger] after.documents[i].worlds[j];
                &&& after.worlds[id as int].document == i
                &&& after.worlds[id as int].name == name
            } by {
                let (name, id) = start.documents[i].worlds[j];
                assert(id < start.worlds.len());
                assert(after.worlds[id as int] == start.worlds[id as int]);
            }
        } else {
            let d = first + (i - base);
            let old = package.documents[d];
            assert(package.document_lists(d));
            assert(package.document_valid(d));
            assert(map.documents[d] == i);
            assert(new.interfaces == mapped_ids(map.interfaces, old.interfaces));
            assert(new.worlds == mapped_ids(map.worlds, old.worlds));
            assert forall|j: int| 0 <= j < new.interfaces.len() implies {
                let (name, id) = #[trigger] after.documents[i].interfaces[j];
                &&& after.interfaces[id as int].document == i
                &&& after.interfaces[id as int].name == Some(name)
            } by {
                let (name, id) = package.documents[d].interfaces[j];
                assert(id < package.interfaces.len());
                assert(map.interfaces[id as int] >= start.interfaces.len());
            }
            assert forall|j: int| 0 <= j < new.worlds.len() implies {
                let (name, id) = #[trigger] after.documents[i].worlds[j];
                &&& after.worlds[id as int].document == i
                &&& after.worlds[id as int].name == name
            } by {
                let (name, id) = package.documents[d].worlds[j];
                assert(id < package.worlds.len());
                assert(map.worlds[id as int] == start.worlds.len() + id);
            }
            if let Some(id) = old.default_interface {
                assert(map.interfaces[id as int] >= start.interfaces.len());
            }
            if let Some(id) = old.default_world {
                assert(map.worlds[id as int] == start.worlds.len() + id);
            }
        }
    }
}

/// What a name stands for follows a renumbering.
proof fn lemma_mapped_lookup(ids: Seq<usize>, entries: Seq<(Seq<char>, usize)>, name: Seq<char>)
    requires
        distinct(entries),
        lookup(entries, name).is_some(),
    ensures
        lookup(mapped_ids(ids, entries), name) == Some(ids[lookup(entries, name).unwrap() as int]),
{
    let mapped = mapped_ids(ids, entries);
    lemma_find(entries, name);
    let j = find(entries, name).unwrap();
    assert(mapped[j].0 == name);
    assert forall|k: int, l: int|
        #![trigger mapped[k], mapped[l]]
        0 <= k < l < mapped.len() implies mapped[k].0 != mapped[l].0 by {
        assert(entries[k].0 != entries[l].0);
    }
    assert(distinct(mapped));
    lemma_lookup_at(mapped, j);
}

/// What becomes of a type of the package.
proof fn lemma_new_type(
    start: ResolveView,
    package: UnresolvedView,
    link: RemapView,
    after: ResolveView,
    k: int,
)
    requires
        push_ready(start, package, link, after),
        package.foreign_types() <= k < package.types.len(),
    ensures
        ({
            let map = pushed_map(start, package, link);
            let new = after.types[map.types[k] as int];
            &&& map.types[k] == start.types.len() + (k - package.foreign_types())
            &&& new.name == package.types[k].name
            &&& new.owner == match package.types[k].owner {
                TypeOwner::Interface(id) => TypeOwner::Interface(map.interfaces[id as int]),
                TypeOwner::World(id) => TypeOwner::World(map.worlds[id as int]),
                TypeOwner::Unowned => TypeOwner::Unowned,
            }
        }),
{
    let map = pushed_map(start, package, link);
    lemma_pushed_map(start, package, link, after);
    let i = start.types.len() + (k - package.foreign_types());
    assert(map.types[k] == i);
    assert(after.types[i].name == package.types[k].name);
    match package.types[k].owner {
        TypeOwner::Interface(id) => {
            assert(after.types[i].owner == TypeOwner::Interface(map.interfaces[id as int]));
        },
        TypeOwner::World(id) => {
            assert(after.types[i].owner == TypeOwner::World(map.worlds[id as int]));
        },
        TypeOwner::Unowned => {},
    }
}

proof fn lemma_grown_interfaces(
    start: ResolveView,
    package: UnresolvedView,
    link: RemapView,
    after: ResolveView,
)
    requires
        grown(start, package, link, after),
    ensures
        forall|i: int| 0 <= i < after.interfaces.len() ==> #[trigger] after.interface_listed(i),
        forall|i: int| 0 <= i < after.interfaces.len() ==> #[trigger] after.interface_lists(i),
{
    let map = pushed_map(start, package, link);
    let base = start.interfaces.len();
    lemma_pushed_map(start, package, link, after);
    assert forall|i: int|
        #![trigger after.interface_listed(i)]
        #![trigger after.interface_lists(i)]
        0 <= i < after.interfaces.len() implies after.interface_listed(i)
        && after.interface_lists(i) by {
        let new = after.interfaces[i];
        if i < base {
            assert(start.interface_listed(i));
            assert(start.interface_lists(i));
            assert(start.interface_valid(i));
            assert(new == start.interfaces[i]);
            assert(after.documents[new.document as int] == start.documents[new.document as int]);
            assert forall|j: int| 0 <= j < new.types.len() implies {
                let (name, id) = #[trigger] after.interfaces[i].types[j];
                &&& after.types[id as int].owner == TypeOwner::Interface(i as usize)
                &&& after.types[id as int].name == Some(name)
            } by {
                let (name, id) = start.interfaces[i].types[j];
                assert(id < start.types.len());
                assert(after.types[id as int] == start.types[id as int]);
            }
        } else {
            let k = package.foreign_interfaces() + (i - base);
            let old = package.interfaces[k];
            assert(package.interface_lists(k));
            assert(package.interface_valid(k));
            assert(map.interfaces[k] == i);
            assert(new.types == mapped_ids(map.types, old.types));
            assert(old.document >= package.foreign_documents());
            assert(new.document == map.documents[old.document as int]);
            assert(after.documents[new.document as int].interfaces == mapped_ids(
                map.interfaces,
                package.documents[old.document as int].interfaces,
            ));
            if let Some(name) = old.name {
                assert(package.document_valid(old.document as int));
                lemma_mapped_lookup(
                    map.interfaces,
                    package.documents[old.document as int].interfaces,
                    name,
                );
            }
            assert forall|j: int| 0 <= j < new.types.len() implies {
                let (name, id) = #[trigger] after.interfaces[i].types[j];
                &&& after.types[id as int].owner == TypeOwner::Interface(i as usize)
                &&& after.types[id as int].name == Some(name)
            } by {
                let (name, id) = package.interfaces[k].types[j];
                assert(id < package.types.len());
                lemma_new_type(start, package, link, after, id as int);
            }
        }
    }
}

proof fn lemma_grown_types(
    start: ResolveView,
    package: UnresolvedView,
    link: RemapView,
    after: ResolveView,
)
    requires
        grown(start, package, link, after),
    ensures
        forall|i: int| 0 <= i < after.types.len() ==> #[trigger] after.type_listed(i),
{
    let map = pushed_map(start, package, link);
    let base = start.types.len();
    lemma_pushed_map(start, package, link, after);
    assert forall|i: int| 0 <= i < after.types.len() implies #[trigger] after.type_listed(i) by {
        if i < base {
            assert(start.type_listed(i));
            assert(start.type_valid(i));
            assert(after.types[i] == start.types[i]);
            if let TypeOwner::Interface(id) = start.types[i].owner {
                assert(after.interfaces[id as int] == start.interfaces[id as int]);
            }
        } else {
            let k = package.foreign_types() + (i - base);
            assert(package.type_listed(k));
            assert(package.type_valid(k));
            lemma_new_type(start, package, link, after, k);
            if let TypeOwner::Interface(id) = package.types[k].owner {
                let new = map.interfaces[id as int];
                assert(after.types[i].owner == TypeOwner::Interface(new));
                assert(new >= start.interfaces.len());
                assert(after.interfaces[new as int].types == mapped_ids(
                    map.types,
                    package.interfaces[id as int].types,
                ));
                assert(package.interface_valid(id as int));
                lemma_mapped_lookup(
                    map.types,
                    package.interfaces[id as int].types,
                    package.types[k].name.unwrap(),
                );
            }
        }
    }
}

/// What becomes of a world of the package.
proof fn lemma_new_world(
    start: ResolveView,
    package: UnresolvedView,
    link: RemapView,
    after: ResolveView,
    k: int,
)
    requires
        grown(start, package, link, after),
        0 <= k < package.worlds.len(),
    ensures
        ({
            let map = pushed_map(start, package, link);
            let middle = with_interfaces(start, package, map);
            let old = package.worlds[k];
            let new = after.worlds[start.worlds.len() + k];
            &&& map.worlds[k] == start.worlds.len() + k
            &&& new.name == old.name
            &&& new.document == map.documents[old.document as int]
            &&& elaborated(
                map.item_map(),
                middle.types,
                middle.interfaces,
                old,
                package.world_spans[k].0,
                package.world_spans[k].1,
            ) matches Ok(world) && world.imports == new.imports && world.exports == new.exports
            &&& below(map.item_map().interfaces, middle.interfaces.len())
            &&& below(map.item_map().types, middle.types.len())
        }),
{
    let map = pushed_map(start, package, link);
    let middle = with_interfaces(start, package, map);
    lemma_pushed_map(start, package, link, after);
    lemma_elaborated_worlds(middle, package, map, package.worlds.len());
    let i = start.worlds.len() + k;
    assert(map.worlds[k] == i);
    assert(after.worlds[i].name == package.worlds[k].name);
}

/// An interface without a name that a new world lists is one of the package, and stands in that
/// world of the package.
proof fn lemma_new_unnamed(
    start: ResolveView,
    package: UnresolvedView,
    link: RemapView,
    after: ResolveView,
    k: int,
    import: bool,
    j: int,
) -> (place: (InterfaceId, int))
    requires
        grown(start, package, link, after),
        0 <= k < package.worlds.len(),
        0 <= j < after.world_items(start.worlds.len() + k, import).len(),
        after.world_items(start.worlds.len() + k, import)[j].1 matches ItemView::Interface(id)
            && after.interfaces[id as int].name.is_none(),
    ensures
        package.foreign_interfaces() <= place.0 < package.interfaces.len(),
        package.interfaces[place.0 as int].name.is_none(),
        package.stands_at(place.0, k, import, place.1),
        after.world_items(start.worlds.len() + k, import)[j].1 == ItemView::Interface(
            pushed_map(start, package, link).interfaces[place.0 as int],
        ),
{
    let map = pushed_map(start, package, link);
    let middle = with_interfaces(start, package, map);
    let old = package.worlds[k];
    let spans = package.world_spans[k];
    lemma_pushed_map(start, package, link, after);
    lemma_new_world(start, package, link, after, k);
    assert(can_elaborate(middle, package, map, k));
    lemma_unnamed_asked(
        map.item_map(),
        middle.types,
        middle.interfaces,
        old,
        spans.0,
        spans.1,
    );
    let items = after.world_items(start.worlds.len() + k, import);
    let id = items[j].1->Interface_0;
    assert(lists_interface(items, id));
    assert(after.world_valid(start.worlds.len() + k));
    assert(item_within(items[j].1, after.interfaces.len(), after.types.len()));
    assert(after.interfaces[id as int].name == middle.interfaces[id as int].name);
    let asked = package.world_items(k, import);
    assert(asks_for(map.interfaces, asked, id));
    let i = choose|i: int|
        0 <= i < asked.len() && ((#[trigger] asked[i]).1 matches ItemView::Interface(x)
            && map.interfaces[x as int] == id);
    let x = asked[i].1->Interface_0;
    assert(package.world_valid(k));
    assert(item_within(asked[i].1, package.interfaces.len(), package.types.len()));
    if x < package.foreign_interfaces() {
        assert(map.interfaces[x as int] == link.interfaces[x as int]);
        assert(after.interfaces[id as int] == start.interfaces[id as int]);
    }
    (x, i)
}

proof fn lemma_grown_world_listed(
    start: ResolveView,
    package: UnresolvedView,
    link: RemapView,
    after: ResolveView,
)
    requires
        grown(start, package, link, after),
    ensures
        forall|i: int| 0 <= i < after.worlds.len() ==> #[trigger] after.world_listed(i),
{
    let map = pushed_map(start, package, link);
    let base = start.worlds.len();
    lemma_pushed_map(start, package, link, after);
    assert forall|i: int| 0 <= i < after.worlds.len() implies #[trigger] after.world_listed(i) by {
        let new = after.worlds[i];
        if i < base {
            assert(start.world_listed(i));
            assert(start.world_valid(i));
            assert(new == start.worlds[i]);
            assert(after.documents[new.document as int] == start.documents[new.document as int]);
        } else {
            let k = i - base;
            let old = package.worlds[k];
            lemma_new_world(start, package, link, after, k);
            assert(package.world_lists(k));
            assert(package.world_valid(k));
            assert(package.document_valid(old.document as int));
            assert(after.documents[new.document as int].worlds == mapped_ids(
                map.worlds,
                package.documents[old.document as int].worlds,
            ));
            lemma_mapped_lookup(
                map.worlds,
                package.documents[old.document as int].worlds,
                old.name,
            );
        }
    }
}

/// What an old world lists stays as it is.
proof fn lemma_old_item(
    start: ResolveView,
    package: UnresolvedView,
    link: RemapView,
    after: ResolveView,
    w: int,
    import: bool,
    j: int,
)
    requires
        grown(start, package, link, after),
        0 <= w < start.worlds.len(),
        0 <= j < start.world_items(w, import).len(),
    ensures
        after.world_items(w, import) == start.world_items(w, import),
        after.worlds[w] == start.worlds[w],
        match start.world_items(w, import)[j].1 {
            ItemView::Interface(id) => id < start.interfaces.len() && after.interfaces[id as int]
                == start.interfaces[id as int],
            ItemView::Type(id) => id < start.types.len() && after.types[id as int]
                == start.types[id as int],
            ItemView::Function(_) => true,
        },
{
    lemma_pushed_map(start, package, link, after);
    assert(start.world_valid(w));
    assert(after.worlds[w] == start.worlds[w]);
    assert(item_within(
        start.world_items(w, import)[j].1,
        start.interfaces.len(),
        start.types.len(),
    ));
}

proof fn lemma_grown_world_lists(
    start: ResolveView,
    package: UnresolvedView,
    link: RemapView,
    after: ResolveView,
)
    requires
        grown(start, package, link, after),
    ensures
        forall|i: int| 0 <= i < after.worlds.len() ==> #[trigger] after.world_lists(i),
{
    let map = pushed_map(start, package, link);
    let middle = with_interfaces(start, package, map);
    let base = start.worlds.len();
    lemma_pushed_map(start, package, link, after);
    assert forall|i: int| 0 <= i < after.worlds.len() implies #[trigger] after.world_lists(i) by {
        let new = after.worlds[i];
        if i < base {
            assert(start.world_lists(i));
            assert(new == start.worlds[i]);
            assert forall|j: int|
                0 <= j < new.imports.len() implies match #[trigger] after.worlds[i].imports[j] {
                (name, ItemView::Type(id)) => {
                    &&& after.types[id as int].owner == TypeOwner::World(i as usize)
                    &&& after.types[id as int].name == Some(name)
                },
                (_, ItemView::Interface(id)) => after.interfaces[id as int].name.is_none()
                    ==> after.interfaces[id as int].document == after.worlds[i].document,
                _ => true,
            } by {
                assert(start.world_items(i, true)[j] == start.worlds[i].imports[j]);
                lemma_old_item(start, package, link, after, i, true, j);
            }
            assert forall|j: int|
                0 <= j < new.exports.len() implies match #[trigger] after.worlds[i].exports[j] {
                (_, ItemView::Type(_)) => false,
                (_, ItemView::Interface(id)) => after.interfaces[id as int].name.is_none()
                    ==> after.interfaces[id as int].document == after.worlds[i].document,
                _ => true,
            } by {
                assert(start.world_items(i, false)[j] == start.worlds[i].exports[j]);
                lemma_old_item(start, package, link, after, i, false, j);
            }
        } else {
            let k = i - base;
            let old = package.worlds[k];
            let spans = package.world_spans[k];
            lemma_new_world(start, package, link, after, k);
            assert(can_elaborate(middle, package, map, k));
            lemma_types_origin(
                map.item_map(),
                middle.types,
                middle.interfaces,
                old,
                spans.0,
                spans.1,
            );
            assert(package.world_lists(k));
            assert(package.world_valid(k));
            assert forall|import: bool, j: int|
                0 <= j < after.world_items(i, import).len() implies ((
            #[trigger] after.world_items(i, import)[j]).1 matches ItemView::Interface(id)
                ==> after.interfaces[id as int].name.is_none()
                ==> after.interfaces[id as int].document == new.document) by {
                if let ItemView::Interface(id) = after.world_items(i, import)[j].1 {
                    if after.interfaces[id as int].name.is_none() {
                        let (x, p) = lemma_new_unnamed(
                            start,
                            package,
                            link,
                            after,
                            k,
                            import,
                            j,
                        );
                        assert(package.world_items(k, import)[p].1 == ItemView::Interface(x));
                        assert(package.interfaces[x as int].document == old.document);
                        assert(after.interfaces[id as int].document
                            == map.documents[package.interfaces[x as int].document as int]);
                    }
                }
            }
            assert forall|j: int|
                0 <= j < new.imports.len() implies match #[trigger] after.worlds[i].imports[j] {
                (name, ItemView::Type(id)) => {
                    &&& after.types[id as int].owner == TypeOwner::World(i as usize)
                    &&& after.types[id as int].name == Some(name)
                },
                (_, ItemView::Interface(id)) => after.interfaces[id as int].name.is_none()
                    ==> after.interfaces[id as int].document == after.worlds[i].document,
                _ => true,
            } by {
                assert(after.world_items(i, true)[j] == new.imports[j]);
                if new.imports[j].1 is Type {
                    let p = choose|p: int|
                        0 <= p < old.imports.len() && (#[trigger] old.imports[p]).1 is Type
                            && new.imports[j] == (
                            old.imports[p].0,
                            mapped_item(map.item_map(), old.imports[p].1),
                        );
                    assert(package.worlds[k].imports[p] == old.imports[p]);
                    let t = old.imports[p].1->Type_0;
                    assert(item_within(
                        old.imports[p].1,
                        package.interfaces.len(),
                        package.types.len(),
                    ));
                    lemma_new_type(start, package, link, after, t as int);
                }
            }
            assert forall|j: int|
                0 <= j < new.exports.len() implies match #[trigger] after.worlds[i].exports[j] {
                (_, ItemView::Type(_)) => false,
                (_, ItemView::Interface(id)) => after.interfaces[id as int].name.is_none()
                    ==> after.interfaces[id as int].document == after.worlds[i].document,
                _ => true,
            } by {
                assert(after.world_items(i, false)[j] == new.exports[j]);
            }
        }
    }
}

/// An interface without a name that stands in an old world stands in no new one.
proof fn lemma_apart(
    start: ResolveView,
    package: UnresolvedView,
    link: RemapView,
    after: ResolveView,
    id: InterfaceId,
    v: int,
    a: bool,
    i: int,
    w: int,
    b: bool,
    j: int,
)
    requires
        grown(start, package, link, after),
        after.stands_at(id, v, a, i),
        after.stands_at(id, w, b, j),
        id < after.interfaces.len(),
        after.interfaces[id as int].name.is_none(),
        v <= w,
    ensures
        v == w && a == b && i == j,
{
    let map = pushed_map(start, package, link);
    let middle = with_interfaces(start, package, map);
    let base = start.worlds.len();
    lemma_pushed_map(start, package, link, after);
    if w < base {
        assert(after.worlds[v] == start.worlds[v]);
        assert(after.worlds[w] == start.worlds[w]);
        lemma_old_item(start, package, link, after, v, a, i);
        lemma_old_item(start, package, link, after, w, b, j);
        assert(start.stands_at(id, v, a, i));
        assert(start.stands_at(id, w, b, j));
    } else {
        let (x, p) = lemma_new_unnamed(start, package, link, after, w - base, b, j);
        if v < base {
            assert(after.worlds[v] == start.worlds[v]);
            lemma_old_item(start, package, link, after, v, a, i);
        } else {
            let (y, q) = lemma_new_unnamed(start, package, link, after, v - base, a, i);
            assert(x == y);
            assert(package.stands_at(x, w - base, b, p));
            assert(package.stands_at(x, v - base, a, q));
            let spans = package.world_spans[w - base];
            lemma_new_world(start, package, link, after, w - base);
            assert(can_elaborate(middle, package, map, w - base));
            worlds_list_once(
                map.item_map(),
                middle.types,
                middle.interfaces,
                package.worlds[w - base],
                spans.0,
                spans.1,
            );
            assert(interfaces_once(after.world_items(w, b)));
        }
    }
}

/// In a resolve that a package was pushed into every item can be traced back to its package, if
/// that was so before and every item of the new package can be traced back to it.
pub proof fn pushing_keeps_parents(resolve: ResolveView, package: UnresolvedView, deps: Deps)
    requires
        can_push(resolve, package, deps),
        pushed(resolve, package, deps).0.fits(),
        resolve.valid(),
        resolve.parented(),
        package.parented(),
    ensures
        pushed(resolve, package, deps) matches (after, Ok(_)) ==> after.parented(),
{
    pushing_keeps_valid(resolve, package, deps);
    reveal(can_push);
    reveal(pushed);
    if let Ok(link) = linked(resolve, package, deps) {
        let map = pushed_map(resolve, package, link);
        let middle = with_interfaces(resolve, package, map);
        let (worlds, error) = elaborated_worlds(middle, package, map, package.worlds.len());
        if error.is_none() {
            let after = with_package(resolve, middle, package, map, worlds);
            lemma_linked(resolve, package, deps);
            references_keep_names(resolve, package, deps);
            lemma_elaborated_worlds(middle, package, map, package.worlds.len());
            assert(push_ready(resolve, package, link, after));
            lemma_middle_uses(resolve, package, link);
            lemma_can_elaborate(middle, package, map);
            assert(grown(resolve, package, link, after));
            lemma_grown_packages(resolve, package, link, after);
            lemma_grown_documents(resolve, package, link, after);
            lemma_grown_interfaces(resolve, package, link, after);
            lemma_grown_types(resolve, package, link, after);
            lemma_grown_world_listed(resolve, package, link, after);
            lemma_grown_world_lists(resolve, package, link, after);
            assert forall|id: InterfaceId, v: int, a: bool, i: int, w: int, b: bool, j: int|
                #![trigger after.stands_at(id, v, a, i), after.stands_at(id, w, b, j)]
                after.stands_at(id, v, a, i) && after.stands_at(id, w, b, j) && id
                    < after.interfaces.len() && after.interfaces[id as int].name.is_none() implies v
                == w && a == b && i == j by {
                if v <= w {
                    lemma_apart(resolve, package, link, after, id, v, a, i, w, b, j);
                } else {
                    lemma_apart(resolve, package, link, after, id, w, b, j, v, a, i);
                }
            }
        }
    }
}

/// Pushing a package leads from each item of other packages to the one that it is linked to, and
/// from each item of the package to a new one, in order. A new item belongs to what the item
/// belongs to that it was made from, by the same mapping. A new document belongs to the new
/// package, which lists just the new documents, in order.
pub proof fn pushing_maps_parents(resolve: ResolveView, package: UnresolvedView, deps: Deps)
    requires
        can_push(resolve, package, deps),
        pushed(resolve, package, deps).0.fits(),
    ensures
        pushed(resolve, package, deps) matches (after, Ok(id)) ==> (linked(
            resolve,
            package,
            deps,
        ) matches Ok(link) && {
            let map = pushed_map(resolve, package, link);
            &&& map.types.len() == package.types.len()
            &&& map.interfaces.len() == package.interfaces.len()
            &&& map.worlds.len() == package.worlds.len()
            &&& map.documents.len() == package.documents.len()
            &&& forall|k: int|
                0 <= k < package.types.len() ==> if k < package.foreign_types() {
                    #[trigger] map.types[k] == link.types[k] && map.types[k] < resolve.types.len()
                } else {
                    let new = after.types[map.types[k] as int];
                    &&& map.types[k] == resolve.types.len() + (k - package.foreign_types())
                    &&& new.name == package.types[k].name
                    &&& new.owner == match package.types[k].owner {
                        TypeOwner::Interface(i) => TypeOwner::Interface(map.interfaces[i as int]),
                        TypeOwner::World(w) => TypeOwner::World(map.worlds[w as int]),
                        TypeOwner::Unowned => TypeOwner::Unowned,
                    }
                }
            &&& forall|k: int|
                0 <= k < package.interfaces.len() ==> if k < package.foreign_interfaces() {
                    #[trigger] map.interfaces[k] == link.interfaces[k] && map.interfaces[k]
                        < resolve.interfaces.len()
                } else {
                    let new = after.interfaces[map.interfaces[k] as int];
                    &&& map.interfaces[k] == resolve.interfaces.len() + (k
                        - package.foreign_interfaces())
                    &&& new.name == package.interfaces[k].name
                    &&& new.document == map.documents[package.interfaces[k].document as int]
                }
            &&& forall|k: int|
                0 <= k < package.worlds.len() ==> {
                    let new = after.worlds[#[trigger] map.worlds[k] as int];
                    &&& map.worlds[k] == resolve.worlds.len() + k
                    &&& new.name == package.worlds[k].name
                    &&& new.document == map.documents[package.worlds[k].document as int]
                }
            &&& forall|k: int|
                0 <= k < package.documents.len() ==> if k < package.foreign_documents() {
                    #[trigger] map.documents[k] == link.documents[k] && map.documents[k]
                        < resolve.documents.len()
                } else {
                    let new = after.documents[map.documents[k] as int];
                    &&& map.documents[k] == resolve.documents.len() + (k
                        - package.foreign_documents())
                    &&& new.name == package.documents[k].name
                    &&& new.package == Some(id)
                }
            &&& id == resolve.packages.len()
            &&& after.packages[id as int].documents == package_documents(package, map)
        }),
{
    reveal(can_push);
    reveal(pushed);
    if let Ok(link) = linked(resolve, package, deps) {
        let map = pushed_map(resolve, package, link);
        let middle = with_interfaces(resolve, package, map);
        let (worlds, error) = elaborated_worlds(middle, package, map, package.worlds.len());
        if error.is_none() {
            let after = with_package(resolve, middle, package, map, worlds);
            lemma_linked(resolve, package, deps);
            lemma_elaborated_worlds(middle, package, map, package.worlds.len());
            assert(push_ready(resolve, package, link, after));
            lemma_pushed_map(resolve, package, link, after);
            assert forall|k: int| 0 <= k < package.types.len() implies if k
                < package.foreign_types() {
                #[trigger] map.types[k] == link.types[k] && map.types[k] < resolve.types.len()
            } else {
                let new = after.types[map.types[k] as int];
                &&& map.types[k] == resolve.types.len() + (k - package.foreign_types())
                &&& new.name == package.types[k].name
                &&& new.owner == match package.types[k].owner {
                    TypeOwner::Interface(i) => TypeOwner::Interface(map.interfaces[i as int]),
                    TypeOwner::World(w) => TypeOwner::World(map.worlds[w as int]),
                    TypeOwner::Unowned => TypeOwner::Unowned,
                }
            } by {
                if k >= package.foreign_types() {
                    lemma_new_type(resolve, package, link, after, k);
                }
            }
            assert forall|k: int| 0 <= k < package.worlds.len() implies {
                let new = after.worlds[#[trigger] map.worlds[k] as int];
                &&& map.worlds[k] == resolve.worlds.len() + k
                &&& new.name == package.worlds[k].name
                &&& new.document == map.documents[package.worlds[k].document as int]
            } by {
                assert(map.worlds[k] == resolve.worlds.len() + k);
            }
        }
    }
}

} // verus!
