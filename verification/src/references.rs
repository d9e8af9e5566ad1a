//! What the references of a package to other packages are linked to, by name.
use vstd::prelude::*;

use crate::append::{can_push, pushed};
use crate::descent::{lemma_linked_documents_at, lemma_linked_interfaces_at, lemma_linked_types_at};
use crate::error::ErrorView;
use crate::link::{
    document_linkable, lemma_linked, linkable, linked, linked_document, linked_documents,
    linked_interface, linked_interfaces, linked_type, linked_types, type_linkable, Deps,
};
use crate::names::{distinct, find, lemma_find, lookup};
use crate::package::{lemma_foreign, UnresolvedView};
use crate::parents::lemma_lookup_at;
use crate::remap::RemapView;
use crate::resolve::ResolveView;
use crate::types::{DocumentId, InterfaceId, PackageId, TypeId, TypeOwner};

verus! {

/// The package that goes by the name `dep` lists a document under a name.
pub open spec fn offers(
    resolve: ResolveView,
    deps: Deps,
    dep: Seq<char>,
    name: Seq<char>,
    id: DocumentId,
) -> bool {
    exists|p: PackageId|
        p < resolve.packages.len() && #[trigger] deps.contains((dep, p))
            && resolve.packages[p as int].documents.contains((name, id))
}

/// Each document of another package stands for the one that the package lists under its name.
pub open spec fn documents_named(
    resolve: ResolveView,
    package: UnresolvedView,
    deps: Deps,
    documents: Seq<DocumentId>,
) -> bool {
    &&& documents.len() == package.foreign_documents()
    &&& forall|i: int, j: int, d: int|
        #[trigger] package.names_document(i, j, d) && 0 <= d < documents.len() ==> offers(
            resolve,
            deps,
            package.foreign_deps[i].0,
            package.foreign_deps[i].1[j].0,
            documents[d],
        )
}

/// Each interface of another package stands for the one that its document lists under its name. One
/// without a name stands for the default interface of the document.
pub open spec fn interfaces_named(
    resolve: ResolveView,
    package: UnresolvedView,
    documents: Seq<DocumentId>,
    interfaces: Seq<InterfaceId>,
) -> bool {
    &&& interfaces.len() == package.foreign_interfaces()
    &&& forall|i: int|
        0 <= i < interfaces.len() ==> {
            let doc = resolve.documents[documents[package.interfaces[i].document as int] as int];
            match package.interfaces[i].name {
                Some(name) => doc.interfaces.contains((name, #[trigger] interfaces[i])),
                None => doc.default_interface == Some(interfaces[i]),
            }
        }
}

/// Each type of another package stands for the one that its interface lists under its name.
pub open spec fn types_named(
    resolve: ResolveView,
    package: UnresolvedView,
    interfaces: Seq<InterfaceId>,
    types: Seq<TypeId>,
) -> bool {
    &&& types.len() == package.foreign_types()
    &&& forall|t: int|
        0 <= t < types.len() ==> (package.types[t].owner matches TypeOwner::Interface(owner)
            && package.types[t].name matches Some(name)
            && resolve.interfaces[interfaces[owner as int] as int].types.contains(
            (name, #[trigger] types[t]),
        ))
}

proof fn lemma_place(package: UnresolvedView, i: int, j: int, d: int)
    requires
        package.names_once(),
        package.names_document(i, j, d),
    ensures
        package.place_of(d) == (i, j),
{
    let (k, l) = package.place_of(d);
    assert(package.names_document(k, l, d));
}

/// What is found under a name is listed under it.
pub proof fn lemma_listed<V>(entries: Seq<(Seq<char>, V)>, name: Seq<char>)
    ensures
        lookup(entries, name) matches Some(value) ==> entries.contains((name, value)),
        lookup(entries, name).is_none() ==> forall|value: V|
            !#[trigger] entries.contains((name, value)),
{
    lemma_find(entries, name);
    if let Some(i) = find(entries, name) {
        assert(entries[i] == (name, entries[i].1));
    } else {
        assert forall|value: V| !#[trigger] entries.contains((name, value)) by {
            if entries.contains((name, value)) {
                let i = choose|i: int| 0 <= i < entries.len() && entries[i] == (name, value);
                assert(entries[i].0 == name);
            }
        }
    }
}

/// What is listed under a name is found under it.
pub proof fn lemma_found<V>(entries: Seq<(Seq<char>, V)>, name: Seq<char>, value: V)
    requires
        distinct(entries),
        entries.contains((name, value)),
    ensures
        lookup(entries, name) == Some(value),
{
    let j = choose|j: int| 0 <= j < entries.len() && entries[j] == (name, value);
    lemma_lookup_at(entries, j);
}

/// References are linked to what they name: a document to the one that is listed under its name in
/// the package that was given for it, an interface to the one that is listed under its name in that
/// document, and a type to the one that is listed under its name in that interface. An interface
/// without a name is linked to the default interface of the document, and to no other.
pub proof fn references_lead_to_what_they_name(
    resolve: ResolveView,
    package: UnresolvedView,
    deps: Deps,
)
    requires
        resolve.usable(),
        linkable(resolve, package, deps),
    ensures
        linked(resolve, package, deps) matches Ok(link) ==> {
            &&& documents_named(resolve, package, deps, link.documents)
            &&& interfaces_named(resolve, package, link.documents, link.interfaces)
            &&& types_named(resolve, package, link.interfaces, link.types)
        },
{
    lemma_linked(resolve, package, deps);
    lemma_foreign(package);
    if let Ok(link) = linked(resolve, package, deps) {
        lemma_documents_named(resolve, package, deps);
        lemma_interfaces_named(
            resolve,
            package,
            link.documents,
            package.foreign_interfaces() as nat,
        );
        assert forall|t: int| 0 <= t < link.types.len() implies (
        package.types[t].owner matches TypeOwner::Interface(owner)
            && package.types[t].name matches Some(name)
            && resolve.interfaces[link.interfaces[owner as int] as int].types.contains(
            (name, #[trigger] link.types[t]),
        )) by {
            let n = package.foreign_types() as nat;
            lemma_linked_types_at(resolve, package, link.interfaces, n, t);
            assert(package.type_bare(t));
            let owner = package.types[t].owner->Interface_0;
            lemma_listed(
                resolve.interfaces[link.interfaces[owner as int] as int].types,
                package.types[t].name.unwrap(),
            );
        }
    }
}

proof fn lemma_documents_linked(
    resolve: ResolveView,
    package: UnresolvedView,
    deps: Deps,
    documents: Seq<DocumentId>,
    n: nat,
)
    requires
        resolve.usable(),
        package.names_once(),
        distinct(deps),
        documents_named(resolve, package, deps, documents),
        n <= documents.len(),
    ensures
        linked_documents(resolve, package, deps, n) == Ok::<Seq<DocumentId>, ErrorView>(
            documents.take(n as int),
        ),
    decreases n,
{
    if n > 0 {
        let d = n - 1;
        lemma_documents_linked(resolve, package, deps, documents, d as nat);
        lemma_foreign(package);
        assert(package.is_foreign(d));
        let (i, j) = package.place_of(d);
        assert(package.names_document(i, j, d));
        let (dep, name) = (package.foreign_deps[i].0, package.foreign_deps[i].1[j].0);
        assert(offers(resolve, deps, dep, name, documents[d]));
        let p = choose|p: PackageId|
            p < resolve.packages.len() && #[trigger] deps.contains((dep, p))
                && resolve.packages[p as int].documents.contains((name, documents[d]));
        lemma_found(deps, dep, p);
        assert(resolve.package_valid(p as int));
        lemma_found(resolve.packages[p as int].documents, name, documents[d]);
        assert(documents.take(n as int) =~= documents.take(d).push(documents[d]));
    } else {
        assert(documents.take(0) =~= Seq::empty());
    }
}

proof fn lemma_interfaces_linked(
    resolve: ResolveView,
    package: UnresolvedView,
    documents: Seq<DocumentId>,
    interfaces: Seq<InterfaceId>,
    n: nat,
)
    requires
        resolve.usable(),
        documents.len() == package.foreign_documents(),
        forall|d: int| 0 <= d < documents.len() ==> #[trigger] documents[d] < resolve.documents.len(),
        interfaces_named(resolve, package, documents, interfaces),
        n <= interfaces.len(),
    ensures
        linked_interfaces(resolve, package, documents, n) == Ok::<Seq<InterfaceId>, ErrorView>(
            interfaces.take(n as int),
        ),
    decreases n,
{
    if n > 0 {
        let i = n - 1;
        lemma_interfaces_linked(resolve, package, documents, interfaces, i as nat);
        lemma_foreign(package);
        let d = documents[package.interfaces[i].document as int];
        assert(resolve.document_valid(d as int));
        assert(interfaces[i] == interfaces[i]);
        if let Some(name) = package.interfaces[i].name {
            lemma_found(resolve.documents[d as int].interfaces, name, interfaces[i]);
        }
        assert(interfaces.take(n as int) =~= interfaces.take(i).push(interfaces[i]));
    } else {
        assert(interfaces.take(0) =~= Seq::empty());
    }
}

proof fn lemma_types_linked(
    resolve: ResolveView,
    package: UnresolvedView,
    interfaces: Seq<InterfaceId>,
    types: Seq<TypeId>,
    n: nat,
)
    requires
        resolve.usable(),
        interfaces.len() == package.foreign_interfaces(),
        forall|i: int|
            0 <= i < interfaces.len() ==> #[trigger] interfaces[i] < resolve.interfaces.len(),
        forall|t: int| 0 <= t < types.len() ==> #[trigger] package.type_bare(t),
        types_named(resolve, package, interfaces, types),
        n <= types.len(),
    ensures
        linked_types(resolve, package, interfaces, n) == Ok::<Seq<TypeId>, ErrorView>(
            types.take(n as int),
        ),
    decreases n,
{
    if n > 0 {
        let t = n - 1;
        lemma_types_linked(resolve, package, interfaces, types, t as nat);
        assert(package.type_bare(t));
        assert(types[t] == types[t]);
        let owner = package.types[t].owner->Interface_0;
        let i = interfaces[owner as int];
        assert(resolve.interface_usable(i as int));
        lemma_found(
            resolve.interfaces[i as int].types,
            package.types[t].name.unwrap(),
            types[t],
        );
        assert(types.take(n as int) =~= types.take(t).push(types[t]));
    } else {
        assert(types.take(0) =~= Seq::empty());
    }
}

/// If every reference names something then all of them are linked, and to nothing else: there is
/// one way only to give each of them what it names.
pub proof fn references_that_name_something_are_linked(
    resolve: ResolveView,
    package: UnresolvedView,
    deps: Deps,
    documents: Seq<DocumentId>,
    interfaces: Seq<InterfaceId>,
    types: Seq<TypeId>,
)
    requires
        resolve.usable(),
        package.foreign_valid(),
        distinct(deps),
        documents_named(resolve, package, deps, documents),
        interfaces_named(resolve, package, documents, interfaces),
        types_named(resolve, package, interfaces, types),
    ensures
        linked(resolve, package, deps) == Ok::<RemapView, ErrorView>(
            RemapView {
                types,
                interfaces,
                worlds: Seq::empty(),
                documents,
                packages: Seq::empty(),
            },
        ),
{
    lemma_foreign(package);
    assert forall|d: int| 0 <= d < documents.len() implies #[trigger] documents[d]
        < resolve.documents.len() by {
        assert(package.is_foreign(d));
        let (i, j) = package.place_of(d);
        assert(package.names_document(i, j, d));
        let (dep, name) = (package.foreign_deps[i].0, package.foreign_deps[i].1[j].0);
        assert(offers(resolve, deps, dep, name, documents[d]));
        let p = choose|p: PackageId|
            p < resolve.packages.len() && #[trigger] deps.contains((dep, p))
                && resolve.packages[p as int].documents.contains((name, documents[d]));
        assert(resolve.package_valid(p as int));
        let listed = resolve.packages[p as int].documents;
        let k = choose|k: int| 0 <= k < listed.len() && listed[k] == (name, documents[d]);
        assert(listed[k].1 < resolve.documents.len());
    }
    lemma_documents_linked(resolve, package, deps, documents, documents.len());
    assert(documents.take(documents.len() as int) =~= documents);
    assert forall|i: int| 0 <= i < interfaces.len() implies #[trigger] interfaces[i]
        < resolve.interfaces.len() by {
        let d = documents[package.interfaces[i].document as int];
        assert(resolve.document_valid(d as int));
        if let Some(name) = package.interfaces[i].name {
            let listed = resolve.documents[d as int].interfaces;
            let k = choose|k: int| 0 <= k < listed.len() && listed[k] == (name, interfaces[i]);
            assert(listed[k].1 < resolve.interfaces.len());
        }
    }
    lemma_interfaces_linked(resolve, package, documents, interfaces, interfaces.len());
    assert(interfaces.take(interfaces.len() as int) =~= interfaces);
    lemma_types_linked(resolve, package, interfaces, types, types.len());
    assert(types.take(types.len() as int) =~= types);
}

/// Nothing is listed under a name.
pub open spec fn lacks<V>(entries: Seq<(Seq<char>, V)>, name: Seq<char>) -> bool {
    forall|k: int| 0 <= k < entries.len() ==> (#[trigger] entries[k]).0 != name
}

/// A document of another package stands for nothing, the ones before it for something, and this is
/// what is wrong with it.
pub open spec fn document_missed(
    resolve: ResolveView,
    package: UnresolvedView,
    deps: Deps,
    i: int,
    j: int,
    d: int,
    error: ErrorView,
) -> bool {
    let (dep, name) = (package.foreign_deps[i].0, package.foreign_deps[i].1[j].0);
    &&& package.names_document(i, j, d)
    &&& 0 <= d < package.foreign_documents()
    &&& error.context.len() == 0
    &&& forall|k: int, l: int, e: int|
        #[trigger] package.names_document(k, l, e) && 0 <= e < d ==> exists|id: DocumentId|
            offers(
                resolve,
                deps,
                package.foreign_deps[k].0,
                package.foreign_deps[k].1[l].0,
                id,
            )
    &&& if lacks(deps, dep) {
        &&& error.span == Some(package.foreign_dep_spans[i])
        &&& error.msg == "no package dependency specified for `"@ + dep + "`"@
    } else {
        &&& forall|id: DocumentId| !offers(resolve, deps, dep, name, id)
        &&& error.span == Some(package.document_spans[d])
        &&& error.msg == "package `"@ + dep + "` does not define document `"@ + name + "`"@
    }
}

/// An interface of another package stands for nothing, and this is what is wrong with it.
pub open spec fn interface_missed(
    resolve: ResolveView,
    package: UnresolvedView,
    documents: Seq<DocumentId>,
    i: int,
    error: ErrorView,
) -> bool {
    let doc = resolve.documents[documents[package.interfaces[i].document as int] as int];
    &&& 0 <= i < package.foreign_interfaces()
    &&& error.context.len() == 0
    &&& error.span == Some(package.interface_spans[i])
    &&& match package.interfaces[i].name {
        Some(name) => lacks(doc.interfaces, name) && error.msg
            == "interface not defined in document"@,
        None => doc.default_interface.is_none() && error.msg
            == "default interface not specified in document"@,
    }
}

/// A type of another package stands for nothing, and this is what is wrong with it.
pub open spec fn type_missed(
    resolve: ResolveView,
    package: UnresolvedView,
    interfaces: Seq<InterfaceId>,
    t: int,
    error: ErrorView,
) -> bool {
    &&& 0 <= t < package.foreign_types()
    &&& error.context.len() == 0
    &&& error.span == Some(package.unknown_type_spans[t])
    &&& error.msg == "type not defined in interface"@
    &&& package.types[t].owner matches TypeOwner::Interface(owner)
        && package.types[t].name matches Some(name) && lacks(
        resolve.interfaces[interfaces[owner as int] as int].types,
        name,
    )
}

/// Where linking stops: the references before position `d` stand for something.
proof fn lemma_first_document(
    resolve: ResolveView,
    package: UnresolvedView,
    deps: Deps,
    n: nat,
) -> (d: int)
    requires
        linked_documents(resolve, package, deps, n).is_err(),
    ensures
        0 <= d < n,
        linked_documents(resolve, package, deps, d as nat).is_ok(),
        linked_document(resolve, package, deps, d) == Err::<DocumentId, ErrorView>(
            linked_documents(resolve, package, deps, n)->Err_0,
        ),
    decreases n,
{
    if linked_documents(resolve, package, deps, (n - 1) as nat).is_err() {
        lemma_first_document(resolve, package, deps, (n - 1) as nat)
    } else {
        n - 1
    }
}

proof fn lemma_first_interface(
    resolve: ResolveView,
    package: UnresolvedView,
    documents: Seq<DocumentId>,
    n: nat,
) -> (i: int)
    requires
        linked_interfaces(resolve, package, documents, n).is_err(),
    ensures
        0 <= i < n,
        linked_interface(resolve, package, documents, i) == Err::<InterfaceId, ErrorView>(
            linked_interfaces(resolve, package, documents, n)->Err_0,
        ),
    decreases n,
{
    if linked_interfaces(resolve, package, documents, (n - 1) as nat).is_err() {
        lemma_first_interface(resolve, package, documents, (n - 1) as nat)
    } else {
        n - 1
    }
}

proof fn lemma_first_type(
    resolve: ResolveView,
    package: UnresolvedView,
    interfaces: Seq<InterfaceId>,
    n: nat,
) -> (t: int)
    requires
        linked_types(resolve, package, interfaces, n).is_err(),
    ensures
        0 <= t < n,
        linked_types(resolve, package, interfaces, t as nat).is_ok(),
        linked_type(resolve, package, interfaces, t) == Err::<TypeId, ErrorView>(
            linked_types(resolve, package, interfaces, n)->Err_0,
        ),
    decreases n,
{
    if linked_types(resolve, package, interfaces, (n - 1) as nat).is_err() {
        lemma_first_type(resolve, package, interfaces, (n - 1) as nat)
    } else {
        n - 1
    }
}

pub proof fn lemma_lacks<V>(entries: Seq<(Seq<char>, V)>, name: Seq<char>)
    ensures
        lookup(entries, name).is_none() <==> lacks(entries, name),
{
    lemma_find(entries, name);
    if let Some(i) = find(entries, name) {
        assert(entries[i].0 == name);
    }
}

proof fn lemma_document_missed(
    resolve: ResolveView,
    package: UnresolvedView,
    deps: Deps,
) -> (place: (int, int, int))
    requires
        resolve.usable(),
        distinct(deps),
        linkable(resolve, package, deps),
        linked_documents(resolve, package, deps, package.foreign_documents() as nat).is_err(),
    ensures
        document_missed(
            resolve,
            package,
            deps,
            place.0,
            place.1,
            place.2,
            linked(resolve, package, deps)->Err_0,
        ),
{
    lemma_foreign(package);
    let d = lemma_first_document(resolve, package, deps, package.foreign_documents() as nat);
    assert(package.is_foreign(d));
    let (i, j) = package.place_of(d);
    assert(package.names_document(i, j, d));
    assert(document_linkable(resolve, package, deps, d));
    let (dep, name) = (package.foreign_deps[i].0, package.foreign_deps[i].1[j].0);
    lemma_lacks(deps, dep);
    if let Some(p) = lookup(deps, dep) {
        let listed = resolve.packages[p as int].documents;
        lemma_lacks(listed, name);
        assert forall|id: DocumentId| !offers(resolve, deps, dep, name, id) by {
            if offers(resolve, deps, dep, name, id) {
                let q = choose|q: PackageId|
                    q < resolve.packages.len() && #[trigger] deps.contains((dep, q))
                        && resolve.packages[q as int].documents.contains((name, id));
                lemma_found(deps, dep, q);
                let k = choose|k: int| 0 <= k < listed.len() && listed[k] == (name, id);
                assert(listed[k].0 == name);
            }
        }
    }
    assert forall|k: int, l: int, e: int|
        #[trigger] package.names_document(k, l, e) && 0 <= e < d implies exists|id: DocumentId|
        offers(resolve, deps, package.foreign_deps[k].0, package.foreign_deps[k].1[l].0, id) by {
        lemma_place(package, k, l, e);
        lemma_linked_documents_at(resolve, package, deps, d as nat, e);
        let (dep, name) = (package.foreign_deps[k].0, package.foreign_deps[k].1[l].0);
        assert(linked_documents(resolve, package, deps, e as nat).is_ok()) by {
            lemma_documents_ok_before(resolve, package, deps, e as nat, d as nat);
        }
        assert(document_linkable(resolve, package, deps, e));
        let p = lookup(deps, dep).unwrap();
        lemma_listed(deps, dep);
        lemma_listed(resolve.packages[p as int].documents, name);
        assert(deps.contains((dep, p)));
        let id = lookup(resolve.packages[p as int].documents, name).unwrap();
        assert(offers(resolve, deps, dep, name, id));
    }
    (i, j, d)
}

proof fn lemma_documents_ok_before(
    resolve: ResolveView,
    package: UnresolvedView,
    deps: Deps,
    m: nat,
    n: nat,
)
    requires
        m <= n,
        linked_documents(resolve, package, deps, n).is_ok(),
    ensures
        linked_documents(resolve, package, deps, m).is_ok(),
    decreases n - m,
{
    if m < n {
        lemma_documents_ok_before(resolve, package, deps, m, (n - 1) as nat);
    }
}

/// A package whose references are not all linked has one that stands for nothing, and the error is
/// about that one. Documents come first, then interfaces, then types: an interface is missed only
/// if every document stands for something, and a type only if every interface does as well. Nothing
/// of such a package gets into the resolve.
pub proof fn references_that_name_nothing_are_errors(
    resolve: ResolveView,
    package: UnresolvedView,
    deps: Deps,
)
    requires
        can_push(resolve, package, deps),
        distinct(deps),
    ensures
        linked(resolve, package, deps) matches Err(error) ==> {
            &&& pushed(resolve, package, deps) == (resolve, Err::<PackageId, ErrorView>(error))
            &&& {
                ||| exists|i: int, j: int, d: int|
                    #[trigger] document_missed(resolve, package, deps, i, j, d, error)
                ||| exists|documents: Seq<DocumentId>, i: int|
                    documents_named(resolve, package, deps, documents)
                        && #[trigger] interface_missed(resolve, package, documents, i, error)
                ||| exists|documents: Seq<DocumentId>, interfaces: Seq<InterfaceId>, t: int|
                    #![trigger interfaces_named(resolve, package, documents, interfaces), type_missed(resolve, package, interfaces, t, error)]
                    documents_named(resolve, package, deps, documents) && interfaces_named(
                        resolve,
                        package,
                        documents,
                        interfaces,
                    ) && type_missed(resolve, package, interfaces, t, error)
            }
        },
{
    reveal(can_push);
    reveal(pushed);
    lemma_foreign(package);
    if let Err(error) = linked(resolve, package, deps) {
        match linked_documents(resolve, package, deps, package.foreign_documents() as nat) {
            Err(_) => {
                let (i, j, d) = lemma_document_missed(resolve, package, deps);
                assert(document_missed(resolve, package, deps, i, j, d, error));
            },
            Ok(documents) => {
                lemma_documents_named(resolve, package, deps);
                let n = package.foreign_interfaces() as nat;
                match linked_interfaces(resolve, package, documents, n) {
                    Err(_) => {
                        let i = lemma_first_interface(resolve, package, documents, n);
                        let d = documents[package.interfaces[i].document as int];
                        if let Some(name) = package.interfaces[i].name {
                            lemma_lacks(resolve.documents[d as int].interfaces, name);
                        }
                        assert(interface_missed(resolve, package, documents, i, error));
                    },
                    Ok(interfaces) => {
                        lemma_interfaces_named(resolve, package, documents, n);
                        let k = package.foreign_types() as nat;
                        let t = lemma_first_type(resolve, package, interfaces, k);
                        assert(type_linkable(package, t));
                        let owner = package.types[t].owner->Interface_0;
                        let name = package.types[t].name.unwrap();
                        let iface = resolve.interfaces[interfaces[owner as int] as int];
                        lemma_lacks(iface.types, name);
                        assert(interfaces_named(resolve, package, documents, interfaces));
                        assert(type_missed(resolve, package, interfaces, t, error));
                    },
                }
            },
        }
    }
}

proof fn lemma_documents_named(resolve: ResolveView, package: UnresolvedView, deps: Deps)
    requires
        resolve.usable(),
        linkable(resolve, package, deps),
    ensures
        linked_documents(
            resolve,
            package,
            deps,
            package.foreign_documents() as nat,
        ) matches Ok(documents) ==> documents_named(resolve, package, deps, documents),
{
    lemma_foreign(package);
    let n = package.foreign_documents() as nat;
    if let Ok(documents) = linked_documents(resolve, package, deps, n) {
        lemma_linked_documents_at(resolve, package, deps, n, 0);
        assert forall|i: int, j: int, d: int|
            #[trigger] package.names_document(i, j, d) && 0 <= d < documents.len() implies offers(
            resolve,
            deps,
            package.foreign_deps[i].0,
            package.foreign_deps[i].1[j].0,
            documents[d],
        ) by {
            let (dep, name) = (package.foreign_deps[i].0, package.foreign_deps[i].1[j].0);
            lemma_place(package, i, j, d);
            lemma_linked_documents_at(resolve, package, deps, n, d);
            lemma_documents_ok_before(resolve, package, deps, d as nat, n);
            assert(document_linkable(resolve, package, deps, d));
            let p = lookup(deps, dep).unwrap();
            lemma_listed(deps, dep);
            lemma_listed(resolve.packages[p as int].documents, name);
            assert(deps.contains((dep, p)));
        }
    }
}

proof fn lemma_interfaces_named(
    resolve: ResolveView,
    package: UnresolvedView,
    documents: Seq<DocumentId>,
    n: nat,
)
    requires
        n == package.foreign_interfaces(),
    ensures
        linked_interfaces(resolve, package, documents, n) matches Ok(interfaces)
            ==> interfaces_named(resolve, package, documents, interfaces),
{
    if let Ok(interfaces) = linked_interfaces(resolve, package, documents, n) {
        lemma_linked_interfaces_at(resolve, package, documents, n, 0);
        assert forall|i: int| 0 <= i < interfaces.len() implies {
            let doc = resolve.documents[documents[package.interfaces[i].document as int] as int];
            match package.interfaces[i].name {
                Some(name) => doc.interfaces.contains((name, #[trigger] interfaces[i])),
                None => doc.default_interface == Some(interfaces[i]),
            }
        } by {
            lemma_linked_interfaces_at(resolve, package, documents, n, i);
            if let Some(name) = package.interfaces[i].name {
                let doc =
                    resolve.documents[documents[package.interfaces[i].document as int] as int];
                lemma_listed(doc.interfaces, name);
            }
        }
    }
}

} // verus!
