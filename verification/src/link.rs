//! Linking of a package: which documents, interfaces and types of other packages its references
//! stand for.
use indexmap::IndexMap;
use std::collections::HashMap;
use vstd::pervasive::{runtime_assert, unreached};
use vstd::prelude::*;
use vstd::string::*;

use crate::arena;
use crate::elaborate::below;
use crate::error::{failure_at, sentence, Error, ErrorView};
use crate::names::{self, lemma_find, lookup, Entries};
use crate::package::{lemma_foreign, UnresolvedPackage, UnresolvedView};
use crate::remap::{Remap, RemapView};
use crate::resolve::{Resolve, ResolveView};
use crate::types::{DocumentId, InterfaceId, KindView, PackageId, TypeDefKind, TypeId, TypeOwner};

verus! {

/// The packages that a package depends on, by name.
pub type Deps = Seq<(Seq<char>, PackageId)>;

/// The document that a document of another package stands for.
pub open spec fn linked_document(
    resolve: ResolveView,
    package: UnresolvedView,
    deps: Deps,
    doc: int,
) -> Result<DocumentId, ErrorView> {
    let (i, j) = package.place_of(doc);
    let (dep, documents) = package.foreign_deps[i];
    let name = documents[j].0;
    match lookup(deps, dep) {
        None => Err(
            failure_at(
                package.foreign_dep_spans[i],
                "no package dependency specified for `"@ + dep + "`"@,
            ),
        ),
        Some(id) => match lookup(resolve.packages[id as int].documents, name) {
            None => Err(
                failure_at(
                    package.document_spans[doc],
                    "package `"@ + dep + "` does not define document `"@ + name + "`"@,
                ),
            ),
            Some(id) => Ok(id),
        },
    }
}

/// The interface that an interface of another package stands for: the one with its name in its
/// document, or the default one.
pub open spec fn linked_interface(
    resolve: ResolveView,
    package: UnresolvedView,
    documents: Seq<DocumentId>,
    i: int,
) -> Result<InterfaceId, ErrorView> {
    let iface = package.interfaces[i];
    let doc = resolve.documents[documents[iface.document as int] as int];
    match iface.name {
        Some(name) => match lookup(doc.interfaces, name) {
            None => Err(
                failure_at(package.interface_spans[i], "interface not defined in document"@),
            ),
            Some(id) => Ok(id),
        },
        None => match doc.default_interface {
            None => Err(
                failure_at(
                    package.interface_spans[i],
                    "default interface not specified in document"@,
                ),
            ),
            Some(id) => Ok(id),
        },
    }
}

/// The type that a type of another package stands for: the one with its name in its interface.
pub open spec fn linked_type(
    resolve: ResolveView,
    package: UnresolvedView,
    interfaces: Seq<InterfaceId>,
    i: int,
) -> Result<TypeId, ErrorView> {
    let ty = package.types[i];
    let iface = resolve.interfaces[interfaces[ty.owner->Interface_0 as int] as int];
    match lookup(iface.types, ty.name.unwrap()) {
        None => Err(
            failure_at(package.unknown_type_spans[i], "type not defined in interface"@),
        ),
        Some(id) => Ok(id),
    }
}

/// What the first `n` documents stand for, or what is wrong with the first that stands for none.
pub open spec fn linked_documents(
    resolve: ResolveView,
    package: UnresolvedView,
    deps: Deps,
    n: nat,
) -> Result<Seq<DocumentId>, ErrorView>
    decreases n,
{
    if n == 0 {
        Ok(Seq::empty())
    } else {
        match linked_documents(resolve, package, deps, (n - 1) as nat) {
            Err(error) => Err(error),
            Ok(ids) => match linked_document(resolve, package, deps, n - 1) {
                Err(error) => Err(error),
                Ok(id) => Ok(ids.push(id)),
            },
        }
    }
}

/// What the first `n` interfaces stand for, or what is wrong with the first that stands for none.
pub open spec fn linked_interfaces(
    resolve: ResolveView,
    package: UnresolvedView,
    documents: Seq<DocumentId>,
    n: nat,
) -> Result<Seq<InterfaceId>, ErrorView>
    decreases n,
{
    if n == 0 {
        Ok(Seq::empty())
    } else {
        match linked_interfaces(resolve, package, documents, (n - 1) as nat) {
            Err(error) => Err(error),
            Ok(ids) => match linked_interface(resolve, package, documents, n - 1) {
                Err(error) => Err(error),
                Ok(id) => Ok(ids.push(id)),
            },
        }
    }
}

/// What the first `n` types stand for, or what is wrong with the first that stands for none.
pub open spec fn linked_types(
    resolve: ResolveView,
    package: UnresolvedView,
    interfaces: Seq<InterfaceId>,
    n: nat,
) -> Result<Seq<TypeId>, ErrorView>
    decreases n,
{
    if n == 0 {
        Ok(Seq::empty())
    } else {
        match linked_types(resolve, package, interfaces, (n - 1) as nat) {
            Err(error) => Err(error),
            Ok(ids) => match linked_type(resolve, package, interfaces, n - 1) {
                Err(error) => Err(error),
                Ok(id) => Ok(ids.push(id)),
            },
        }
    }
}

/// What everything of other packages stands for. Documents are linked first, then interfaces,
/// then types, and the first reference that stands for nothing is what is wrong.
pub open spec fn linked(
    resolve: ResolveView,
    package: UnresolvedView,
    deps: Deps,
) -> Result<RemapView, ErrorView> {
    match linked_documents(resolve, package, deps, package.foreign_documents() as nat) {
        Err(error) => Err(error),
        Ok(documents) => match linked_interfaces(
            resolve,
            package,
            documents,
            package.foreign_interfaces() as nat,
        ) {
            Err(error) => Err(error),
            Ok(interfaces) => match linked_types(
                resolve,
                package,
                interfaces,
                package.foreign_types() as nat,
            ) {
                Err(error) => Err(error),
                Ok(types) => Ok(
                    RemapView {
                        types,
                        interfaces,
                        worlds: Seq::empty(),
                        documents,
                        packages: Seq::empty(),
                    },
                ),
            },
        },
    }
}

proof fn lemma_linked_documents_stops(
    resolve: ResolveView,
    package: UnresolvedView,
    deps: Deps,
    m: nat,
    n: nat,
)
    requires
        m <= n,
    ensures
        linked_documents(resolve, package, deps, m) matches Err(error) ==> linked_documents(
            resolve,
            package,
            deps,
            n,
        ) == Err::<Seq<DocumentId>, ErrorView>(error),
    decreases n - m,
{
    if m < n {
        lemma_linked_documents_stops(resolve, package, deps, m, (n - 1) as nat);
    }
}

proof fn lemma_linked_interfaces_stops(
    resolve: ResolveView,
    package: UnresolvedView,
    documents: Seq<DocumentId>,
    m: nat,
    n: nat,
)
    requires
        m <= n,
    ensures
        linked_interfaces(resolve, package, documents, m) matches Err(error)
            ==> linked_interfaces(resolve, package, documents, n) == Err::<
            Seq<InterfaceId>,
            ErrorView,
        >(error),
    decreases n - m,
{
    if m < n {
        lemma_linked_interfaces_stops(resolve, package, documents, m, (n - 1) as nat);
    }
}

proof fn lemma_linked_types_stops(
    resolve: ResolveView,
    package: UnresolvedView,
    interfaces: Seq<InterfaceId>,
    m: nat,
    n: nat,
)
    requires
        m <= n,
    ensures
        linked_types(resolve, package, interfaces, m) matches Err(error) ==> linked_types(
            resolve,
            package,
            interfaces,
            n,
        ) == Err::<Seq<TypeId>, ErrorView>(error),
    decreases n - m,
{
    if m < n {
        lemma_linked_types_stops(resolve, package, interfaces, m, (n - 1) as nat);
    }
}

/// References are linked to items that are there, if each of them can be linked.
pub proof fn lemma_linked(resolve: ResolveView, package: UnresolvedView, deps: Deps)
    requires
        resolve.usable(),
        linkable(resolve, package, deps),
    ensures
        linked(resolve, package, deps) matches Ok(map) ==> {
            &&& map.documents.len() == package.foreign_documents()
            &&& map.interfaces.len() == package.foreign_interfaces()
            &&& map.types.len() == package.foreign_types()
            &&& below(map.documents, resolve.documents.len())
            &&& below(map.interfaces, resolve.interfaces.len())
            &&& below(map.types, resolve.types.len())
            &&& package.foreign_valid()
            &&& forall|doc: int|
                0 <= doc < package.foreign_documents() ==> #[trigger] document_linkable(
                    resolve,
                    package,
                    deps,
                    doc,
                )
        },
{
    lemma_foreign(package);
    if let Ok(map) = linked(resolve, package, deps) {
        lemma_linked_documents(resolve, package, deps, package.foreign_documents() as nat);
        lemma_linked_interfaces(
            resolve,
            package,
            map.documents,
            package.foreign_interfaces() as nat,
        );
        lemma_linked_types(resolve, package, map.interfaces, package.foreign_types() as nat);
        assert forall|doc: int| 0 <= doc < package.foreign_documents() implies
            #[trigger] document_linkable(resolve, package, deps, doc) by {
            lemma_linked_documents_stops(
                resolve,
                package,
                deps,
                doc as nat,
                package.foreign_documents() as nat,
            );
        }
        assert forall|i: int| 0 <= i < package.foreign_interfaces() implies
            #[trigger] package.interface_bare(i) by {
            lemma_linked_interfaces_stops(
                resolve,
                package,
                map.documents,
                i as nat,
                package.foreign_interfaces() as nat,
            );
            assert(interface_linkable(package, i));
        }
        assert forall|i: int| 0 <= i < package.foreign_types() implies
            #[trigger] package.type_bare(i) by {
            lemma_linked_types_stops(
                resolve,
                package,
                map.interfaces,
                i as nat,
                package.foreign_types() as nat,
            );
            assert(type_linkable(package, i));
        }
    }
}

proof fn lemma_linked_documents(
    resolve: ResolveView,
    package: UnresolvedView,
    deps: Deps,
    n: nat,
)
    requires
        resolve.usable(),
        documents_linkable(resolve, package, deps),
        n <= package.foreign_documents(),
    ensures
        linked_documents(resolve, package, deps, n) matches Ok(ids) ==> ids.len() == n && below(
            ids,
            resolve.documents.len(),
        ),
    decreases n,
{
    if n > 0 {
        lemma_linked_documents(resolve, package, deps, (n - 1) as nat);
        let (i, j) = package.place_of(n - 1);
        if let (Ok(_), Some(id)) = (
            linked_documents(resolve, package, deps, (n - 1) as nat),
            lookup(deps, package.foreign_deps[i].0),
        ) {
            assert(document_linkable(resolve, package, deps, n - 1));
            assert(resolve.package_valid(id as int));
            lemma_find(
                resolve.packages[id as int].documents,
                package.foreign_deps[i].1[j].0,
            );
        }
    }
}

proof fn lemma_linked_interfaces(
    resolve: ResolveView,
    package: UnresolvedView,
    documents: Seq<DocumentId>,
    n: nat,
)
    requires
        resolve.usable(),
        documents.len() == package.foreign_documents(),
        below(documents, resolve.documents.len()),
        n <= package.foreign_interfaces(),
    ensures
        linked_interfaces(resolve, package, documents, n) matches Ok(ids) ==> ids.len() == n
            && below(ids, resolve.interfaces.len()),
    decreases n,
{
    if n > 0 {
        lemma_linked_interfaces(resolve, package, documents, (n - 1) as nat);
        let iface = package.interfaces[n - 1];
        lemma_foreign(package);
        assert(iface.document < package.foreign_documents());
        let d = documents[iface.document as int];
        assert(resolve.document_valid(d as int));
        if let Some(name) = iface.name {
            lemma_find(resolve.documents[d as int].interfaces, name);
        }
    }
}

proof fn lemma_linked_types(
    resolve: ResolveView,
    package: UnresolvedView,
    interfaces: Seq<InterfaceId>,
    n: nat,
)
    requires
        resolve.usable(),
        types_linkable(resolve, package, interfaces),
        interfaces.len() == package.foreign_interfaces(),
        below(interfaces, resolve.interfaces.len()),
        n <= package.foreign_types(),
    ensures
        linked_types(resolve, package, interfaces, n) matches Ok(ids) ==> ids.len() == n && below(
            ids,
            resolve.types.len(),
        ),
    decreases n,
{
    if n > 0 {
        lemma_linked_types(resolve, package, interfaces, (n - 1) as nat);
        if linked_types(resolve, package, interfaces, (n - 1) as nat).is_ok() {
            let ty = package.types[n - 1];
            assert(type_linkable(package, n - 1));
            let i = interfaces[ty.owner->Interface_0 as int];
            assert(resolve.interface_usable(i as int));
            lemma_find(resolve.interfaces[i as int].types, ty.name.unwrap());
        }
    }
}

/// If a document is looked for, then in a package that is there, and if that package does not have
/// it then there is a span to say so.
pub open spec fn document_linkable(
    resolve: ResolveView,
    package: UnresolvedView,
    deps: Deps,
    doc: int,
) -> bool {
    let (i, j) = package.place_of(doc);
    lookup(deps, package.foreign_deps[i].0) matches Some(id) ==> {
        &&& id < resolve.packages.len()
        &&& lookup(
            resolve.packages[id as int].documents,
            package.foreign_deps[i].1[j].0,
        ).is_none() ==> doc < package.document_spans.len()
    }
}

/// Documents can be linked up to the first one that stands for nothing.
pub open spec fn documents_linkable(
    resolve: ResolveView,
    package: UnresolvedView,
    deps: Deps,
) -> bool {
    forall|doc: int|
        0 <= doc < package.foreign_documents() && linked_documents(
            resolve,
            package,
            deps,
            doc as nat,
        ).is_ok() ==> #[trigger] document_linkable(resolve, package, deps, doc)
}

/// An interface of another package holds no functions and has a span.
pub open spec fn interface_linkable(package: UnresolvedView, i: int) -> bool {
    &&& package.interface_bare(i)
    &&& i < package.interface_spans.len()
}

/// Interfaces can be linked up to the first one that stands for nothing.
pub open spec fn interfaces_linkable(
    resolve: ResolveView,
    package: UnresolvedView,
    documents: Seq<DocumentId>,
) -> bool {
    forall|i: int|
        0 <= i < package.foreign_interfaces() && linked_interfaces(
            resolve,
            package,
            documents,
            i as nat,
        ).is_ok() ==> #[trigger] interface_linkable(package, i)
}

/// A type of another package has a name, an interface and a span.
pub open spec fn type_linkable(package: UnresolvedView, i: int) -> bool {
    &&& package.type_bare(i)
    &&& i < package.unknown_type_spans.len()
}

/// Types can be linked up to the first one that stands for nothing.
pub open spec fn types_linkable(
    resolve: ResolveView,
    package: UnresolvedView,
    interfaces: Seq<InterfaceId>,
) -> bool {
    forall|i: int|
        0 <= i < package.foreign_types() && linked_types(
            resolve,
            package,
            interfaces,
            i as nat,
        ).is_ok() ==> #[trigger] type_linkable(package, i)
}

/// The references of a package can be linked: what linking reads, up to the first reference that
/// stands for nothing, is there and in order.
pub open spec fn linkable(resolve: ResolveView, package: UnresolvedView, deps: Deps) -> bool {
    &&& package.names_once()
    &&& documents_linkable(resolve, package, deps)
    &&& linked_documents(
        resolve,
        package,
        deps,
        package.foreign_documents() as nat,
    ) matches Ok(documents) ==> {
        &&& package.splits_documents()
        &&& interfaces_linkable(resolve, package, documents)
        &&& linked_interfaces(
            resolve,
            package,
            documents,
            package.foreign_interfaces() as nat,
        ) matches Ok(interfaces) ==> {
            &&& package.splits_interfaces()
            &&& types_linkable(resolve, package, interfaces)
            &&& linked_types(
                resolve,
                package,
                interfaces,
                package.foreign_types() as nat,
            ).is_ok() ==> package.splits_types()
        }
    }
}

/// Records where each document of another package is named.
fn places(package: &UnresolvedPackage) -> (places: HashMap<DocumentId, (usize, usize)>)
    requires
        package@.names_once(),
    ensures
        forall|d: DocumentId| #[trigger]
            places@.contains_key(d) <==> package@.is_foreign(d as int),
        forall|d: DocumentId| #[trigger]
            places@.contains_key(d) ==> {
                &&& package@.names_document(places@[d].0 as int, places@[d].1 as int, d as int)
                &&& package@.place_of(d as int) == (places@[d].0 as int, places@[d].1 as int)
            },
{
    broadcast use vstd::std_specs::hash::group_hash_axioms;

    let mut places: HashMap<DocumentId, (usize, usize)> = HashMap::new();
    let ghost view = package@;
    let n: usize = names::len(&package.foreign_deps);
    for i in 0..n
        invariant
            view == package@,
            view.names_once(),
            n == view.foreign_deps.len(),
            forall|d: DocumentId| #[trigger] places@.contains_key(d) ==> places@[d].0 < i,
            forall|k: int, l: int, d: int| #[trigger]
                view.names_document(k, l, d) && k < i ==> places@.contains_key(d as usize),
            forall|d: DocumentId| #[trigger]
                places@.contains_key(d) ==> view.names_document(
                    places@[d].0 as int,
                    places@[d].1 as int,
                    d as int,
                ),
    {
        let (_, documents) = names::entry(&package.foreign_deps, i);
        assert(view.foreign_deps[i as int].1 == documents.entries());
        let m: usize = names::len(documents);
        for j in 0..m
            invariant
                view == package@,
                view.names_once(),
                i < view.foreign_deps.len(),
                forall|d: DocumentId| #[trigger]
                    places@.contains_key(d) ==> places@[d].0 < i || places@[d].0 == i
                        && places@[d].1 < j,
                view.foreign_deps[i as int].1 == documents.entries(),
                m == documents.entries().len(),
                forall|k: int, l: int, d: int| #[trigger]
                    view.names_document(k, l, d) && (k < i || k == i && l < j)
                        ==> places@.contains_key(d as usize),
                forall|d: DocumentId| #[trigger]
                    places@.contains_key(d) ==> view.names_document(
                        places@[d].0 as int,
                        places@[d].1 as int,
                        d as int,
                    ),
        {
            let (_, doc) = names::entry(documents, j);
            runtime_assert(i < package.foreign_dep_spans.len());
            assert(view.names_document(i as int, j as int, *doc as int));
            let prev = places.insert(*doc, (i, j));
            runtime_assert(prev.is_none());
        }
    }
    proof {
        assert forall|d: DocumentId| view.is_foreign(d as int) implies #[trigger]
        places@.contains_key(d) by {
            let (i, j) = view.place_of(d as int);
            assert(view.names_document(i, j, d as int));
        }
        assert forall|d: DocumentId| #[trigger] places@.contains_key(d) implies view.place_of(
            d as int,
        ) == (places@[d].0 as int, places@[d].1 as int) by {
            let (i, j) = view.place_of(d as int);
            assert(view.names_document(places@[d].0 as int, places@[d].1 as int, d as int));
            assert(view.names_document(i, j, d as int));
        }
    }
    places
}

/// The message for a document that its package does not have.
fn missing_document(dep: &String, name: &String) -> (msg: String)
    ensures
        msg@ == "package `"@ + dep@ + "` does not define document `"@ + name@ + "`"@,
{
    let mut msg = sentence("package `", dep.as_str(), "` does not define document `");
    msg.append(name.as_str());
    msg.append("`");
    msg
}

impl Remap {
    /// Connects all references to other packages to actual items of `resolve`.
    pub(crate) fn process_foreign_deps(
        &mut self,
        resolve: &Resolve,
        unresolved: &UnresolvedPackage,
        deps: &IndexMap<String, PackageId>,
    ) -> (result: Result<(), Error>)
        requires
            resolve@.usable(),
            linkable(resolve@, unresolved@, deps.entries()),
            old(self).types@.len() == 0,
            old(self).interfaces@.len() == 0,
            old(self).worlds@.len() == 0,
            old(self).documents@.len() == 0,
            old(self).packages@.len() == 0,
        ensures
            match (result, linked(resolve@, unresolved@, deps.entries())) {
                (Ok(_), Ok(map)) => final(self)@ == map,
                (Err(error), Err(expected)) => error@ == expected,
                _ => false,
            },
    {
        proof {
            lemma_foreign(unresolved@);
        }
        if let Err(error) = self.link_documents(resolve, unresolved, deps) {
            return Err(error);
        }
        proof {
            lemma_linked_documents(
                resolve@,
                unresolved@,
                deps.entries(),
                unresolved@.foreign_documents() as nat,
            );
        }
        if let Err(error) = self.link_interfaces(resolve, unresolved) {
            return Err(error);
        }
        proof {
            lemma_linked_interfaces(
                resolve@,
                unresolved@,
                self.documents@,
                unresolved@.foreign_interfaces() as nat,
            );
        }
        if let Err(error) = self.link_types(resolve, unresolved) {
            return Err(error);
        }
        assert(self.worlds@ =~= Seq::empty());
        assert(self.packages@ =~= Seq::empty());
        Ok(())
    }

    /// Connects all references to documents of other packages.
    fn link_documents(
        &mut self,
        resolve: &Resolve,
        unresolved: &UnresolvedPackage,
        deps: &IndexMap<String, PackageId>,
    ) -> (result: Result<(), Error>)
        requires
            resolve@.usable(),
            unresolved@.names_once(),
            documents_linkable(resolve@, unresolved@, deps.entries()),
            linked_documents(
                resolve@,
                unresolved@,
                deps.entries(),
                unresolved@.foreign_documents() as nat,
            ).is_ok() ==> unresolved@.splits_documents(),
            old(self).documents@.len() == 0,
        ensures
            final(self).types == old(self).types,
            final(self).interfaces == old(self).interfaces,
            final(self).worlds == old(self).worlds,
            final(self).packages == old(self).packages,
            match (result, linked_documents(
                resolve@,
                unresolved@,
                deps.entries(),
                unresolved@.foreign_documents() as nat,
            )) {
                (Ok(_), Ok(ids)) => final(self).documents@ == ids,
                (Err(error), Err(expected)) => error@ == expected,
                _ => false,
            },
    {
        let ghost r = resolve@;
        let ghost u = unresolved@;
        let ghost d = deps.entries();
        let ghost foreign = u.foreign_documents();
        proof {
            lemma_foreign(u);
        }
        let document_to_package = places(unresolved);
        let n: usize = arena::count(&unresolved.documents);
        let mut doc: usize = 0;
        assert(self.documents@ =~= Seq::empty());
        while doc < n && document_to_package.contains_key(&doc)
            invariant
                r == resolve@,
                u == unresolved@,
                d == deps.entries(),
                r.usable(),
                u.names_once(),
                documents_linkable(r, u, d),
                foreign == u.foreign_documents(),
                foreign <= n,
                forall|k: int| 0 <= k < foreign ==> #[trigger] u.is_foreign(k),
                foreign < n ==> !u.is_foreign(foreign),
                n == u.documents.len(),
                doc <= n,
                doc <= foreign,
                forall|d: DocumentId| #[trigger]
                    document_to_package@.contains_key(d) <==> u.is_foreign(d as int),
                forall|d: DocumentId| #[trigger]
                    document_to_package@.contains_key(d) ==> {
                        let place = document_to_package@[d];
                        &&& u.names_document(place.0 as int, place.1 as int, d as int)
                        &&& u.place_of(d as int) == (place.0 as int, place.1 as int)
                    },
                self.types == old(self).types,
                self.interfaces == old(self).interfaces,
                self.worlds == old(self).worlds,
                self.packages == old(self).packages,
                linked_documents(r, u, d, doc as nat) == Ok::<Seq<DocumentId>, ErrorView>(
                    self.documents@,
                ),
            decreases n - doc,
        {
            broadcast use vstd::std_specs::hash::group_hash_axioms;

            assert(u.is_foreign(doc as int));
            assert(document_linkable(r, u, d, doc as int));
            let (i, j) = *document_to_package.get(&doc).unwrap();
            let (pkg, documents) = names::entry(&unresolved.foreign_deps, i);
            assert(u.foreign_deps[i as int] == (pkg@, documents.entries()));
            let (name, _) = names::entry(documents, j);
            proof {
                lemma_find(d, pkg@);
                lemma_linked_documents_stops(r, u, d, (doc + 1) as nat, foreign as nat);
            }
            match names::get(deps, pkg.as_str()) {
                None => {
                    let msg = sentence(
                        "no package dependency specified for `",
                        pkg.as_str(),
                        "`",
                    );
                    return Err(Error::at(unresolved.foreign_dep_spans[i], msg));
                },
                Some(pkgid) => {
                    let package = arena::item(&resolve.packages, *pkgid);
                    assert(package@ == r.packages[*pkgid as int]);
                    match names::get(&package.documents, name.as_str()) {
                        None => {
                            let msg = missing_document(pkg, name);
                            return Err(Error::at(unresolved.document_spans[doc], msg));
                        },
                        Some(docid) => self.documents.push(*docid),
                    }
                },
            }
            doc = doc + 1;
        }
        proof {
            broadcast use vstd::std_specs::hash::group_hash_axioms;

            if doc < n {
                assert(!u.is_foreign(doc as int));
            }
            assert(doc == foreign);
        }
        for id in doc..n
            invariant
                u == unresolved@,
                u.splits_documents(),
                doc == u.foreign_documents(),
                n == u.documents.len(),
                forall|d: DocumentId| #[trigger]
                    document_to_package@.contains_key(d) <==> u.is_foreign(d as int),
        {
            broadcast use vstd::std_specs::hash::group_hash_axioms;

            // No document of another package comes after one of this package.
            assert(!u.is_foreign(id as int));
            runtime_assert(!document_to_package.contains_key(&id));
        }
        Ok(())
    }

    /// Connects all references to interfaces of other packages.
    fn link_interfaces(&mut self, resolve: &Resolve, unresolved: &UnresolvedPackage) -> (result:
        Result<(), Error>)
        requires
            resolve@.usable(),
            interfaces_linkable(resolve@, unresolved@, old(self).documents@),
            linked_interfaces(
                resolve@,
                unresolved@,
                old(self).documents@,
                unresolved@.foreign_interfaces() as nat,
            ).is_ok() ==> unresolved@.splits_interfaces(),
            old(self).interfaces@.len() == 0,
            old(self).documents@.len() == unresolved@.foreign_documents(),
            below(old(self).documents@, resolve@.documents.len()),
        ensures
            final(self).types == old(self).types,
            final(self).documents == old(self).documents,
            final(self).worlds == old(self).worlds,
            final(self).packages == old(self).packages,
            match (result, linked_interfaces(
                resolve@,
                unresolved@,
                old(self).documents@,
                unresolved@.foreign_interfaces() as nat,
            )) {
                (Ok(_), Ok(ids)) => final(self).interfaces@ == ids,
                (Err(error), Err(expected)) => error@ == expected,
                _ => false,
            },
    {
        let ghost r = resolve@;
        let ghost u = unresolved@;
        let ghost documents = self.documents@;
        let ghost foreign = u.foreign_interfaces();
        proof {
            lemma_foreign(u);
        }
        let n: usize = arena::count(&unresolved.interfaces);
        assert(self.interfaces@ =~= Seq::empty());
        for i in 0..n
            invariant
                r == resolve@,
                u == unresolved@,
                r.usable(),
                interfaces_linkable(r, u, documents),
                linked_interfaces(r, u, documents, foreign as nat).is_ok()
                    ==> u.splits_interfaces(),
                foreign == u.foreign_interfaces(),
                foreign <= n,
                forall|k: int|
                    0 <= k < foreign ==> (#[trigger] u.interfaces[k]).document
                        < u.foreign_documents(),
                foreign < n ==> u.interfaces[foreign].document >= u.foreign_documents(),
                n == u.interfaces.len(),
                documents == self.documents@,
                documents == old(self).documents@,
                documents.len() == u.foreign_documents(),
                below(documents, r.documents.len()),
                self.types == old(self).types,
                self.documents == old(self).documents,
                self.worlds == old(self).worlds,
                self.packages == old(self).packages,
                i <= foreign,
                linked_interfaces(r, u, documents, i as nat) == Ok::<
                    Seq<InterfaceId>,
                    ErrorView,
                >(self.interfaces@),
        {
            let iface = arena::item(&unresolved.interfaces, i);
            assert(iface@ == u.interfaces[i as int]);
            // All interfaces of other packages are defined first, so the first one which is
            // defined in a document of this package means that all further interfaces will be too.
            if iface.document >= self.documents.len() {
                assert(i == foreign);
                for k in i..n
                    invariant
                        u == unresolved@,
                        u.splits_interfaces(),
                        i == u.foreign_interfaces(),
                        n == u.interfaces.len(),
                        self.documents@.len() == u.foreign_documents(),
                {
                    let other = arena::item(&unresolved.interfaces, k);
                    assert(other@ == u.interfaces[k as int]);
                    runtime_assert(other.document >= self.documents.len());
                }
                return Ok(());
            }
            assert(interface_linkable(u, i as int));
            // Functions can't be imported so this should be empty.
            runtime_assert(names::len(&iface.functions) == 0);
            let docid = self.documents[iface.document];
            let document = arena::item(&resolve.documents, docid);
            assert(document@ == r.documents[docid as int]);
            let span = unresolved.interface_spans[i];
            proof {
                lemma_linked_interfaces_stops(r, u, documents, (i + 1) as nat, foreign as nat);
            }
            match &iface.name {
                Some(name) => match names::get(&document.interfaces, name.as_str()) {
                    Some(id) => self.interfaces.push(*id),
                    None => {
                        return Err(
                            Error::at(span, "interface not defined in document".to_owned()),
                        );
                    },
                },
                None => match document.default_interface {
                    Some(id) => self.interfaces.push(id),
                    None => {
                        return Err(
                            Error::at(
                                span,
                                "default interface not specified in document".to_owned(),
                            ),
                        );
                    },
                },
            }
        }
        Ok(())
    }

    /// Connects all references to types of other packages.
    fn link_types(&mut self, resolve: &Resolve, unresolved: &UnresolvedPackage) -> (result: Result<
        (),
        Error,
    >)
        requires
            resolve@.usable(),
            types_linkable(resolve@, unresolved@, old(self).interfaces@),
            linked_types(
                resolve@,
                unresolved@,
                old(self).interfaces@,
                unresolved@.foreign_types() as nat,
            ).is_ok() ==> unresolved@.splits_types(),
            old(self).types@.len() == 0,
            old(self).interfaces@.len() == unresolved@.foreign_interfaces(),
            below(old(self).interfaces@, resolve@.interfaces.len()),
        ensures
            final(self).interfaces == old(self).interfaces,
            final(self).documents == old(self).documents,
            final(self).worlds == old(self).worlds,
            final(self).packages == old(self).packages,
            match (result, linked_types(
                resolve@,
                unresolved@,
                old(self).interfaces@,
                unresolved@.foreign_types() as nat,
            )) {
                (Ok(_), Ok(ids)) => final(self).types@ == ids,
                (Err(error), Err(expected)) => error@ == expected,
                _ => false,
            },
    {
        let ghost r = resolve@;
        let ghost u = unresolved@;
        let ghost interfaces = self.interfaces@;
        let ghost foreign = u.foreign_types();
        proof {
            lemma_foreign(u);
        }
        let n: usize = arena::count(&unresolved.types);
        assert(self.types@ =~= Seq::empty());
        for i in 0..n
            invariant
                r == resolve@,
                u == unresolved@,
                r.usable(),
                types_linkable(r, u, interfaces),
                linked_types(r, u, interfaces, foreign as nat).is_ok() ==> u.splits_types(),
                foreign == u.foreign_types(),
                foreign <= n,
                forall|k: int|
                    0 <= k < foreign ==> (#[trigger] u.types[k]).kind == KindView::Unknown,
                foreign < n ==> u.types[foreign].kind != KindView::Unknown,
                n == u.types.len(),
                interfaces == self.interfaces@,
                interfaces == old(self).interfaces@,
                interfaces.len() == u.foreign_interfaces(),
                below(interfaces, r.interfaces.len()),
                self.interfaces == old(self).interfaces,
                self.documents == old(self).documents,
                self.worlds == old(self).worlds,
                self.packages == old(self).packages,
                i <= foreign,
                linked_types(r, u, interfaces, i as nat) == Ok::<Seq<TypeId>, ErrorView>(
                    self.types@,
                ),
        {
            let ty = arena::item(&unresolved.types, i);
            assert(ty@ == u.types[i as int]);
            // All "Unknown" types should appear first so once we're no longer in unknown
            // territory it's package-defined types so break out of this loop.
            if let TypeDefKind::Unknown = ty.kind {
            } else {
                assert(i == foreign);
                for k in i..n
                    invariant
                        u == unresolved@,
                        u.splits_types(),
                        i == u.foreign_types(),
                        n == u.types.len(),
                {
                    let other = arena::item(&unresolved.types, k);
                    assert(other@ == u.types[k as int]);
                    if let TypeDefKind::Unknown = other.kind {
                        unreached::<()>();
                    }
                }
                return Ok(());
            }
            assert(type_linkable(u, i as int));
            if let TypeOwner::Interface(id) = ty.owner {
                let iface_id = self.interfaces[id];
                let iface = arena::item(&resolve.interfaces, iface_id);
                assert(iface@ == r.interfaces[iface_id as int]);
                let name = ty.name.as_ref().unwrap();
                let span = unresolved.unknown_type_spans[i];
                proof {
                    lemma_linked_types_stops(r, u, interfaces, (i + 1) as nat, foreign as nat);
                }
                match names::get(&iface.types, name.as_str()) {
                    Some(id) => self.types.push(*id),
                    None => {
                        return Err(
                            Error::at(span, "type not defined in interface".to_owned()),
                        );
                    },
                }
            } else {
                unreached::<()>();
            }
        }
        Ok(())
    }
}

} // verus!
