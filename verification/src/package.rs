//! Packages as they come from a parser, with references to other packages open.
use id_arena::Arena;
use indexmap::IndexMap;
use vstd::prelude::*;

use crate::arena::{self, Items};
use crate::names::{self, Entries};
use crate::remap::kind_within;
use crate::resolve::{
    document_within, interface_holds, interface_within, owner_within, world_within,
};
use crate::search::{first_where, lemma_first_where};
use crate::types::{
    text, views, Document, DocumentId, DocumentView, Interface, InterfaceView, KindView, Span,
    TypeDef, TypeDefView, TypeOwner, World, WorldView,
};

verus! {

/// A package whose references to documents, interfaces and types of other packages are known by
/// name only.
///
/// Documents, interfaces and types of other packages stand before those of the package itself.
pub struct UnresolvedPackage {
    /// Locally-known name of this package.
    pub name: String,
    /// Optionally-specified URL of this package.
    pub url: Option<String>,
    pub worlds: Arena<World>,
    pub interfaces: Arena<Interface>,
    pub types: Arena<TypeDef>,
    pub documents: Arena<Document>,
    /// The documents that this package refers to, by the name of their package and their own.
    pub foreign_deps: IndexMap<String, IndexMap<String, DocumentId>>,
    pub unknown_type_spans: Vec<Span>,
    /// For each world, where its imports and its exports stand.
    pub world_spans: Vec<(Vec<Span>, Vec<Span>)>,
    pub document_spans: Vec<Span>,
    pub interface_spans: Vec<Span>,
    pub foreign_dep_spans: Vec<Span>,
}

/// View of an [`UnresolvedPackage`].
#[verifier::ext_equal]
pub struct UnresolvedView {
    pub name: Seq<char>,
    pub url: Option<Seq<char>>,
    pub worlds: Seq<WorldView>,
    pub interfaces: Seq<InterfaceView>,
    pub types: Seq<TypeDefView>,
    pub documents: Seq<DocumentView>,
    pub foreign_deps: Seq<(Seq<char>, Seq<(Seq<char>, DocumentId)>)>,
    pub unknown_type_spans: Seq<Span>,
    pub world_spans: Seq<(Seq<Span>, Seq<Span>)>,
    pub document_spans: Seq<Span>,
    pub interface_spans: Seq<Span>,
    pub foreign_dep_spans: Seq<Span>,
}

impl View for UnresolvedPackage {
    type V = UnresolvedView;

    open spec fn view(&self) -> UnresolvedView {
        UnresolvedView {
            name: self.name@,
            url: text(self.url),
            worlds: views(self.worlds.items()),
            interfaces: views(self.interfaces.items()),
            types: views(self.types.items()),
            documents: views(self.documents.items()),
            foreign_deps: Seq::new(
                self.foreign_deps.entries().len(),
                |i: int|
                    (
                        self.foreign_deps.entries()[i].0,
                        self.foreign_deps.entries()[i].1.entries(),
                    ),
            ),
            unknown_type_spans: self.unknown_type_spans@,
            world_spans: Seq::new(
                self.world_spans@.len(),
                |i: int| (self.world_spans@[i].0@, self.world_spans@[i].1@),
            ),
            document_spans: self.document_spans@,
            interface_spans: self.interface_spans@,
            foreign_dep_spans: self.foreign_dep_spans@,
        }
    }
}

/// How many of the numbers below `n` come before the first of which something does not hold.
pub open spec fn lead(n: nat, holds: spec_fn(int) -> bool) -> int {
    match first_where(n, |i: int| !holds(i)) {
        Some(i) => i,
        None => n as int,
    }
}

/// What [`lead`] counts.
pub proof fn lemma_lead(n: nat, holds: spec_fn(int) -> bool)
    ensures
        0 <= lead(n, holds) <= n,
        forall|i: int| 0 <= i < lead(n, holds) ==> #[trigger] holds(i),
        lead(n, holds) < n ==> !holds(lead(n, holds)),
{
    let fails = |i: int| !holds(i);
    lemma_first_where(n, fails);
    assert forall|i: int| 0 <= i < lead(n, holds) implies #[trigger] holds(i) by {
        assert(!fails(i));
    }
}

impl UnresolvedView {
    /// The document that stands at position `j` under the package at position `i`.
    pub open spec fn names_document(self, i: int, j: int, doc: int) -> bool {
        &&& 0 <= i < self.foreign_deps.len()
        &&& 0 <= j < self.foreign_deps[i].1.len()
        &&& self.foreign_deps[i].1[j].1 == doc
    }

    /// A document belongs to another package.
    pub open spec fn is_foreign(self, doc: int) -> bool {
        exists|i: int, j: int| self.names_document(i, j, doc)
    }

    /// Where a document of another package is named.
    pub open spec fn place_of(self, doc: int) -> (int, int) {
        choose|i: int, j: int| self.names_document(i, j, doc)
    }

    /// How many documents come before the first that belongs to this package.
    pub open spec fn foreign_documents(self) -> int {
        lead(self.documents.len(), |d: int| self.is_foreign(d))
    }

    /// How many interfaces come before the first that belongs to this package.
    pub open spec fn foreign_interfaces(self) -> int {
        let documents = self.foreign_documents();
        lead(self.interfaces.len(), |i: int| self.interfaces[i].document < documents)
    }

    /// How many types come before the first that belongs to this package.
    pub open spec fn foreign_types(self) -> int {
        lead(self.types.len(), |i: int| self.types[i].kind == KindView::Unknown)
    }

    /// Those documents, and no others, belong to other packages.
    pub open spec fn splits_documents(self) -> bool {
        let k = self.foreign_documents();
        &&& 0 <= k <= self.documents.len()
        &&& forall|d: int|
            0 <= d < self.documents.len() ==> (#[trigger] self.is_foreign(d) <==> d < k)
    }

    /// Those interfaces, and no others, belong to other packages.
    pub open spec fn splits_interfaces(self) -> bool {
        let k = self.foreign_interfaces();
        &&& 0 <= k <= self.interfaces.len()
        &&& forall|i: int|
            0 <= i < self.interfaces.len() ==> ((#[trigger] self.interfaces[i]).document
                < self.foreign_documents() <==> i < k)
    }

    /// Those types, and no others, belong to other packages.
    pub open spec fn splits_types(self) -> bool {
        let k = self.foreign_types();
        &&& 0 <= k <= self.types.len()
        &&& forall|i: int|
            0 <= i < self.types.len() ==> ((#[trigger] self.types[i]).kind == KindView::Unknown
                <==> i < k)
    }

    /// Each document of another package is named once, with a span.
    pub open spec fn names_once(self) -> bool {
        &&& forall|i: int, j: int, k: int, l: int, d: int|
            #![trigger self.names_document(i, j, d), self.names_document(k, l, d)]
            self.names_document(i, j, d) && self.names_document(k, l, d) ==> i == k && j == l
        &&& forall|i: int|
            0 <= i < self.foreign_deps.len() && (#[trigger] self.foreign_deps[i]).1.len() > 0 ==> i
                < self.foreign_dep_spans.len()
    }

    /// An interface of another package holds no functions.
    pub open spec fn interface_bare(self, i: int) -> bool {
        self.interfaces[i].functions.len() == 0
    }

    /// A type of another package has a name and an interface that it is to be found in.
    pub open spec fn type_bare(self, i: int) -> bool {
        &&& self.types[i].name.is_some()
        &&& self.types[i].owner matches TypeOwner::Interface(id) && id < self.foreign_interfaces()
    }

    /// What belongs to other packages stands first, and each such item can be looked up.
    pub open spec fn foreign_valid(self) -> bool {
        &&& self.splits_documents()
        &&& self.splits_interfaces()
        &&& self.splits_types()
        &&& self.names_once()
        &&& forall|i: int|
            0 <= i < self.foreign_interfaces() ==> #[trigger] self.interface_bare(i)
        &&& forall|i: int| 0 <= i < self.foreign_types() ==> #[trigger] self.type_bare(i)
    }

    /// A type refers to types that stand before it only, and an interface that it belongs to is
    /// there.
    pub open spec fn type_ready(self, i: int) -> bool {
        &&& kind_within(self.types[i].kind, i as nat)
        &&& self.types[i].owner matches TypeOwner::Interface(id) ==> id < self.interfaces.len()
    }

    pub open spec fn interface_ready(self, i: int) -> bool {
        interface_holds(self.interfaces[i], self.types.len())
    }

    /// The types and interfaces of the package can be moved once its references are linked, and
    /// every world is described by spans.
    pub open spec fn items_ready(self) -> bool {
        &&& self.foreign_valid()
        &&& self.world_spans.len() == self.worlds.len()
        &&& forall|i: int|
            self.foreign_types() <= i < self.types.len() ==> #[trigger] self.type_ready(i)
        &&& forall|i: int|
            self.foreign_interfaces() <= i < self.interfaces.len()
                ==> #[trigger] self.interface_ready(i)
    }

    pub open spec fn type_valid(self, i: int) -> bool {
        &&& kind_within(self.types[i].kind, i as nat)
        &&& owner_within(self.types[i].owner, self.interfaces.len(), self.worlds.len())
    }

    pub open spec fn interface_valid(self, i: int) -> bool {
        interface_within(self.interfaces[i], self.types.len(), self.documents.len())
    }

    /// A world is described by as many spans as it has items, and exports no types.
    pub open spec fn world_valid(self, i: int) -> bool {
        &&& world_within(
            self.worlds[i],
            self.interfaces.len(),
            self.types.len(),
            self.documents.len(),
        )
        &&& self.world_spans[i].0.len() == self.worlds[i].imports.len()
        &&& self.world_spans[i].1.len() == self.worlds[i].exports.len()
        &&& forall|j: int|
            0 <= j < self.worlds[i].exports.len() ==> !((#[trigger] self.worlds[i].exports[j]).1
                is Type)
    }

    pub open spec fn document_valid(self, i: int) -> bool {
        document_within(self.documents[i], self.interfaces.len(), self.worlds.len())
    }

    /// Every reference in an item of the package is to an item that is there, types are sorted
    /// topologically, and the documents of the package have different names.
    pub open spec fn valid(self) -> bool {
        &&& self.items_ready()
        &&& forall|i: int|
            self.foreign_types() <= i < self.types.len() ==> #[trigger] self.type_valid(i)
        &&& forall|i: int|
            self.foreign_interfaces() <= i < self.interfaces.len()
                ==> #[trigger] self.interface_valid(i)
        &&& forall|i: int| 0 <= i < self.worlds.len() ==> #[trigger] self.world_valid(i)
        &&& forall|i: int|
            self.foreign_documents() <= i < self.documents.len()
                ==> #[trigger] self.document_valid(i)
        &&& forall|i: int, j: int|
            #![trigger self.documents[i], self.documents[j]]
            self.foreign_documents() <= i < j < self.documents.len() ==> self.documents[i].name
                != self.documents[j].name
    }
}

/// The items that come before the first of the package belong to other packages.
pub proof fn lemma_foreign(package: UnresolvedView)
    ensures
        ({
            let (m, n) = (package.foreign_documents(), package.foreign_interfaces());
            let k = package.foreign_types();
            &&& 0 <= m <= package.documents.len()
            &&& 0 <= n <= package.interfaces.len()
            &&& 0 <= k <= package.types.len()
            &&& forall|d: int| 0 <= d < m ==> #[trigger] package.is_foreign(d)
            &&& m < package.documents.len() ==> !package.is_foreign(m)
            &&& forall|i: int|
                0 <= i < n ==> (#[trigger] package.interfaces[i]).document < m
            &&& n < package.interfaces.len() ==> package.interfaces[n].document >= m
            &&& forall|i: int|
                0 <= i < k ==> (#[trigger] package.types[i]).kind == KindView::Unknown
            &&& k < package.types.len() ==> package.types[k].kind != KindView::Unknown
        }),
{
    let documents = package.foreign_documents();
    let is_foreign = |d: int| package.is_foreign(d);
    let elsewhere = |i: int| package.interfaces[i].document < documents;
    let unknown = |i: int| package.types[i].kind == KindView::Unknown;
    lemma_lead(package.documents.len(), is_foreign);
    lemma_lead(package.interfaces.len(), elsewhere);
    lemma_lead(package.types.len(), unknown);
    assert forall|d: int| 0 <= d < documents implies #[trigger] package.is_foreign(d) by {
        assert(is_foreign(d));
    }
    assert forall|i: int| 0 <= i < package.foreign_interfaces() implies (
    #[trigger] package.interfaces[i]).document < documents by {
        assert(elsewhere(i));
    }
    assert forall|i: int| 0 <= i < package.foreign_types() implies (
    #[trigger] package.types[i]).kind == KindView::Unknown by {
        assert(unknown(i));
    }
}

impl UnresolvedPackage {
    /// A package with nothing in it.
    pub fn new(name: String) -> (package: UnresolvedPackage)
        ensures
            package@ == (UnresolvedView {
                name: name@,
                url: None,
                worlds: Seq::empty(),
                interfaces: Seq::empty(),
                types: Seq::empty(),
                documents: Seq::empty(),
                foreign_deps: Seq::empty(),
                unknown_type_spans: Seq::empty(),
                world_spans: Seq::empty(),
                document_spans: Seq::empty(),
                interface_spans: Seq::empty(),
                foreign_dep_spans: Seq::empty(),
            }),
            package@.valid(),
    {
        let package = UnresolvedPackage {
            name,
            url: None,
            worlds: arena::new_worlds(),
            interfaces: arena::new_interfaces(),
            types: arena::new_types(),
            documents: arena::new_documents(),
            foreign_deps: names::new_id_maps(),
            unknown_type_spans: Vec::new(),
            world_spans: Vec::new(),
            document_spans: Vec::new(),
            interface_spans: Vec::new(),
            foreign_dep_spans: Vec::new(),
        };
        assert(package@ =~= UnresolvedView {
            name: name@,
            url: None,
            worlds: Seq::empty(),
            interfaces: Seq::empty(),
            types: Seq::empty(),
            documents: Seq::empty(),
            foreign_deps: Seq::empty(),
            unknown_type_spans: Seq::empty(),
            world_spans: Seq::empty(),
            document_spans: Seq::empty(),
            interface_spans: Seq::empty(),
            foreign_dep_spans: Seq::empty(),
        });
        proof {
            lemma_foreign(package@);
        }
        package
    }
}

} // verus!
