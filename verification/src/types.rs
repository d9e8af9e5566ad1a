//! The items that a package is made of, and the mathematical view of each.
//!
//! Items refer to each other by position: an id is the index of an item in the arena that holds
//! it. The views replace strings by sequences of characters and collections by sequences, so that
//! two items with equal contents have equal views.
use indexmap::IndexMap;
use vstd::prelude::*;

use crate::names::Entries;

verus! {

/// Position of a [`TypeDef`] in an arena of types.
pub type TypeId = usize;

/// Position of an [`Interface`] in an arena of interfaces.
pub type InterfaceId = usize;

/// Position of a [`World`] in an arena of worlds.
pub type WorldId = usize;

/// Position of a [`Document`] in an arena of documents.
pub type DocumentId = usize;

/// The items of a sequence, each replaced by its view.
pub open spec fn views<T: View>(items: Seq<T>) -> Seq<T::V> {
    Seq::new(items.len(), |i: int| items[i]@)
}

/// The entries of a name-keyed collection, each value replaced by its view.
pub open spec fn entry_views<V: View>(entries: Seq<(Seq<char>, V)>) -> Seq<(Seq<char>, V::V)> {
    Seq::new(entries.len(), |i: int| (entries[i].0, entries[i].1@))
}

/// The characters of an optional string.
pub open spec fn text(name: Option<String>) -> Option<Seq<char>> {
    match name {
        Some(name) => Some(name@),
        None => None,
    }
}

/// A range of bytes in the source text of a package.
#[derive(Clone, Copy, Debug, PartialEq, Eq, Structural)]
pub struct Span {
    pub start: u32,
    pub end: u32,
}

#[derive(Clone, Copy, Debug, PartialEq, Eq, Structural)]
pub enum Type {
    Bool,
    U8,
    U16,
    U32,
    U64,
    S8,
    S16,
    S32,
    S64,
    Float32,
    Float64,
    Char,
    String,
    Id(TypeId),
}

/// The item that a type is defined in.
#[derive(Clone, Copy, Debug, PartialEq, Eq, Structural)]
pub enum TypeOwner {
    World(WorldId),
    Interface(InterfaceId),
    /// An anonymous type, which belongs to no item.
    Unowned,
}

#[derive(Debug)]
pub struct Field {
    pub name: String,
    pub ty: Type,
}

impl View for Field {
    type V = (Seq<char>, Type);

    open spec fn view(&self) -> (Seq<char>, Type) {
        (self.name@, self.ty)
    }
}

#[derive(Debug)]
pub struct Case {
    pub name: String,
    pub ty: Option<Type>,
}

impl View for Case {
    type V = (Seq<char>, Option<Type>);

    open spec fn view(&self) -> (Seq<char>, Option<Type>) {
        (self.name@, self.ty)
    }
}

#[derive(Debug)]
pub struct Record {
    pub fields: Vec<Field>,
}

#[derive(Debug)]
pub struct Flags {
    pub flags: Vec<String>,
}

#[derive(Debug)]
pub struct Tuple {
    pub types: Vec<Type>,
}

#[derive(Debug)]
pub struct Variant {
    pub cases: Vec<Case>,
}

#[derive(Debug)]
pub struct Enum {
    pub cases: Vec<String>,
}

#[derive(Debug)]
pub struct Union {
    pub cases: Vec<Type>,
}

#[derive(Clone, Copy, Debug)]
pub struct Result_ {
    pub ok: Option<Type>,
    pub err: Option<Type>,
}

#[derive(Clone, Copy, Debug)]
pub struct Stream {
    pub element: Option<Type>,
    pub end: Option<Type>,
}

#[derive(Debug)]
pub enum TypeDefKind {
    Record(Record),
    Flags(Flags),
    Tuple(Tuple),
    Variant(Variant),
    Enum(Enum),
    Option(Type),
    Result(Result_),
    Union(Union),
    List(Type),
    Future(Option<Type>),
    Stream(Stream),
    Type(Type),
    /// A type of another package, of which only the name and the interface are known.
    Unknown,
}

/// View of a [`TypeDefKind`].
#[verifier::ext_equal]
pub enum KindView {
    Record(Seq<(Seq<char>, Type)>),
    Flags(Seq<Seq<char>>),
    Tuple(Seq<Type>),
    Variant(Seq<(Seq<char>, Option<Type>)>),
    Enum(Seq<Seq<char>>),
    Option(Type),
    Result(Result_),
    Union(Seq<Type>),
    List(Type),
    Future(Option<Type>),
    Stream(Stream),
    Type(Type),
    Unknown,
}

impl View for TypeDefKind {
    type V = KindView;

    open spec fn view(&self) -> KindView {
        match *self {
            TypeDefKind::Record(r) => KindView::Record(views(r.fields@)),
            TypeDefKind::Flags(f) => KindView::Flags(views(f.flags@)),
            TypeDefKind::Tuple(t) => KindView::Tuple(t.types@),
            TypeDefKind::Variant(v) => KindView::Variant(views(v.cases@)),
            TypeDefKind::Enum(e) => KindView::Enum(views(e.cases@)),
            TypeDefKind::Option(t) => KindView::Option(t),
            TypeDefKind::Result(r) => KindView::Result(r),
            TypeDefKind::Union(u) => KindView::Union(u.cases@),
            TypeDefKind::List(t) => KindView::List(t),
            TypeDefKind::Future(t) => KindView::Future(t),
            TypeDefKind::Stream(s) => KindView::Stream(s),
            TypeDefKind::Type(t) => KindView::Type(t),
            TypeDefKind::Unknown => KindView::Unknown,
        }
    }
}

#[derive(Debug)]
pub struct TypeDef {
    pub name: Option<String>,
    pub kind: TypeDefKind,
    pub owner: TypeOwner,
}

/// View of a [`TypeDef`].
#[verifier::ext_equal]
pub struct TypeDefView {
    pub name: Option<Seq<char>>,
    pub kind: KindView,
    pub owner: TypeOwner,
}

impl View for TypeDef {
    type V = TypeDefView;

    open spec fn view(&self) -> TypeDefView {
        TypeDefView { name: text(self.name), kind: self.kind@, owner: self.owner }
    }
}

#[derive(Debug)]
pub struct Param {
    pub name: String,
    pub ty: Type,
}

impl View for Param {
    type V = (Seq<char>, Type);

    open spec fn view(&self) -> (Seq<char>, Type) {
        (self.name@, self.ty)
    }
}

#[derive(Debug)]
pub enum Results {
    Named(Vec<Param>),
    Anon(Type),
}

/// View of [`Results`].
#[verifier::ext_equal]
pub enum ResultsView {
    Named(Seq<(Seq<char>, Type)>),
    Anon(Type),
}

impl View for Results {
    type V = ResultsView;

    open spec fn view(&self) -> ResultsView {
        match *self {
            Results::Named(named) => ResultsView::Named(views(named@)),
            Results::Anon(ty) => ResultsView::Anon(ty),
        }
    }
}

#[derive(Debug)]
pub struct Function {
    pub name: String,
    pub params: Vec<Param>,
    pub results: Results,
}

/// View of a [`Function`].
#[verifier::ext_equal]
pub struct FunctionView {
    pub name: Seq<char>,
    pub params: Seq<(Seq<char>, Type)>,
    pub results: ResultsView,
}

impl View for Function {
    type V = FunctionView;

    open spec fn view(&self) -> FunctionView {
        FunctionView { name: self.name@, params: views(self.params@), results: self.results@ }
    }
}

/// What a world imports or exports under a name.
#[derive(Debug)]
pub enum WorldItem {
    Interface(InterfaceId),
    Function(Function),
    Type(TypeId),
}

/// View of a [`WorldItem`].
#[verifier::ext_equal]
pub enum ItemView {
    Interface(InterfaceId),
    Function(FunctionView),
    Type(TypeId),
}

impl View for WorldItem {
    type V = ItemView;

    open spec fn view(&self) -> ItemView {
        match *self {
            WorldItem::Interface(id) => ItemView::Interface(id),
            WorldItem::Function(f) => ItemView::Function(f@),
            WorldItem::Type(id) => ItemView::Type(id),
        }
    }
}

#[derive(Debug)]
pub struct World {
    pub name: String,
    pub imports: IndexMap<String, WorldItem>,
    pub exports: IndexMap<String, WorldItem>,
    /// The document that defines this world.
    pub document: DocumentId,
}

/// View of a [`World`].
#[verifier::ext_equal]
pub struct WorldView {
    pub name: Seq<char>,
    pub imports: Seq<(Seq<char>, ItemView)>,
    pub exports: Seq<(Seq<char>, ItemView)>,
    pub document: DocumentId,
}

impl View for World {
    type V = WorldView;

    open spec fn view(&self) -> WorldView {
        WorldView {
            name: self.name@,
            imports: entry_views(self.imports.entries()),
            exports: entry_views(self.exports.entries()),
            document: self.document,
        }
    }
}

#[derive(Debug)]
pub struct Interface {
    /// The name of this interface, which one written inside of a world does not have.
    pub name: Option<String>,
    pub types: IndexMap<String, TypeId>,
    pub functions: IndexMap<String, Function>,
    /// The document that defines this interface.
    pub document: DocumentId,
}

/// View of an [`Interface`].
#[verifier::ext_equal]
pub struct InterfaceView {
    pub name: Option<Seq<char>>,
    pub types: Seq<(Seq<char>, TypeId)>,
    pub functions: Seq<(Seq<char>, FunctionView)>,
    pub document: DocumentId,
}

impl View for Interface {
    type V = InterfaceView;

    open spec fn view(&self) -> InterfaceView {
        InterfaceView {
            name: text(self.name),
            types: self.types.entries(),
            functions: entry_views(self.functions.entries()),
            document: self.document,
        }
    }
}

/// A file of a package.
#[derive(Debug)]
pub struct Document {
    pub name: String,
    pub interfaces: IndexMap<String, InterfaceId>,
    pub worlds: IndexMap<String, WorldId>,
    pub default_interface: Option<InterfaceId>,
    pub default_world: Option<WorldId>,
    /// The package that this document belongs to.
    pub package: Option<PackageId>,
}

/// View of a [`Document`].
#[verifier::ext_equal]
pub struct DocumentView {
    pub name: Seq<char>,
    pub interfaces: Seq<(Seq<char>, InterfaceId)>,
    pub worlds: Seq<(Seq<char>, WorldId)>,
    pub default_interface: Option<InterfaceId>,
    pub default_world: Option<WorldId>,
    pub package: Option<PackageId>,
}

impl View for Document {
    type V = DocumentView;

    open spec fn view(&self) -> DocumentView {
        DocumentView {
            name: self.name@,
            interfaces: self.interfaces.entries(),
            worlds: self.worlds.entries(),
            default_interface: self.default_interface,
            default_world: self.default_world,
            package: self.package,
        }
    }
}

/// Position of a [`Package`] in an arena of packages.
pub type PackageId = usize;

#[derive(Debug)]
pub struct Package {
    /// Locally-known name of this package.
    pub name: String,
    /// Optionally-specified URL of this package, must be specified for remote dependencies.
    pub url: Option<String>,
    /// Documents contained within this package, organized by name.
    pub documents: IndexMap<String, DocumentId>,
}

/// View of a [`Package`].
#[verifier::ext_equal]
pub struct PackageView {
    pub name: Seq<char>,
    pub url: Option<Seq<char>>,
    pub documents: Seq<(Seq<char>, DocumentId)>,
}

impl View for Package {
    type V = PackageView;

    open spec fn view(&self) -> PackageView {
        PackageView { name: self.name@, url: text(self.url), documents: self.documents.entries() }
    }
}

} // verus!
