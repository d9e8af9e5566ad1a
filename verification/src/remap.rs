//! Renumbering of the ids inside of items that move from one set of arenas to another.
use indexmap::IndexMap;
use vstd::pervasive::unreached;
use vstd::prelude::*;

use crate::names::{self, Entries};
use crate::types::{
    entry_views, views, Case, Document, DocumentId, DocumentView, Field, Function, FunctionView,
    Interface, InterfaceId, InterfaceView, ItemView, KindView, PackageId, Param, Result_, Results,
    ResultsView, Stream, Type, TypeDef, TypeDefKind, TypeDefView, TypeId, WorldId, WorldItem,
};

verus! {

/// Structure returned by [`Resolve::merge`](crate::resolve::Resolve::merge) which contains
/// mappings from old-ids to new-ids after the merge.
#[derive(Debug)]
pub struct Remap {
    pub types: Vec<TypeId>,
    pub interfaces: Vec<InterfaceId>,
    pub worlds: Vec<WorldId>,
    pub documents: Vec<DocumentId>,
    pub packages: Vec<PackageId>,
}

/// View of a [`Remap`].
#[verifier::ext_equal]
pub struct RemapView {
    pub types: Seq<TypeId>,
    pub interfaces: Seq<InterfaceId>,
    pub worlds: Seq<WorldId>,
    pub documents: Seq<DocumentId>,
    pub packages: Seq<PackageId>,
}

impl View for Remap {
    type V = RemapView;

    open spec fn view(&self) -> RemapView {
        RemapView {
            types: self.types@,
            interfaces: self.interfaces@,
            worlds: self.worlds@,
            documents: self.documents@,
            packages: self.packages@,
        }
    }
}

/// A type refers to no type at or behind position `n`.
pub open spec fn type_within(ty: Type, n: nat) -> bool {
    ty matches Type::Id(id) ==> id < n
}

/// An optional type refers to no type at or behind position `n`.
pub open spec fn option_within(ty: Option<Type>, n: nat) -> bool {
    ty matches Some(ty) ==> type_within(ty, n)
}

/// None of the named types refers to a type at or behind position `n`.
pub open spec fn named_within(named: Seq<(Seq<char>, Type)>, n: nat) -> bool {
    forall|i: int| 0 <= i < named.len() ==> type_within((#[trigger] named[i]).1, n)
}

/// A definition refers to no type at or behind position `n`.
pub open spec fn kind_within(kind: KindView, n: nat) -> bool {
    match kind {
        KindView::Record(fields) => named_within(fields, n),
        KindView::Tuple(types) => forall|i: int|
            0 <= i < types.len() ==> type_within(#[trigger] types[i], n),
        KindView::Variant(cases) => forall|i: int|
            0 <= i < cases.len() ==> option_within((#[trigger] cases[i]).1, n),
        KindView::Union(types) => forall|i: int|
            0 <= i < types.len() ==> type_within(#[trigger] types[i], n),
        KindView::Option(ty) | KindView::List(ty) | KindView::Type(ty) => type_within(ty, n),
        KindView::Future(ty) => option_within(ty, n),
        KindView::Result(r) => option_within(r.ok, n) && option_within(r.err, n),
        KindView::Stream(s) => option_within(s.element, n) && option_within(s.end, n),
        KindView::Flags(_) | KindView::Enum(_) | KindView::Unknown => true,
    }
}

/// A function refers to no type at or behind position `n`.
pub open spec fn function_within(func: FunctionView, n: nat) -> bool {
    &&& named_within(func.params, n)
    &&& match func.results {
        ResultsView::Named(named) => named_within(named, n),
        ResultsView::Anon(ty) => type_within(ty, n),
    }
}

/// Every id in a list of names and ids is below `n`.
pub open spec fn ids_within(entries: Seq<(Seq<char>, usize)>, n: nat) -> bool {
    forall|i: int| 0 <= i < entries.len() ==> (#[trigger] entries[i]).1 < n
}

/// None of the functions refers to a type at or behind position `n`.
pub open spec fn functions_within(entries: Seq<(Seq<char>, FunctionView)>, n: nat) -> bool {
    forall|i: int| 0 <= i < entries.len() ==> function_within((#[trigger] entries[i]).1, n)
}

/// A world item refers to an interface below `interfaces` and to types below `types`.
pub open spec fn item_within(item: ItemView, interfaces: nat, types: nat) -> bool {
    match item {
        ItemView::Interface(id) => id < interfaces,
        ItemView::Function(f) => function_within(f, types),
        ItemView::Type(id) => id < types,
    }
}

/// Every world item refers to interfaces below `interfaces` and to types below `types`.
pub open spec fn items_within(
    entries: Seq<(Seq<char>, ItemView)>,
    interfaces: nat,
    types: nat,
) -> bool {
    forall|i: int|
        0 <= i < entries.len() ==> item_within((#[trigger] entries[i]).1, interfaces, types)
}

/// The type that a type becomes when type `i` becomes `ids[i]`.
pub open spec fn mapped_type(ids: Seq<usize>, ty: Type) -> Type {
    match ty {
        Type::Id(id) => Type::Id(ids[id as int]),
        ty => ty,
    }
}

pub open spec fn mapped_option(ids: Seq<usize>, ty: Option<Type>) -> Option<Type> {
    match ty {
        Some(ty) => Some(mapped_type(ids, ty)),
        None => None,
    }
}

pub open spec fn mapped_types(ids: Seq<usize>, types: Seq<Type>) -> Seq<Type> {
    Seq::new(types.len(), |i: int| mapped_type(ids, types[i]))
}

pub open spec fn mapped_named(ids: Seq<usize>, named: Seq<(Seq<char>, Type)>) -> Seq<
    (Seq<char>, Type),
> {
    Seq::new(named.len(), |i: int| (named[i].0, mapped_type(ids, named[i].1)))
}

pub open spec fn mapped_cases(ids: Seq<usize>, cases: Seq<(Seq<char>, Option<Type>)>) -> Seq<
    (Seq<char>, Option<Type>),
> {
    Seq::new(cases.len(), |i: int| (cases[i].0, mapped_option(ids, cases[i].1)))
}

/// The definition that a definition becomes when type `i` becomes `ids[i]`.
pub open spec fn mapped_kind(ids: Seq<usize>, kind: KindView) -> KindView {
    match kind {
        KindView::Record(fields) => KindView::Record(mapped_named(ids, fields)),
        KindView::Tuple(types) => KindView::Tuple(mapped_types(ids, types)),
        KindView::Variant(cases) => KindView::Variant(mapped_cases(ids, cases)),
        KindView::Union(types) => KindView::Union(mapped_types(ids, types)),
        KindView::Option(ty) => KindView::Option(mapped_type(ids, ty)),
        KindView::List(ty) => KindView::List(mapped_type(ids, ty)),
        KindView::Type(ty) => KindView::Type(mapped_type(ids, ty)),
        KindView::Future(ty) => KindView::Future(mapped_option(ids, ty)),
        KindView::Result(r) => KindView::Result(
            Result_ { ok: mapped_option(ids, r.ok), err: mapped_option(ids, r.err) },
        ),
        KindView::Stream(s) => KindView::Stream(
            Stream { element: mapped_option(ids, s.element), end: mapped_option(ids, s.end) },
        ),
        KindView::Flags(flags) => KindView::Flags(flags),
        KindView::Enum(cases) => KindView::Enum(cases),
        KindView::Unknown => KindView::Unknown,
    }
}

/// The function that a function becomes when type `i` becomes `ids[i]`.
pub open spec fn mapped_function(ids: Seq<usize>, func: FunctionView) -> FunctionView {
    FunctionView {
        name: func.name,
        params: mapped_named(ids, func.params),
        results: match func.results {
            ResultsView::Named(named) => ResultsView::Named(mapped_named(ids, named)),
            ResultsView::Anon(ty) => ResultsView::Anon(mapped_type(ids, ty)),
        },
    }
}

/// The names and ids that `entries` becomes when id `i` becomes `ids[i]`.
pub open spec fn mapped_ids(ids: Seq<usize>, entries: Seq<(Seq<char>, usize)>) -> Seq<
    (Seq<char>, usize),
> {
    Seq::new(entries.len(), |i: int| (entries[i].0, ids[entries[i].1 as int]))
}

pub open spec fn mapped_functions(
    ids: Seq<usize>,
    entries: Seq<(Seq<char>, FunctionView)>,
) -> Seq<(Seq<char>, FunctionView)> {
    Seq::new(entries.len(), |i: int| (entries[i].0, mapped_function(ids, entries[i].1)))
}

pub open spec fn mapped_id(ids: Seq<usize>, id: Option<usize>) -> Option<usize> {
    match id {
        Some(id) => Some(ids[id as int]),
        None => None,
    }
}

/// The part of a mapping that world items depend on.
#[verifier::ext_equal]
pub struct ItemMap {
    pub types: Seq<TypeId>,
    pub interfaces: Seq<InterfaceId>,
}

impl RemapView {
    pub open spec fn item_map(self) -> ItemMap {
        ItemMap { types: self.types, interfaces: self.interfaces }
    }
}

/// The world item that an item becomes under a mapping of interfaces and types.
pub open spec fn mapped_item(map: ItemMap, item: ItemView) -> ItemView {
    match item {
        ItemView::Interface(id) => ItemView::Interface(map.interfaces[id as int]),
        ItemView::Function(f) => ItemView::Function(mapped_function(map.types, f)),
        ItemView::Type(id) => ItemView::Type(map.types[id as int]),
    }
}

pub open spec fn mapped_items(map: ItemMap, entries: Seq<(Seq<char>, ItemView)>) -> Seq<
    (Seq<char>, ItemView),
> {
    Seq::new(entries.len(), |i: int| (entries[i].0, mapped_item(map, entries[i].1)))
}

impl Default for Remap {
    fn default() -> (remap: Remap)
        ensures
            remap.types@ == Seq::<usize>::empty(),
            remap.interfaces@ == Seq::<usize>::empty(),
            remap.worlds@ == Seq::<usize>::empty(),
            remap.documents@ == Seq::<usize>::empty(),
            remap.packages@ == Seq::<usize>::empty(),
    {
        Remap::new()
    }
}

impl Remap {
    /// A mapping of no ids.
    pub fn new() -> (remap: Remap)
        ensures
            remap.types@ == Seq::<usize>::empty(),
            remap.interfaces@ == Seq::<usize>::empty(),
            remap.worlds@ == Seq::<usize>::empty(),
            remap.documents@ == Seq::<usize>::empty(),
            remap.packages@ == Seq::<usize>::empty(),
    {
        Remap {
            types: Vec::new(),
            interfaces: Vec::new(),
            worlds: Vec::new(),
            documents: Vec::new(),
            packages: Vec::new(),
        }
    }

    pub(crate) fn update_ty(&self, ty: &mut Type)
        requires
            type_within(*old(ty), self.types@.len()),
        ensures
            *final(ty) == mapped_type(self.types@, *old(ty)),
    {
        if let Type::Id(id) = *ty {
            *ty = Type::Id(self.types[id]);
        }
    }

    fn update_option(&self, ty: &mut Option<Type>)
        requires
            option_within(*old(ty), self.types@.len()),
        ensures
            *final(ty) == mapped_option(self.types@, *old(ty)),
    {
        if let Some(ty) = ty {
            self.update_ty(ty);
        }
    }

    fn update_fields(&self, fields: &mut Vec<Field>)
        requires
            named_within(views(old(fields)@), self.types@.len()),
        ensures
            views(final(fields)@) == mapped_named(self.types@, views(old(fields)@)),
    {
        let ghost before = fields@;
        let n: usize = fields.len();
        for i in 0..n
            invariant
                n == before.len(),
                fields@.len() == before.len(),
                named_within(views(before), self.types@.len()),
                forall|j: int|
                    0 <= j < i ==> (#[trigger] fields@[j])@ == (
                    before[j].name@,
                    mapped_type(self.types@, before[j].ty),
                ),
                forall|j: int| i <= j < before.len() ==> #[trigger] fields@[j] == before[j],
        {
            assert(type_within(views(before)[i as int].1, self.types@.len()));
            let field = &mut fields[i];
            self.update_ty(&mut field.ty);
        }
        assert(views(fields@) =~= mapped_named(self.types@, views(before)));
    }

    fn update_params(&self, params: &mut Vec<Param>)
        requires
            named_within(views(old(params)@), self.types@.len()),
        ensures
            views(final(params)@) == mapped_named(self.types@, views(old(params)@)),
    {
        let ghost before = params@;
        let n: usize = params.len();
        for i in 0..n
            invariant
                n == before.len(),
                params@.len() == before.len(),
                named_within(views(before), self.types@.len()),
                forall|j: int|
                    0 <= j < i ==> (#[trigger] params@[j])@ == (
                    before[j].name@,
                    mapped_type(self.types@, before[j].ty),
                ),
                forall|j: int| i <= j < before.len() ==> #[trigger] params@[j] == before[j],
        {
            assert(type_within(views(before)[i as int].1, self.types@.len()));
            let param = &mut params[i];
            self.update_ty(&mut param.ty);
        }
        assert(views(params@) =~= mapped_named(self.types@, views(before)));
    }

    fn update_cases(&self, cases: &mut Vec<Case>)
        requires
            forall|i: int|
                0 <= i < old(cases)@.len() ==> option_within(
                    (#[trigger] views(old(cases)@)[i]).1,
                    self.types@.len(),
                ),
        ensures
            views(final(cases)@) == mapped_cases(self.types@, views(old(cases)@)),
    {
        let ghost before = cases@;
        let n: usize = cases.len();
        for i in 0..n
            invariant
                n == before.len(),
                cases@.len() == before.len(),
                forall|i: int|
                    0 <= i < before.len() ==> option_within(
                        (#[trigger] views(before)[i]).1,
                        self.types@.len(),
                    ),
                forall|j: int|
                    0 <= j < i ==> (#[trigger] cases@[j])@ == (
                    before[j].name@,
                    mapped_option(self.types@, before[j].ty),
                ),
                forall|j: int| i <= j < before.len() ==> #[trigger] cases@[j] == before[j],
        {
            assert(option_within(views(before)[i as int].1, self.types@.len()));
            let case = &mut cases[i];
            self.update_option(&mut case.ty);
        }
        assert(views(cases@) =~= mapped_cases(self.types@, views(before)));
    }

    fn update_types(&self, types: &mut Vec<Type>)
        requires
            forall|i: int|
                0 <= i < old(types)@.len() ==> type_within(
                    #[trigger] old(types)@[i],
                    self.types@.len(),
                ),
        ensures
            final(types)@ == mapped_types(self.types@, old(types)@),
    {
        let ghost before = types@;
        let n: usize = types.len();
        for i in 0..n
            invariant
                n == before.len(),
                types@.len() == before.len(),
                forall|i: int|
                    0 <= i < before.len() ==> type_within(#[trigger] before[i], self.types@.len()),
                forall|j: int|
                    0 <= j < i ==> #[trigger] types@[j] == mapped_type(self.types@, before[j]),
                forall|j: int| i <= j < before.len() ==> #[trigger] types@[j] == before[j],
        {
            self.update_ty(&mut types[i]);
        }
        assert(types@ =~= mapped_types(self.types@, before));
    }

    /// Renumbers the types that a definition refers to. The owner stays as it is: interfaces and
    /// worlds are not mapped yet when types are, and owners are updated in a separate step.
    pub(crate) fn update_typedef(&self, ty: &mut TypeDef)
        requires
            kind_within(old(ty).kind@, self.types@.len()),
            old(ty).kind@ != KindView::Unknown,
        ensures
            final(ty)@ == (TypeDefView {
                kind: mapped_kind(self.types@, old(ty).kind@),
                ..old(ty)@
            }),
    {
        match &mut ty.kind {
            TypeDefKind::Record(r) => self.update_fields(&mut r.fields),
            TypeDefKind::Tuple(t) => self.update_types(&mut t.types),
            TypeDefKind::Variant(v) => self.update_cases(&mut v.cases),
            TypeDefKind::Option(t) => self.update_ty(t),
            TypeDefKind::Result(r) => {
                self.update_option(&mut r.ok);
                self.update_option(&mut r.err);
            },
            TypeDefKind::Union(u) => self.update_types(&mut u.cases),
            TypeDefKind::List(t) => self.update_ty(t),
            TypeDefKind::Future(t) => self.update_option(t),
            TypeDefKind::Stream(s) => {
                self.update_option(&mut s.element);
                self.update_option(&mut s.end);
            },
            TypeDefKind::Type(t) => self.update_ty(t),
            // nothing to do for these as they're just names or empty
            TypeDefKind::Flags(_) | TypeDefKind::Enum(_) => {},
            TypeDefKind::Unknown => unreached(),
        }
    }

    /// Renumbers the types that a function refers to.
    pub(crate) fn update_function(&self, func: &mut Function)
        requires
            function_within(old(func)@, self.types@.len()),
        ensures
            final(func)@ == mapped_function(self.types@, old(func)@),
    {
        self.update_params(&mut func.params);
        match &mut func.results {
            Results::Named(named) => self.update_params(named),
            Results::Anon(ty) => self.update_ty(ty),
        }
    }
}

/// Replaces each id in a map by what it is mapped to.
pub(crate) fn update_ids(ids: &Vec<usize>, map: &mut IndexMap<String, usize>)
    requires
        ids_within(old(map).entries(), ids@.len()),
    ensures
        final(map).entries() == mapped_ids(ids@, old(map).entries()),
{
    let ghost before = map.entries();
    let n: usize = names::len(map);
    for i in 0..n
        invariant
            n == before.len(),
            map.entries().len() == before.len(),
            ids_within(before, ids@.len()),
            forall|j: int|
                0 <= j < i ==> #[trigger] map.entries()[j] == (
                    before[j].0,
                    ids@[before[j].1 as int],
                ),
            forall|j: int| i <= j < before.len() ==> #[trigger] map.entries()[j] == before[j],
    {
        assert(before[i as int].1 < ids@.len());
        let id = names::value_mut(map, i);
        *id = ids[*id];
    }
    assert(map.entries() =~= mapped_ids(ids@, before));
}

impl Remap {
    /// Renumbers the types that an interface holds and that its functions refer to. The document
    /// stays as it is: documents are not mapped yet when interfaces are.
    pub(crate) fn update_interface(&self, iface: &mut Interface)
        requires
            ids_within(old(iface)@.types, self.types@.len()),
            functions_within(old(iface)@.functions, self.types@.len()),
        ensures
            final(iface)@ == (InterfaceView {
                types: mapped_ids(self.types@, old(iface)@.types),
                functions: mapped_functions(self.types@, old(iface)@.functions),
                ..old(iface)@
            }),
    {
        update_ids(&self.types, &mut iface.types);
        self.update_functions(&mut iface.functions);
    }

    fn update_functions(&self, functions: &mut IndexMap<String, Function>)
        requires
            functions_within(entry_views(old(functions).entries()), self.types@.len()),
        ensures
            entry_views(final(functions).entries()) == mapped_functions(
                self.types@,
                entry_views(old(functions).entries()),
            ),
    {
        let ghost before = functions.entries();
        let n: usize = names::len(functions);
        for i in 0..n
            invariant
                n == before.len(),
                functions.entries().len() == before.len(),
                functions_within(entry_views(before), self.types@.len()),
                forall|j: int|
                    0 <= j < i ==> (#[trigger] functions.entries()[j]).0 == before[j].0
                        && functions.entries()[j].1@ == mapped_function(
                        self.types@,
                        before[j].1@,
                    ),
                forall|j: int|
                    i <= j < before.len() ==> #[trigger] functions.entries()[j] == before[j],
        {
            assert(function_within(entry_views(before)[i as int].1, self.types@.len()));
            let func = names::value_mut(functions, i);
            self.update_function(func);
        }
        assert(entry_views(functions.entries()) =~= mapped_functions(
            self.types@,
            entry_views(before),
        ));
    }

    /// Renumbers the interfaces and worlds that a document holds. The package stays as it is.
    pub(crate) fn update_document(&self, doc: &mut Document)
        requires
            ids_within(old(doc)@.interfaces, self.interfaces@.len()),
            ids_within(old(doc)@.worlds, self.worlds@.len()),
            old(doc).default_interface matches Some(id) ==> id < self.interfaces@.len(),
            old(doc).default_world matches Some(id) ==> id < self.worlds@.len(),
        ensures
            final(doc)@ == (DocumentView {
                interfaces: mapped_ids(self.interfaces@, old(doc)@.interfaces),
                worlds: mapped_ids(self.worlds@, old(doc)@.worlds),
                default_interface: mapped_id(self.interfaces@, old(doc).default_interface),
                default_world: mapped_id(self.worlds@, old(doc).default_world),
                ..old(doc)@
            }),
    {
        update_ids(&self.interfaces, &mut doc.interfaces);
        update_ids(&self.worlds, &mut doc.worlds);
        if let Some(default) = doc.default_interface {
            doc.default_interface = Some(self.interfaces[default]);
        }
        if let Some(default) = doc.default_world {
            doc.default_world = Some(self.worlds[default]);
        }
    }

    /// Renumbers what a world item refers to.
    pub(crate) fn update_item(&self, item: &mut WorldItem)
        requires
            item_within(old(item)@, self.interfaces@.len(), self.types@.len()),
        ensures
            final(item)@ == mapped_item(self@.item_map(), old(item)@),
    {
        match item {
            WorldItem::Function(f) => self.update_function(f),
            WorldItem::Interface(id) => {
                *id = self.interfaces[*id];
            },
            WorldItem::Type(id) => {
                *id = self.types[*id];
            },
        }
    }

    /// Renumbers what the imports or the exports of a world refer to.
    pub(crate) fn update_items(&self, items: &mut IndexMap<String, WorldItem>)
        requires
            items_within(
                entry_views(old(items).entries()),
                self.interfaces@.len(),
                self.types@.len(),
            ),
        ensures
            entry_views(final(items).entries()) == mapped_items(
                self@.item_map(),
                entry_views(old(items).entries()),
            ),
    {
        let ghost before = items.entries();
        let n: usize = names::len(items);
        for i in 0..n
            invariant
                n == before.len(),
                items.entries().len() == before.len(),
                items_within(entry_views(before), self.interfaces@.len(), self.types@.len()),
                forall|j: int|
                    0 <= j < i ==> (#[trigger] items.entries()[j]).0 == before[j].0
                        && items.entries()[j].1@ == mapped_item(self@.item_map(), before[j].1@),
                forall|j: int|
                    i <= j < before.len() ==> #[trigger] items.entries()[j] == before[j],
        {
            assert(item_within(
                entry_views(before)[i as int].1,
                self.interfaces@.len(),
                self.types@.len(),
            ));
            let item = names::value_mut(items, i);
            self.update_item(item);
        }
        assert(entry_views(items.entries()) =~= mapped_items(
            self@.item_map(),
            entry_views(before),
        ));
    }
}

} // verus!
