//! Matching of the items of one resolve with those of another: which items are two views of the
//! same thing, and which ones are missing.
use indexmap::IndexMap;
use std::collections::HashMap;
use vstd::pervasive::runtime_assert;
use vstd::prelude::*;
use vstd::string::*;

use crate::arena;
use crate::error::{failure, in_context, sentence, Error, ErrorView};
use crate::moving::Known;
use crate::names::{self, find, lemma_find, lemma_find_same, lookup, Entries};
use crate::remap::{ids_within, item_within, items_within};
use crate::resolve::{Resolve, ResolveView};
use crate::types::{
    entry_views, text, DocumentId, InterfaceId, InterfaceView, ItemView, Package, PackageId,
    PackageView, TypeId, WorldId, WorldItem,
};

verus! {

/// An item that is to be listed under a name: the name, the item of the resolve being merged into
/// that lists it, and the item itself in the resolve being merged from.
pub type Addition = (Seq<char>, usize, usize);

/// Which items of the resolve being merged from are found in the resolve being merged into, and
/// which ones have to be listed there.
#[verifier::ext_equal]
pub struct Plan {
    pub packages: Known,
    pub interfaces: Known,
    pub types: Known,
    pub documents: Known,
    pub worlds: Known,
    pub new_documents: Seq<Addition>,
    pub new_interfaces: Seq<Addition>,
    pub new_worlds: Seq<Addition>,
}

/// Why items are not matched.
pub enum Stop {
    /// The two resolves disagree.
    Differs(ErrorView),
    /// An item would be matched twice, which is not allowed.
    Repeated,
}

impl Plan {
    /// Nothing is matched.
    pub open spec fn start() -> Plan {
        Plan {
            packages: Map::empty(),
            interfaces: Map::empty(),
            types: Map::empty(),
            documents: Map::empty(),
            worlds: Map::empty(),
            new_documents: Seq::empty(),
            new_interfaces: Seq::empty(),
            new_worlds: Seq::empty(),
        }
    }

    pub open spec fn with_package(self, from: PackageId, into: PackageId) -> Result<Plan, Stop> {
        if self.packages.contains_key(from) {
            Err(Stop::Repeated)
        } else {
            Ok(Plan { packages: self.packages.insert(from, into), ..self })
        }
    }

    pub open spec fn with_document(self, from: DocumentId, into: DocumentId) -> Result<
        Plan,
        Stop,
    > {
        if self.documents.contains_key(from) {
            Err(Stop::Repeated)
        } else {
            Ok(Plan { documents: self.documents.insert(from, into), ..self })
        }
    }

    pub open spec fn with_interface(self, from: InterfaceId, into: InterfaceId) -> Result<
        Plan,
        Stop,
    > {
        if self.interfaces.contains_key(from) {
            Err(Stop::Repeated)
        } else {
            Ok(Plan { interfaces: self.interfaces.insert(from, into), ..self })
        }
    }

    pub open spec fn with_world(self, from: WorldId, into: WorldId) -> Result<Plan, Stop> {
        if self.worlds.contains_key(from) {
            Err(Stop::Repeated)
        } else {
            Ok(Plan { worlds: self.worlds.insert(from, into), ..self })
        }
    }

    pub open spec fn with_type(self, from: TypeId, into: TypeId) -> Result<Plan, Stop> {
        if self.types.contains_key(from) {
            Err(Stop::Repeated)
        } else {
            Ok(Plan { types: self.types.insert(from, into), ..self })
        }
    }

    pub open spec fn with_new_document(self, addition: Addition) -> Plan {
        Plan { new_documents: self.new_documents.push(addition), ..self }
    }

    pub open spec fn with_new_interface(self, addition: Addition) -> Plan {
        Plan { new_interfaces: self.new_interfaces.push(addition), ..self }
    }

    pub open spec fn with_new_world(self, addition: Addition) -> Plan {
        Plan { new_worlds: self.new_worlds.push(addition), ..self }
    }

    /// Nothing is listed twice under the same name.
    pub open spec fn lists_once(self) -> bool {
        &&& listed_once(self.new_documents)
        &&& listed_once(self.new_interfaces)
        &&& listed_once(self.new_worlds)
    }
}

/// No item lists two others under the same name.
pub open spec fn listed_once(additions: Seq<Addition>) -> bool {
    forall|i: int, j: int|
        #![trigger additions[i], additions[j]]
        0 <= i < j < additions.len() ==> additions[i].0 != additions[j].0 || additions[i].1
            != additions[j].1
}

/// The outcome of one more step.
pub open spec fn step_of(result: Result<Plan, Stop>, step: Seq<char>) -> Result<Plan, Stop> {
    match result {
        Err(Stop::Differs(error)) => Err(Stop::Differs(in_context(error, step))),
        result => result,
    }
}

/// Matches the first `n` types of an interface by name.
pub open spec fn matched_types(
    plan: Plan,
    from: InterfaceView,
    into: InterfaceView,
    n: nat,
) -> Result<Plan, Stop>
    decreases n,
{
    if n == 0 {
        Ok(plan)
    } else {
        match matched_types(plan, from, into, (n - 1) as nat) {
            Err(stop) => Err(stop),
            Ok(plan) => {
                let (name, id) = from.types[n - 1];
                match lookup(into.types, name) {
                    None => Err(
                        Stop::Differs(
                            failure("expected type `"@ + name + "` to be present"@),
                        ),
                    ),
                    Some(other) => plan.with_type(id, other),
                }
            },
        }
    }
}

/// Matches the first `n` functions of an interface by name.
pub open spec fn matched_functions(
    plan: Plan,
    from: InterfaceView,
    into: InterfaceView,
    n: nat,
) -> Result<Plan, Stop>
    decreases n,
{
    if n == 0 {
        Ok(plan)
    } else {
        match matched_functions(plan, from, into, (n - 1) as nat) {
            Err(stop) => Err(stop),
            Ok(plan) => {
                let name = from.functions[n - 1].0;
                if find(into.functions, name).is_none() {
                    Err(Stop::Differs(failure("expected function `"@ + name + "` to be present"@)))
                } else {
                    Ok(plan)
                }
            },
        }
    }
}

/// Matches an interface with another one, which has to hold all that it holds.
pub open spec fn matched_interface(
    plan: Plan,
    from: ResolveView,
    into: ResolveView,
    from_id: InterfaceId,
    into_id: InterfaceId,
) -> Result<Plan, Stop> {
    let from_interface = from.interfaces[from_id as int];
    let into_interface = into.interfaces[into_id as int];
    match plan.with_interface(from_id, into_id) {
        Err(stop) => Err(stop),
        Ok(plan) => match matched_types(
            plan,
            from_interface,
            into_interface,
            from_interface.types.len(),
        ) {
            Err(stop) => Err(stop),
            Ok(plan) => matched_functions(
                plan,
                from_interface,
                into_interface,
                from_interface.functions.len(),
            ),
        },
    }
}

/// Matches what two worlds hold under the same name. Interfaces that have a name must have been
/// matched before.
pub open spec fn matched_item(
    plan: Plan,
    from: ResolveView,
    into: ResolveView,
    from_item: ItemView,
    into_item: ItemView,
) -> Result<Plan, Stop> {
    match (from_item, into_item) {
        (ItemView::Interface(from_id), ItemView::Interface(into_id)) => {
            if from.interfaces[from_id as int].name.is_none()
                && into.interfaces[into_id as int].name.is_none() {
                matched_interface(plan, from, into, from_id, into_id)
            } else if plan.interfaces.contains_key(from_id) && plan.interfaces[from_id]
                == into_id {
                Ok(plan)
            } else {
                Err(Stop::Differs(failure("interfaces are not the same"@)))
            }
        },
        (ItemView::Function(_), ItemView::Function(_)) => Ok(plan),
        (ItemView::Type(from_id), ItemView::Type(into_id)) => plan.with_type(from_id, into_id),
        _ => Err(Stop::Differs(failure("world items do not have the same type"@))),
    }
}

/// Matches the first `n` imports or exports of a world by name. `desc` says which of the two.
pub open spec fn matched_items(
    plan: Plan,
    from: ResolveView,
    into: ResolveView,
    desc: Seq<char>,
    from_items: Seq<(Seq<char>, ItemView)>,
    into_items: Seq<(Seq<char>, ItemView)>,
    n: nat,
) -> Result<Plan, Stop>
    decreases n,
{
    if n == 0 {
        Ok(plan)
    } else {
        match matched_items(plan, from, into, desc, from_items, into_items, (n - 1) as nat) {
            Err(stop) => Err(stop),
            Ok(plan) => {
                let (name, item) = from_items[n - 1];
                match lookup(into_items, name) {
                    None => Err(
                        Stop::Differs(
                            failure(desc + " `"@ + name + "` not found in target world"@),
                        ),
                    ),
                    Some(other) => step_of(
                        matched_item(plan, from, into, item, other),
                        desc + " `"@ + name + "` didn't match target world"@,
                    ),
                }
            },
        }
    }
}

/// Matches a world with another one, which has to import and export the same.
pub open spec fn matched_world(
    plan: Plan,
    from: ResolveView,
    into: ResolveView,
    from_id: WorldId,
    into_id: WorldId,
) -> Result<Plan, Stop> {
    let from_world = from.worlds[from_id as int];
    let into_world = into.worlds[into_id as int];
    match plan.with_world(from_id, into_id) {
        Err(stop) => Err(stop),
        Ok(plan) => if from_world.imports.len() != into_world.imports.len() {
            Err(
                Stop::Differs(
                    failure("world contains different number of imports than expected"@),
                ),
            )
        } else if from_world.exports.len() != into_world.exports.len() {
            Err(
                Stop::Differs(
                    failure("world contains different number of exports than expected"@),
                ),
            )
        } else {
            match matched_items(
                plan,
                from,
                into,
                "import"@,
                from_world.imports,
                into_world.imports,
                from_world.imports.len(),
            ) {
                Err(stop) => Err(stop),
                Ok(plan) => matched_items(
                    plan,
                    from,
                    into,
                    "export"@,
                    from_world.exports,
                    into_world.exports,
                    from_world.exports.len(),
                ),
            }
        },
    }
}

/// Matches the first `n` interfaces of a document by name. Those that are missing are queued.
pub open spec fn matched_document_interfaces(
    plan: Plan,
    from: ResolveView,
    into: ResolveView,
    from_id: DocumentId,
    into_id: DocumentId,
    n: nat,
) -> Result<Plan, Stop>
    decreases n,
{
    if n == 0 {
        Ok(plan)
    } else {
        match matched_document_interfaces(plan, from, into, from_id, into_id, (n - 1) as nat) {
            Err(stop) => Err(stop),
            Ok(plan) => {
                let (name, id) = from.documents[from_id as int].interfaces[n - 1];
                match lookup(into.documents[into_id as int].interfaces, name) {
                    None => Ok(plan.with_new_interface((name, into_id, id))),
                    Some(other) => step_of(
                        matched_interface(plan, from, into, id, other),
                        "failed to merge interface `"@ + name + "`"@,
                    ),
                }
            },
        }
    }
}

/// Matches the first `n` worlds of a document by name. Those that are missing are queued.
pub open spec fn matched_document_worlds(
    plan: Plan,
    from: ResolveView,
    into: ResolveView,
    from_id: DocumentId,
    into_id: DocumentId,
    n: nat,
) -> Result<Plan, Stop>
    decreases n,
{
    if n == 0 {
        Ok(plan)
    } else {
        match matched_document_worlds(plan, from, into, from_id, into_id, (n - 1) as nat) {
            Err(stop) => Err(stop),
            Ok(plan) => {
                let (name, id) = from.documents[from_id as int].worlds[n - 1];
                match lookup(into.documents[into_id as int].worlds, name) {
                    None => Ok(plan.with_new_world((name, into_id, id))),
                    Some(other) => step_of(
                        matched_world(plan, from, into, id, other),
                        "failed to merge world `"@ + name + "`"@,
                    ),
                }
            },
        }
    }
}

/// Matches a document with another one.
pub open spec fn matched_document(
    plan: Plan,
    from: ResolveView,
    into: ResolveView,
    from_id: DocumentId,
    into_id: DocumentId,
) -> Result<Plan, Stop> {
    match plan.with_document(from_id, into_id) {
        Err(stop) => Err(stop),
        Ok(plan) => match matched_document_interfaces(
            plan,
            from,
            into,
            from_id,
            into_id,
            from.documents[from_id as int].interfaces.len(),
        ) {
            Err(stop) => Err(stop),
            Ok(plan) => matched_document_worlds(
                plan,
                from,
                into,
                from_id,
                into_id,
                from.documents[from_id as int].worlds.len(),
            ),
        },
    }
}

/// Matches the first `n` documents of a package by name. Those that are missing are queued.
pub open spec fn matched_documents(
    plan: Plan,
    from: ResolveView,
    into: ResolveView,
    from_id: PackageId,
    into_id: PackageId,
    n: nat,
) -> Result<Plan, Stop>
    decreases n,
{
    if n == 0 {
        Ok(plan)
    } else {
        match matched_documents(plan, from, into, from_id, into_id, (n - 1) as nat) {
            Err(stop) => Err(stop),
            Ok(plan) => {
                let (name, id) = from.packages[from_id as int].documents[n - 1];
                match lookup(into.packages[into_id as int].documents, name) {
                    None => Ok(plan.with_new_document((name, into_id, id))),
                    Some(other) => step_of(
                        matched_document(plan, from, into, id, other),
                        "failed to merge document `"@ + name + "` into existing copy"@,
                    ),
                }
            },
        }
    }
}

/// Matches a package with another one.
pub open spec fn matched_package(
    plan: Plan,
    from: ResolveView,
    into: ResolveView,
    from_id: PackageId,
    into_id: PackageId,
) -> Result<Plan, Stop> {
    match plan.with_package(from_id, into_id) {
        Err(stop) => Err(stop),
        Ok(plan) => matched_documents(
            plan,
            from,
            into,
            from_id,
            into_id,
            from.packages[from_id as int].documents.len(),
        ),
    }
}

/// Two packages have the same name and the same URL. One without a URL is like no other.
pub open spec fn same_package(a: PackageView, b: PackageView) -> bool {
    a.url.is_some() && a.name == b.name && a.url == b.url
}

/// The first of `n` packages that is the same as a given one.
pub open spec fn find_package(packages: Seq<PackageView>, package: PackageView, n: nat) -> Option<
    int,
>
    decreases n,
{
    if n == 0 {
        None
    } else {
        match find_package(packages, package, (n - 1) as nat) {
            Some(i) => Some(i),
            None => if same_package(package, packages[n - 1]) {
                Some(n - 1)
            } else {
                None
            },
        }
    }
}

/// Matches the first `n` packages by name and URL.
pub open spec fn matched_packages(plan: Plan, from: ResolveView, into: ResolveView, n: nat) -> Result<
    Plan,
    Stop,
>
    decreases n,
{
    if n == 0 {
        Ok(plan)
    } else {
        match matched_packages(plan, from, into, (n - 1) as nat) {
            Err(stop) => Err(stop),
            Ok(plan) => match find_package(
                into.packages,
                from.packages[n - 1],
                into.packages.len(),
            ) {
                None => Ok(plan),
                Some(i) => step_of(
                    matched_package(plan, from, into, (n - 1) as usize, i as usize),
                    "failed to merge package `"@ + from.packages[n - 1].name
                        + "` into existing copy"@,
                ),
            },
        }
    }
}

/// Matches all that two resolves have in common.
pub open spec fn matched(from: ResolveView, into: ResolveView) -> Result<Plan, Stop> {
    matched_packages(Plan::start(), from, into, from.packages.len())
}

/// The first of `n` packages that is the same as one before it.
pub open spec fn first_duplicate(packages: Seq<PackageView>, n: nat) -> Option<int>
    decreases n,
{
    if n == 0 {
        None
    } else {
        match first_duplicate(packages, (n - 1) as nat) {
            Some(i) => Some(i),
            None => if find_package(packages, packages[n - 1], (n - 1) as nat).is_some() {
                Some(n - 1)
            } else {
                None
            },
        }
    }
}

/// An item that is to be listed, before it is.
pub type NewItem = (String, usize, usize);

/// The items that are to be listed, each with the characters of its name.
pub open spec fn additions(items: Seq<NewItem>) -> Seq<Addition> {
    Seq::new(items.len(), |i: int| (items[i].0@, items[i].1, items[i].2))
}

proof fn lemma_additions_push(items: Seq<NewItem>, item: NewItem)
    ensures
        additions(items.push(item)) == additions(items).push((item.0@, item.1, item.2)),
{
    assert(additions(items.push(item)) =~= additions(items).push((item.0@, item.1, item.2)));
}

/// What an attempt to match returns, and what it leaves.
pub open spec fn agrees(
    result: Result<(), Error>,
    plan: Plan,
    expected: Result<Plan, Stop>,
) -> bool {
    match (result, expected) {
        (Ok(_), Ok(expected)) => plan == expected,
        (Err(error), Err(Stop::Differs(expected))) => error@ == expected,
        _ => false,
    }
}

pub(crate) struct MergeMap<'a> {
    /// A map of package ids in `from` to those in `into` for those that are found to be
    /// equivalent.
    pub(crate) package_map: HashMap<PackageId, PackageId>,
    /// A map of interface ids in `from` to those in `into` for those that are found to be
    /// equivalent.
    pub(crate) interface_map: HashMap<InterfaceId, InterfaceId>,
    /// A map of type ids in `from` to those in `into` for those that are found to be equivalent.
    pub(crate) type_map: HashMap<TypeId, TypeId>,
    /// A map of document ids in `from` to those in `into` for those that are found to be
    /// equivalent.
    pub(crate) doc_map: HashMap<DocumentId, DocumentId>,
    /// A map of world ids in `from` to those in `into` for those that are found to be equivalent.
    pub(crate) world_map: HashMap<WorldId, WorldId>,
    /// A list of documents that need to be added to packages in `into`.
    ///
    /// The elements here are:
    ///
    /// * The name of the document
    /// * The ID within `into` of the package being added to
    /// * The ID within `from` of the document being added.
    pub(crate) documents_to_add: Vec<NewItem>,
    pub(crate) interfaces_to_add: Vec<NewItem>,
    pub(crate) worlds_to_add: Vec<NewItem>,
    /// Which `Resolve` is being merged from.
    pub(crate) from: &'a Resolve,
    /// Which `Resolve` is being merged into.
    pub(crate) into: &'a Resolve,
}

impl<'a> View for MergeMap<'a> {
    type V = Plan;

    open(crate) spec fn view(&self) -> Plan {
        Plan {
            packages: self.package_map@,
            interfaces: self.interface_map@,
            types: self.type_map@,
            documents: self.doc_map@,
            worlds: self.world_map@,
            new_documents: additions(self.documents_to_add@),
            new_interfaces: additions(self.interfaces_to_add@),
            new_worlds: additions(self.worlds_to_add@),
        }
    }
}

proof fn lemma_matched_types_stops(
    plan: Plan,
    from: InterfaceView,
    into: InterfaceView,
    m: nat,
    n: nat,
)
    requires
        m <= n,
    ensures
        matched_types(plan, from, into, m).is_err() ==> matched_types(plan, from, into, n)
            == matched_types(plan, from, into, m),
    decreases n - m,
{
    if m < n {
        lemma_matched_types_stops(plan, from, into, m, (n - 1) as nat);
    }
}

proof fn lemma_matched_functions_stops(
    plan: Plan,
    from: InterfaceView,
    into: InterfaceView,
    m: nat,
    n: nat,
)
    requires
        m <= n,
    ensures
        matched_functions(plan, from, into, m).is_err() ==> matched_functions(plan, from, into, n)
            == matched_functions(plan, from, into, m),
    decreases n - m,
{
    if m < n {
        lemma_matched_functions_stops(plan, from, into, m, (n - 1) as nat);
    }
}

proof fn lemma_matched_items_stops(
    plan: Plan,
    from: ResolveView,
    into: ResolveView,
    desc: Seq<char>,
    from_items: Seq<(Seq<char>, ItemView)>,
    into_items: Seq<(Seq<char>, ItemView)>,
    m: nat,
    n: nat,
)
    requires
        m <= n,
    ensures
        matched_items(plan, from, into, desc, from_items, into_items, m).is_err()
            ==> matched_items(
                plan,
                from,
                into,
                desc,
                from_items,
                into_items,
                n,
            ) == matched_items(
                plan,
                from,
                into,
                desc,
                from_items,
                into_items,
                m,
            ),
    decreases n - m,
{
    if m < n {
        lemma_matched_items_stops(
            plan,
            from,
            into,
            desc,
            from_items,
            into_items,
            m,
            (n - 1) as nat,
        );
    }
}

proof fn lemma_matched_document_interfaces_stops(
    plan: Plan,
    from: ResolveView,
    into: ResolveView,
    from_id: DocumentId,
    into_id: DocumentId,
    m: nat,
    n: nat,
)
    requires
        m <= n,
    ensures
        matched_document_interfaces(plan, from, into, from_id, into_id, m).is_err()
            ==> matched_document_interfaces(
                plan,
                from,
                into,
                from_id,
                into_id,
                n,
            ) == matched_document_interfaces(
                plan,
                from,
                into,
                from_id,
                into_id,
                m,
            ),
    decreases n - m,
{
    if m < n {
        lemma_matched_document_interfaces_stops(
            plan,
            from,
            into,
            from_id,
            into_id,
            m,
            (n - 1) as nat,
        );
    }
}

proof fn lemma_matched_document_worlds_stops(
    plan: Plan,
    from: ResolveView,
    into: ResolveView,
    from_id: DocumentId,
    into_id: DocumentId,
    m: nat,
    n: nat,
)
    requires
        m <= n,
    ensures
        matched_document_worlds(plan, from, into, from_id, into_id, m).is_err()
            ==> matched_document_worlds(
                plan,
                from,
                into,
                from_id,
                into_id,
                n,
            ) == matched_document_worlds(
                plan,
                from,
                into,
                from_id,
                into_id,
                m,
            ),
    decreases n - m,
{
    if m < n {
        lemma_matched_document_worlds_stops(plan, from, into, from_id, into_id, m, (n - 1) as nat);
    }
}

proof fn lemma_matched_documents_stops(
    plan: Plan,
    from: ResolveView,
    into: ResolveView,
    from_id: PackageId,
    into_id: PackageId,
    m: nat,
    n: nat,
)
    requires
        m <= n,
    ensures
        matched_documents(plan, from, into, from_id, into_id, m).is_err()
            ==> matched_documents(
                plan,
                from,
                into,
                from_id,
                into_id,
                n,
            ) == matched_documents(
                plan,
                from,
                into,
                from_id,
                into_id,
                m,
            ),
    decreases n - m,
{
    if m < n {
        lemma_matched_documents_stops(plan, from, into, from_id, into_id, m, (n - 1) as nat);
    }
}

proof fn lemma_matched_packages_stops(
    plan: Plan,
    from: ResolveView,
    into: ResolveView,
    m: nat,
    n: nat,
)
    requires
        m <= n,
    ensures
        matched_packages(plan, from, into, m).is_err() ==> matched_packages(plan, from, into, n)
            == matched_packages(plan, from, into, m),
    decreases n - m,
{
    if m < n {
        lemma_matched_packages_stops(plan, from, into, m, (n - 1) as nat);
    }
}

impl<'a> MergeMap<'a> {
    /// The same two resolves are being merged.
    spec fn same_resolves(&self, other: &Self) -> bool {
        self.from == other.from && self.into == other.into
    }

    fn build_interface(&mut self, from_id: InterfaceId, into_id: InterfaceId) -> (result: Result<
        (),
        Error,
    >)
        requires
            from_id < old(self).from@.interfaces.len(),
            into_id < old(self).into@.interfaces.len(),
            matched_interface(
                old(self)@,
                old(self).from@,
                old(self).into@,
                from_id,
                into_id,
            ) != Err::<Plan, Stop>(Stop::Repeated),
        ensures
            final(self).same_resolves(old(self)),
            agrees(
                result,
                final(self)@,
                matched_interface(
                    old(self)@,
                    old(self).from@,
                    old(self).into@,
                    from_id,
                    into_id,
                ),
            ),
    {
        broadcast use vstd::std_specs::hash::group_hash_axioms;

        let ghost start = self@;
        let prev = self.interface_map.insert(from_id, into_id);
        runtime_assert(prev.is_none());
        let ghost paired = start.with_interface(from_id, into_id)->Ok_0;
        assert(self@ =~= paired);

        let from_interface = arena::item(&self.from.interfaces, from_id);
        let into_interface = arena::item(&self.into.interfaces, into_id);
        let ghost from = from_interface@;
        let ghost into = into_interface@;
        assert(from == self.from@.interfaces[from_id as int]);
        assert(into == self.into@.interfaces[into_id as int]);

        let n: usize = names::len(&from_interface.types);
        for i in 0..n
            invariant
                n == from_interface.types.entries().len(),
                from == from_interface@,
                into == into_interface@,
                self.same_resolves(old(self)),
                matched_types(paired, from, into, n as nat) != Err::<Plan, Stop>(Stop::Repeated),
                matched_types(paired, from, into, i as nat) == Ok::<Plan, Stop>(self@),
                matched_types(paired, from, into, n as nat) matches Err(stop)
                    ==> matched_interface(
                    old(self)@,
                    old(self).from@,
                    old(self).into@,
                    from_id,
                    into_id,
                ) == Err::<Plan, Stop>(stop),
        {
            let (name, from_type_id) = names::entry(&from_interface.types, i);
            let ghost before = self@;
            proof {
                lemma_matched_types_stops(paired, from, into, (i + 1) as nat, n as nat);
                assert(from.types[i as int] == (name@, *from_type_id));
            }
            match names::get(&into_interface.types, name.as_str()) {
                None => {
                    let msg = sentence("expected type `", name.as_str(), "` to be present");
                    return Err(Error::new(msg));
                },
                Some(into_type_id) => {
                    assert(lookup(into.types, name@) == Some(*into_type_id));
                    let prev = self.type_map.insert(*from_type_id, *into_type_id);
                    runtime_assert(prev.is_none());
                    assert(Ok::<Plan, Stop>(self@) == before.with_type(
                        *from_type_id,
                        *into_type_id,
                    ));
                },
            }
        }

        let ghost typed = self@;
        let n: usize = names::len(&from_interface.functions);
        for i in 0..n
            invariant
                n == from_interface.functions.entries().len(),
                from == from_interface@,
                into == into_interface@,
                self.same_resolves(old(self)),
                self@ == typed,
                matched_functions(typed, from, into, i as nat) == Ok::<Plan, Stop>(typed),
                matched_functions(typed, from, into, n as nat) == matched_interface(
                    old(self)@,
                    old(self).from@,
                    old(self).into@,
                    from_id,
                    into_id,
                ),
        {
            let (name, _) = names::entry(&from_interface.functions, i);
            proof {
                lemma_matched_functions_stops(typed, from, into, (i + 1) as nat, n as nat);
                assert(from.functions[i as int].0 == name@);
                lemma_find_same(into_interface.functions.entries(), into.functions, name@);
            }
            if !names::has_function(&into_interface.functions, name.as_str()) {
                let msg = sentence("expected function `", name.as_str(), "` to be present");
                return Err(Error::new(msg));
            }
        }
        Ok(())
    }

    fn match_world_item(&mut self, from: &WorldItem, into: &WorldItem) -> (result: Result<
        (),
        Error,
    >)
        requires
            item_within(
                from@,
                old(self).from@.interfaces.len(),
                old(self).from@.types.len(),
            ),
            item_within(
                into@,
                old(self).into@.interfaces.len(),
                old(self).into@.types.len(),
            ),
            matched_item(old(self)@, old(self).from@, old(self).into@, from@, into@) != Err::<
                Plan,
                Stop,
            >(Stop::Repeated),
        ensures
            final(self).same_resolves(old(self)),
            agrees(
                result,
                final(self)@,
                matched_item(old(self)@, old(self).from@, old(self).into@, from@, into@),
            ),
    {
        broadcast use vstd::std_specs::hash::group_hash_axioms;

        let ghost start = self@;
        match (from, into) {
            (WorldItem::Interface(from_id), WorldItem::Interface(into_id)) => {
                let from_interface = arena::item(&self.from.interfaces, *from_id);
                let into_interface = arena::item(&self.into.interfaces, *into_id);
                assert(self.from@.interfaces[*from_id as int] == from_interface@);
                assert(self.into@.interfaces[*into_id as int] == into_interface@);
                // If one interface is unnamed then they must both be unnamed and they must both
                // have the same structure for now.
                if from_interface.name.is_none() && into_interface.name.is_none() {
                    return self.build_interface(*from_id, *into_id);
                }
                // Otherwise both interfaces must be named and they must have been previously
                // found to be equivalent. Note that if either is unnamed it won't be present in
                // `interface_map` so this'll return an error.

                match self.interface_map.get(from_id) {
                    Some(id) if *id == *into_id => {},
                    _ => {
                        return Err(Error::new("interfaces are not the same".to_owned()));
                    },
                }
            },
            (WorldItem::Function(_), WorldItem::Function(_)) => {},
            (WorldItem::Type(from_id), WorldItem::Type(into_id)) => {
                let prev = self.type_map.insert(*from_id, *into_id);
                runtime_assert(prev.is_none());
                assert(Ok::<Plan, Stop>(self@) == start.with_type(*from_id, *into_id));
            },
            _ => {
                return Err(Error::new("world items do not have the same type".to_owned()));
            },
        }
        Ok(())
    }

    /// Matches the imports or the exports of a world, as `desc` says.
    fn match_world_items(
        &mut self,
        desc: &str,
        from_items: &IndexMap<String, WorldItem>,
        into_items: &IndexMap<String, WorldItem>,
    ) -> (result: Result<(), Error>)
        requires
            items_within(
                entry_views(from_items.entries()),
                old(self).from@.interfaces.len(),
                old(self).from@.types.len(),
            ),
            items_within(
                entry_views(into_items.entries()),
                old(self).into@.interfaces.len(),
                old(self).into@.types.len(),
            ),
            matched_items(
                old(self)@,
                old(self).from@,
                old(self).into@,
                desc@,
                entry_views(from_items.entries()),
                entry_views(into_items.entries()),
                from_items.entries().len(),
            ) != Err::<Plan, Stop>(Stop::Repeated),
        ensures
            final(self).same_resolves(old(self)),
            agrees(
                result,
                final(self)@,
                matched_items(
                    old(self)@,
                    old(self).from@,
                    old(self).into@,
                    desc@,
                    entry_views(from_items.entries()),
                    entry_views(into_items.entries()),
                    from_items.entries().len(),
                ),
            ),
    {
        let ghost start = self@;
        let ghost from = self.from@;
        let ghost into = self.into@;
        let ghost from_view = entry_views(from_items.entries());
        let ghost into_view = entry_views(into_items.entries());
        let n: usize = names::len(from_items);
        for i in 0..n
            invariant
                n == from_items.entries().len(),
                from == self.from@,
                into == self.into@,
                self.same_resolves(old(self)),
                start == old(self)@,
                from_view == entry_views(from_items.entries()),
                into_view == entry_views(into_items.entries()),
                items_within(from_view, from.interfaces.len(), from.types.len()),
                items_within(into_view, into.interfaces.len(), into.types.len()),
                matched_items(start, from, into, desc@, from_view, into_view, n as nat) != Err::<
                    Plan,
                    Stop,
                >(Stop::Repeated),
                matched_items(start, from, into, desc@, from_view, into_view, i as nat) == Ok::<
                    Plan,
                    Stop,
                >(self@),
        {
            let (name, from_item) = names::entry(from_items, i);
            proof {
                lemma_matched_items_stops(
                    start,
                    from,
                    into,
                    desc@,
                    from_view,
                    into_view,
                    (i + 1) as nat,
                    n as nat,
                );
                assert(from_view[i as int] == (name@, from_item@));
                lemma_find_same(into_items.entries(), into_view, name@);
                lemma_find(into_view, name@);
            }
            match names::get(into_items, name.as_str()) {
                None => {
                    let mut msg = sentence(desc, " `", name.as_str());
                    msg.append("` not found in target world");
                    return Err(Error::new(msg));
                },
                Some(into_item) => {
                    proof {
                        let j = find(into_view, name@).unwrap();
                        assert(into_view[j].1 == into_item@);
                    }
                    if let Err(error) = self.match_world_item(from_item, into_item) {
                        let mut step = sentence(desc, " `", name.as_str());
                        step.append("` didn't match target world");
                        return Err(error.within(step));
                    }
                },
            }
        }
        Ok(())
    }

    fn build_world(&mut self, from_id: WorldId, into_id: WorldId) -> (result: Result<(), Error>)
        requires
            old(self).from@.usable(),
            old(self).into@.usable(),
            from_id < old(self).from@.worlds.len(),
            into_id < old(self).into@.worlds.len(),
            matched_world(old(self)@, old(self).from@, old(self).into@, from_id, into_id) != Err::<
                Plan,
                Stop,
            >(Stop::Repeated),
        ensures
            final(self).same_resolves(old(self)),
            agrees(
                result,
                final(self)@,
                matched_world(old(self)@, old(self).from@, old(self).into@, from_id, into_id),
            ),
    {
        broadcast use vstd::std_specs::hash::group_hash_axioms;

        let ghost start = self@;
        let prev = self.world_map.insert(from_id, into_id);
        runtime_assert(prev.is_none());
        assert(Ok::<Plan, Stop>(self@) == start.with_world(from_id, into_id));

        let from_world = arena::item(&self.from.worlds, from_id);
        let into_world = arena::item(&self.into.worlds, into_id);
        assert(from_world@ == self.from@.worlds[from_id as int]);
        assert(into_world@ == self.into@.worlds[into_id as int]);
        assert(self.from@.world_usable(from_id as int));
        assert(self.into@.world_usable(into_id as int));

        if names::len(&from_world.imports) != names::len(&into_world.imports) {
            return Err(
                Error::new("world contains different number of imports than expected".to_owned()),
            );
        }
        if names::len(&from_world.exports) != names::len(&into_world.exports) {
            return Err(
                Error::new("world contains different number of exports than expected".to_owned()),
            );
        }
        if let Err(error) = self.match_world_items(
            "import",
            &from_world.imports,
            &into_world.imports,
        ) {
            return Err(error);
        }
        self.match_world_items("export", &from_world.exports, &into_world.exports)
    }
    /// Matches the interfaces of a document. Like documents, one that is present in `from_id` but
    /// not present in `into_id` can be copied over wholesale. That copy is scheduled to happen
    /// within the `interfaces_to_add` list.
    fn build_document_interfaces(&mut self, from_id: DocumentId, into_id: DocumentId) -> (result:
        Result<(), Error>)
        requires
            old(self).from@.usable(),
            old(self).into@.usable(),
            from_id < old(self).from@.documents.len(),
            into_id < old(self).into@.documents.len(),
            matched_document_interfaces(
                old(self)@,
                old(self).from@,
                old(self).into@,
                from_id,
                into_id,
                old(self).from@.documents[from_id as int].interfaces.len(),
            ) != Err::<Plan, Stop>(Stop::Repeated),
        ensures
            final(self).same_resolves(old(self)),
            agrees(
                result,
                final(self)@,
                matched_document_interfaces(
                    old(self)@,
                    old(self).from@,
                    old(self).into@,
                    from_id,
                    into_id,
                    old(self).from@.documents[from_id as int].interfaces.len(),
                ),
            ),
    {
        let ghost start = self@;
        let ghost from = self.from@;
        let ghost into = self.into@;
        let from_doc = arena::item(&self.from.documents, from_id);
        let into_doc = arena::item(&self.into.documents, into_id);
        assert(from_doc@ == from.documents[from_id as int]);
        assert(into_doc@ == into.documents[into_id as int]);
        assert(from.document_valid(from_id as int));
        assert(into.document_valid(into_id as int));
        let n: usize = names::len(&from_doc.interfaces);
        for i in 0..n
            invariant
                n == from_doc.interfaces.entries().len(),
                from == self.from@,
                into == self.into@,
                from.usable(),
                into.usable(),
                self.same_resolves(old(self)),
                start == old(self)@,
                from_doc@ == from.documents[from_id as int],
                into_doc@ == into.documents[into_id as int],
                ids_within(from_doc@.interfaces, from.interfaces.len()),
                ids_within(into_doc@.interfaces, into.interfaces.len()),
                matched_document_interfaces(start, from, into, from_id, into_id, n as nat) != Err::<
                    Plan,
                    Stop,
                >(Stop::Repeated),
                matched_document_interfaces(start, from, into, from_id, into_id, i as nat) == Ok::<
                    Plan,
                    Stop,
                >(self@),
        {
            let (name, from_interface_id) = names::entry(&from_doc.interfaces, i);
            let ghost before = self@;
            proof {
                lemma_matched_document_interfaces_stops(
                    start,
                    from,
                    into,
                    from_id,
                    into_id,
                    (i + 1) as nat,
                    n as nat,
                );
                assert(from_doc@.interfaces[i as int] == (name@, *from_interface_id));
                lemma_find(into_doc@.interfaces, name@);
            }
            match names::get(&into_doc.interfaces, name.as_str()) {
                None => {
                    let ghost queued = self.interfaces_to_add@;
                    self.interfaces_to_add.push((name.clone(), into_id, *from_interface_id));
                    proof {
                        lemma_additions_push(queued, self.interfaces_to_add@.last());
                        assert(self@ =~= before.with_new_interface(
                            (name@, into_id, *from_interface_id),
                        ));
                    }
                },
                Some(into_interface_id) => {
                    if let Err(error) = self.build_interface(*from_interface_id, *into_interface_id) {
                        let step = sentence("failed to merge interface `", name.as_str(), "`");
                        return Err(error.within(step));
                    }
                },
            }
        }
        Ok(())
    }

    /// Matches the worlds of a document. Like documents, one that is present in `from_id` but not
    /// present in `into_id` can be copied over wholesale. That copy is scheduled to happen within
    /// the `worlds_to_add` list.
    fn build_document_worlds(&mut self, from_id: DocumentId, into_id: DocumentId) -> (result:
        Result<(), Error>)
        requires
            old(self).from@.usable(),
            old(self).into@.usable(),
            from_id < old(self).from@.documents.len(),
            into_id < old(self).into@.documents.len(),
            matched_document_worlds(
                old(self)@,
                old(self).from@,
                old(self).into@,
                from_id,
                into_id,
                old(self).from@.documents[from_id as int].worlds.len(),
            ) != Err::<Plan, Stop>(Stop::Repeated),
        ensures
            final(self).same_resolves(old(self)),
            agrees(
                result,
                final(self)@,
                matched_document_worlds(
                    old(self)@,
                    old(self).from@,
                    old(self).into@,
                    from_id,
                    into_id,
                    old(self).from@.documents[from_id as int].worlds.len(),
                ),
            ),
    {
        let ghost start = self@;
        let ghost from = self.from@;
        let ghost into = self.into@;
        let from_doc = arena::item(&self.from.documents, from_id);
        let into_doc = arena::item(&self.into.documents, into_id);
        assert(from_doc@ == from.documents[from_id as int]);
        assert(into_doc@ == into.documents[into_id as int]);
        assert(from.document_valid(from_id as int));
        assert(into.document_valid(into_id as int));
        let n: usize = names::len(&from_doc.worlds);
        for i in 0..n
            invariant
                n == from_doc.worlds.entries().len(),
                from == self.from@,
                into == self.into@,
                from.usable(),
                into.usable(),
                self.same_resolves(old(self)),
                start == old(self)@,
                from_doc@ == from.documents[from_id as int],
                into_doc@ == into.documents[into_id as int],
                ids_within(from_doc@.worlds, from.worlds.len()),
                ids_within(into_doc@.worlds, into.worlds.len()),
                matched_document_worlds(start, from, into, from_id, into_id, n as nat) != Err::<
                    Plan,
                    Stop,
                >(Stop::Repeated),
                matched_document_worlds(start, from, into, from_id, into_id, i as nat) == Ok::<
                    Plan,
                    Stop,
                >(self@),
        {
            let (name, from_world_id) = names::entry(&from_doc.worlds, i);
            let ghost before = self@;
            proof {
                lemma_matched_document_worlds_stops(
                    start,
                    from,
                    into,
                    from_id,
                    into_id,
                    (i + 1) as nat,
                    n as nat,
                );
                assert(from_doc@.worlds[i as int] == (name@, *from_world_id));
                lemma_find(into_doc@.worlds, name@);
            }
            match names::get(&into_doc.worlds, name.as_str()) {
                None => {
                    let ghost queued = self.worlds_to_add@;
                    self.worlds_to_add.push((name.clone(), into_id, *from_world_id));
                    proof {
                        lemma_additions_push(queued, self.worlds_to_add@.last());
                        assert(self@ =~= before.with_new_world((name@, into_id, *from_world_id)));
                    }
                },
                Some(into_world_id) => {
                    if let Err(error) = self.build_world(*from_world_id, *into_world_id) {
                        let step = sentence("failed to merge world `", name.as_str(), "`");
                        return Err(error.within(step));
                    }
                },
            }
        }
        Ok(())
    }

    fn build_document(&mut self, from_id: DocumentId, into_id: DocumentId) -> (result: Result<
        (),
        Error,
    >)
        requires
            old(self).from@.usable(),
            old(self).into@.usable(),
            from_id < old(self).from@.documents.len(),
            into_id < old(self).into@.documents.len(),
            matched_document(
                old(self)@,
                old(self).from@,
                old(self).into@,
                from_id,
                into_id,
            ) != Err::<Plan, Stop>(Stop::Repeated),
        ensures
            final(self).same_resolves(old(self)),
            agrees(
                result,
                final(self)@,
                matched_document(
                    old(self)@,
                    old(self).from@,
                    old(self).into@,
                    from_id,
                    into_id,
                ),
            ),
    {
        broadcast use vstd::std_specs::hash::group_hash_axioms;

        let ghost start = self@;
        let prev = self.doc_map.insert(from_id, into_id);
        runtime_assert(prev.is_none());
        assert(Ok::<Plan, Stop>(self@) == start.with_document(from_id, into_id));
        if let Err(error) = self.build_document_interfaces(from_id, into_id) {
            return Err(error);
        }
        self.build_document_worlds(from_id, into_id)
    }

    fn build_package(&mut self, from_id: PackageId, into_id: PackageId) -> (result: Result<
        (),
        Error,
    >)
        requires
            old(self).from@.usable(),
            old(self).into@.usable(),
            from_id < old(self).from@.packages.len(),
            into_id < old(self).into@.packages.len(),
            matched_package(
                old(self)@,
                old(self).from@,
                old(self).into@,
                from_id,
                into_id,
            ) != Err::<Plan, Stop>(Stop::Repeated),
        ensures
            final(self).same_resolves(old(self)),
            agrees(
                result,
                final(self)@,
                matched_package(
                    old(self)@,
                    old(self).from@,
                    old(self).into@,
                    from_id,
                    into_id,
                ),
            ),
    {
        broadcast use vstd::std_specs::hash::group_hash_axioms;

        let ghost from = self.from@;
        let ghost into = self.into@;
        let ghost first = self@;
        let prev = self.package_map.insert(from_id, into_id);
        runtime_assert(prev.is_none());
        let ghost start = self@;
        assert(Ok::<Plan, Stop>(start) == first.with_package(from_id, into_id));

        let from_pkg = arena::item(&self.from.packages, from_id);
        let into_pkg = arena::item(&self.into.packages, into_id);
        assert(from_pkg@ == from.packages[from_id as int]);
        assert(into_pkg@ == into.packages[into_id as int]);
        assert(from.package_valid(from_id as int));
        assert(into.package_valid(into_id as int));

        // All documents in `from` should already be present in `into` to get merged, or it's
        // assumed `self.from` contains a view of the package which happens to contain more files.
        // In this situation the job of merging will be to add a new document to the package within
        // `self.into` which is queued up with `self.documents_to_add`.
        let n: usize = names::len(&from_pkg.documents);
        for i in 0..n
            invariant
                n == from_pkg.documents.entries().len(),
                from == self.from@,
                into == self.into@,
                from.usable(),
                into.usable(),
                self.same_resolves(old(self)),
                from_pkg@ == from.packages[from_id as int],
                into_pkg@ == into.packages[into_id as int],
                ids_within(from_pkg@.documents, from.documents.len()),
                ids_within(into_pkg@.documents, into.documents.len()),
                matched_documents(start, from, into, from_id, into_id, n as nat)
                    == matched_package(
                    old(self)@,
                    old(self).from@,
                    old(self).into@,
                    from_id,
                    into_id,
                ),
                matched_documents(start, from, into, from_id, into_id, n as nat) != Err::<
                    Plan,
                    Stop,
                >(Stop::Repeated),
                matched_documents(start, from, into, from_id, into_id, i as nat) == Ok::<
                    Plan,
                    Stop,
                >(self@),
        {
            let (name, from_doc_id) = names::entry(&from_pkg.documents, i);
            let ghost before = self@;
            proof {
                lemma_matched_documents_stops(
                    start,
                    from,
                    into,
                    from_id,
                    into_id,
                    (i + 1) as nat,
                    n as nat,
                );
                assert(from_pkg@.documents[i as int] == (name@, *from_doc_id));
                lemma_find(into_pkg@.documents, name@);
            }
            match names::get(&into_pkg.documents, name.as_str()) {
                None => {
                    let ghost queued = self.documents_to_add@;
                    self.documents_to_add.push((name.clone(), into_id, *from_doc_id));
                    proof {
                        lemma_additions_push(queued, self.documents_to_add@.last());
                        assert(self@ =~= before.with_new_document((name@, into_id, *from_doc_id)));
                    }
                },
                Some(into_doc_id) => {
                    if let Err(error) = self.build_document(*from_doc_id, *into_doc_id) {
                        let step = sentence(
                            "failed to merge document `",
                            name.as_str(),
                            "` into existing copy",
                        );
                        return Err(error.within(step));
                    }
                },
            }
        }
        Ok(())
    }

    /// Matches the packages that both resolves hold, according to name and URL.
    pub(crate) fn build(&mut self) -> (result: Result<(), Error>)
        requires
            old(self).from@.usable(),
            old(self).into@.usable(),
            old(self)@ == Plan::start(),
            matched(old(self).from@, old(self).into@) != Err::<Plan, Stop>(Stop::Repeated),
        ensures
            agrees(result, final(self)@, matched(old(self).from@, old(self).into@)),
    {
        let ghost from = self.from@;
        let ghost into = self.into@;
        let ghost start = self@;
        let into_count: usize = arena::count(&self.into.packages);
        let n: usize = arena::count(&self.from.packages);
        for i in 0..n
            invariant
                n == from.packages.len(),
                into_count == into.packages.len(),
                from == self.from@,
                into == self.into@,
                from.usable(),
                into.usable(),
                self.same_resolves(old(self)),
                start == Plan::start(),
                matched_packages(start, from, into, n as nat) != Err::<Plan, Stop>(Stop::Repeated),
                matched_packages(start, from, into, i as nat) == Ok::<Plan, Stop>(self@),
        {
            let pkg = arena::item(&self.from.packages, i);
            assert(pkg@ == from.packages[i as int]);
            proof {
                lemma_matched_packages_stops(start, from, into, (i + 1) as nat, n as nat);
                lemma_find_package(into.packages, pkg@, into.packages.len());
            }
            // A package that, according to its name and url, is not present in `into` needs to get
            // added later.
            if let Some(into_id) = package_like(self.into, pkg, into_count) {
                if let Err(error) = self.build_package(i, into_id) {
                    let step = sentence(
                        "failed to merge package `",
                        pkg.name.as_str(),
                        "` into existing copy",
                    );
                    return Err(error.within(step));
                }
            }
        }
        Ok(())
    }

    /// Starts to match two resolves. In the one that is merged into, no two packages may have the
    /// same name and URL.
    pub(crate) fn new(from: &'a Resolve, into: &'a Resolve) -> (result: Result<MergeMap<'a>, Error>)
        ensures
            match (result, first_duplicate(into@.packages, into@.packages.len())) {
                (Ok(map), None) => map@ == Plan::start() && map.from == from && map.into == into,
                (Err(error), Some(i)) => error@ == duplicate_error(into@.packages[i]),
                _ => false,
            },
    {
        broadcast use vstd::std_specs::hash::group_hash_axioms;

        let n: usize = arena::count(&into.packages);
        for id in 0..n
            invariant
                n == into@.packages.len(),
                first_duplicate(into@.packages, id as nat).is_none(),
        {
            let package = arena::item(&into.packages, id);
            assert(package@ == into@.packages[id as int]);
            proof {
                lemma_first_duplicate_stops(into@.packages, (id + 1) as nat, n as nat);
                lemma_find_package(into@.packages, package@, id as nat);
            }
            if package_like(into, package, id).is_some() {
                let mut msg = sentence(
                    "found duplicate name/url combination in current resolve: ",
                    package.name.as_str(),
                    "/Some(",
                );
                msg.append(quote(package.url.as_ref().unwrap().as_str()).as_str());
                msg.append(")");
                return Err(Error::new(msg));
            }
        }
        let map = MergeMap {
            package_map: HashMap::new(),
            interface_map: HashMap::new(),
            type_map: HashMap::new(),
            doc_map: HashMap::new(),
            world_map: HashMap::new(),
            documents_to_add: Vec::new(),
            interfaces_to_add: Vec::new(),
            worlds_to_add: Vec::new(),
            from,
            into,
        };
        assert(map@ =~= Plan::start());
        Ok(map)
    }
}

/// The first of `n` packages of a resolve that has the same name and URL as a given one.
fn package_like(resolve: &Resolve, package: &Package, n: usize) -> (found: Option<PackageId>)
    requires
        n <= resolve@.packages.len(),
    ensures
        match (found, find_package(resolve@.packages, package@, n as nat)) {
            (Some(id), Some(i)) => id == i,
            (None, None) => true,
            _ => false,
        },
{
    let url = match &package.url {
        Some(url) => url,
        None => {
            proof {
                lemma_find_package(resolve@.packages, package@, n as nat);
            }
            return None;
        },
    };
    for i in 0..n
        invariant
            n <= resolve@.packages.len(),
            package.url == Some(*url),
            find_package(resolve@.packages, package@, i as nat).is_none(),
    {
        let other = arena::item(&resolve.packages, i);
        assert(other@ == resolve@.packages[i as int]);
        if package.name == other.name {
            if let Some(other_url) = &other.url {
                if *url == *other_url {
                    proof {
                        lemma_find_package_stops(
                            resolve@.packages,
                            package@,
                            (i + 1) as nat,
                            n as nat,
                        );
                    }
                    return Some(i);
                }
            }
        }
    }
    None
}

/// How a string is printed with quotes around it and what is special in it escaped.
pub uninterp spec fn quoted(text: Seq<char>) -> Seq<char>;

/// The `Debug` output of a string, by `format!`.
#[verifier::external_body]
fn quote(text: &str) -> (quote: String)
    ensures
        quote@ == quoted(text@),
{
    format!("{:?}", text)
}

/// The error for a package of which there is another copy.
pub open spec fn duplicate_error(package: PackageView) -> ErrorView {
    failure(
        "found duplicate name/url combination in current resolve: "@ + package.name + "/Some("@
            + quoted(package.url.unwrap()) + ")"@,
    )
}

/// What [`find_package`] finds.
pub proof fn lemma_find_package(packages: Seq<PackageView>, package: PackageView, n: nat)
    requires
        n <= packages.len(),
    ensures
        match find_package(packages, package, n) {
            Some(i) => 0 <= i < n && same_package(package, packages[i]) && forall|j: int|
                0 <= j < i ==> !same_package(package, #[trigger] packages[j]),
            None => forall|j: int| 0 <= j < n ==> !same_package(package, #[trigger] packages[j]),
        },
    decreases n,
{
    if n > 0 {
        lemma_find_package(packages, package, (n - 1) as nat);
    }
}

proof fn lemma_find_package_stops(
    packages: Seq<PackageView>,
    package: PackageView,
    m: nat,
    n: nat,
)
    requires
        m <= n,
    ensures
        find_package(packages, package, m).is_some() ==> find_package(packages, package, n)
            == find_package(packages, package, m),
    decreases n - m,
{
    if m < n {
        lemma_find_package_stops(packages, package, m, (n - 1) as nat);
    }
}

proof fn lemma_first_duplicate_stops(packages: Seq<PackageView>, m: nat, n: nat)
    requires
        m <= n,
    ensures
        first_duplicate(packages, m).is_some() ==> first_duplicate(packages, n)
            == first_duplicate(packages, m),
    decreases n - m,
{
    if m < n {
        lemma_first_duplicate_stops(packages, m, (n - 1) as nat);
    }
}

/// Every key is below `a`, and every value below `b`.
pub open spec fn known_within(known: Known, a: nat, b: nat) -> bool {
    forall|k: usize| #[trigger] known.contains_key(k) ==> k < a && known[k] < b
}

/// Every item that is to be listed is below `b`, and what lists it below `a`.
pub open spec fn additions_within(additions: Seq<Addition>, a: nat, b: nat) -> bool {
    forall|i: int|
        0 <= i < additions.len() ==> (#[trigger] additions[i]).1 < a && additions[i].2 < b
}

impl Plan {
    /// No document that is to be listed has a name that is in use.
    pub open spec fn documents_missing(self, into: ResolveView) -> bool {
        forall|i: int|
            0 <= i < self.new_documents.len() ==> find(
                into.packages[(#[trigger] self.new_documents[i]).1 as int].documents,
                self.new_documents[i].0,
            ).is_none()
    }

    /// No interface that is to be listed has a name that is in use.
    pub open spec fn interfaces_missing(self, into: ResolveView) -> bool {
        forall|i: int|
            0 <= i < self.new_interfaces.len() ==> find(
                into.documents[(#[trigger] self.new_interfaces[i]).1 as int].interfaces,
                self.new_interfaces[i].0,
            ).is_none()
    }

    /// No world that is to be listed has a name that is in use.
    pub open spec fn worlds_missing(self, into: ResolveView) -> bool {
        forall|i: int|
            0 <= i < self.new_worlds.len() ==> find(
                into.documents[(#[trigger] self.new_worlds[i]).1 as int].worlds,
                self.new_worlds[i].0,
            ).is_none()
    }

    /// Items of `from` are matched with items of `into`, and what is to be listed is an item of
    /// `from` under a name that is free.
    pub open spec fn within(self, from: ResolveView, into: ResolveView) -> bool {
        &&& known_within(self.packages, from.packages.len(), into.packages.len())
        &&& known_within(self.interfaces, from.interfaces.len(), into.interfaces.len())
        &&& known_within(self.types, from.types.len(), into.types.len())
        &&& known_within(self.documents, from.documents.len(), into.documents.len())
        &&& known_within(self.worlds, from.worlds.len(), into.worlds.len())
        &&& additions_within(self.new_documents, into.packages.len(), from.documents.len())
        &&& additions_within(self.new_interfaces, into.documents.len(), from.interfaces.len())
        &&& additions_within(self.new_worlds, into.documents.len(), from.worlds.len())
        &&& self.documents_missing(into)
        &&& self.interfaces_missing(into)
        &&& self.worlds_missing(into)
    }
}

proof fn lemma_matched_types_within(
    plan: Plan,
    from: ResolveView,
    into: ResolveView,
    from_id: InterfaceId,
    into_id: InterfaceId,
    n: nat,
)
    requires
        from.usable(),
        into.usable(),
        plan.within(from, into),
        from_id < from.interfaces.len(),
        into_id < into.interfaces.len(),
        n <= from.interfaces[from_id as int].types.len(),
    ensures
        matched_types(
            plan,
            from.interfaces[from_id as int],
            into.interfaces[into_id as int],
            n,
        ) matches Ok(plan) ==> plan.within(from, into),
    decreases n,
{
    if n > 0 {
        lemma_matched_types_within(plan, from, into, from_id, into_id, (n - 1) as nat);
        assert(from.interface_usable(from_id as int));
        assert(into.interface_usable(into_id as int));
        let (name, id) = from.interfaces[from_id as int].types[n - 1];
        lemma_find(into.interfaces[into_id as int].types, name);
    }
}

proof fn lemma_matched_functions_same(
    plan: Plan,
    from: InterfaceView,
    into: InterfaceView,
    n: nat,
)
    ensures
        matched_functions(plan, from, into, n) matches Ok(result) ==> result == plan,
    decreases n,
{
    if n > 0 {
        lemma_matched_functions_same(plan, from, into, (n - 1) as nat);
    }
}

proof fn lemma_matched_interface_within(
    plan: Plan,
    from: ResolveView,
    into: ResolveView,
    from_id: InterfaceId,
    into_id: InterfaceId,
)
    requires
        from.usable(),
        into.usable(),
        plan.within(from, into),
        from_id < from.interfaces.len(),
        into_id < into.interfaces.len(),
    ensures
        matched_interface(plan, from, into, from_id, into_id) matches Ok(plan) ==> plan.within(
            from,
            into,
        ),
{
    let from_interface = from.interfaces[from_id as int];
    let into_interface = into.interfaces[into_id as int];
    if let Ok(paired) = plan.with_interface(from_id, into_id) {
        let n = from_interface.types.len();
        lemma_matched_types_within(paired, from, into, from_id, into_id, n);
        if let Ok(typed) = matched_types(paired, from_interface, into_interface, n) {
            lemma_matched_functions_same(
                typed,
                from_interface,
                into_interface,
                from_interface.functions.len(),
            );
        }
    }
}

proof fn lemma_matched_items_within(
    plan: Plan,
    from: ResolveView,
    into: ResolveView,
    desc: Seq<char>,
    from_items: Seq<(Seq<char>, ItemView)>,
    into_items: Seq<(Seq<char>, ItemView)>,
    n: nat,
)
    requires
        from.usable(),
        into.usable(),
        plan.within(from, into),
        items_within(from_items, from.interfaces.len(), from.types.len()),
        items_within(into_items, into.interfaces.len(), into.types.len()),
        n <= from_items.len(),
    ensures
        matched_items(plan, from, into, desc, from_items, into_items, n) matches Ok(plan)
            ==> plan.within(from, into),
    decreases n,
{
    if n > 0 {
        let m = (n - 1) as nat;
        lemma_matched_items_within(plan, from, into, desc, from_items, into_items, m);
        if let Ok(plan) = matched_items(plan, from, into, desc, from_items, into_items, m) {
            let (name, item) = from_items[n - 1];
            lemma_find(into_items, name);
            if let Some(other) = lookup(into_items, name) {
                assert(item_within(other, into.interfaces.len(), into.types.len()));
                match (item, other) {
                    (ItemView::Interface(from_id), ItemView::Interface(into_id)) => {
                        lemma_matched_interface_within(plan, from, into, from_id, into_id);
                    },
                    _ => {},
                }
            }
        }
    }
}

proof fn lemma_matched_world_within(
    plan: Plan,
    from: ResolveView,
    into: ResolveView,
    from_id: WorldId,
    into_id: WorldId,
)
    requires
        from.usable(),
        into.usable(),
        plan.within(from, into),
        from_id < from.worlds.len(),
        into_id < into.worlds.len(),
    ensures
        matched_world(plan, from, into, from_id, into_id) matches Ok(plan) ==> plan.within(
            from,
            into,
        ),
{
    let from_world = from.worlds[from_id as int];
    let into_world = into.worlds[into_id as int];
    assert(from.world_usable(from_id as int));
    assert(into.world_usable(into_id as int));
    if let Ok(paired) = plan.with_world(from_id, into_id) {
        let n = from_world.imports.len();
        lemma_matched_items_within(
            paired,
            from,
            into,
            "import"@,
            from_world.imports,
            into_world.imports,
            n,
        );
        if let Ok(imported) = matched_items(
            paired,
            from,
            into,
            "import"@,
            from_world.imports,
            into_world.imports,
            n,
        ) {
            lemma_matched_items_within(
                imported,
                from,
                into,
                "export"@,
                from_world.exports,
                into_world.exports,
                from_world.exports.len(),
            );
        }
    }
}

proof fn lemma_matched_document_interfaces_within(
    plan: Plan,
    from: ResolveView,
    into: ResolveView,
    from_id: DocumentId,
    into_id: DocumentId,
    n: nat,
)
    requires
        from.usable(),
        into.usable(),
        plan.within(from, into),
        from_id < from.documents.len(),
        into_id < into.documents.len(),
        n <= from.documents[from_id as int].interfaces.len(),
    ensures
        matched_document_interfaces(plan, from, into, from_id, into_id, n) matches Ok(plan)
            ==> plan.within(from, into),
    decreases n,
{
    if n > 0 {
        let m = (n - 1) as nat;
        lemma_matched_document_interfaces_within(plan, from, into, from_id, into_id, m);
        assert(from.document_valid(from_id as int));
        assert(into.document_valid(into_id as int));
        if let Ok(plan) = matched_document_interfaces(plan, from, into, from_id, into_id, m) {
            let (name, id) = from.documents[from_id as int].interfaces[n - 1];
            lemma_find(into.documents[into_id as int].interfaces, name);
            if let Some(other) = lookup(into.documents[into_id as int].interfaces, name) {
                lemma_matched_interface_within(plan, from, into, id, other);
            }
        }
    }
}

proof fn lemma_matched_document_worlds_within(
    plan: Plan,
    from: ResolveView,
    into: ResolveView,
    from_id: DocumentId,
    into_id: DocumentId,
    n: nat,
)
    requires
        from.usable(),
        into.usable(),
        plan.within(from, into),
        from_id < from.documents.len(),
        into_id < into.documents.len(),
        n <= from.documents[from_id as int].worlds.len(),
    ensures
        matched_document_worlds(plan, from, into, from_id, into_id, n) matches Ok(plan)
            ==> plan.within(from, into),
    decreases n,
{
    if n > 0 {
        let m = (n - 1) as nat;
        lemma_matched_document_worlds_within(plan, from, into, from_id, into_id, m);
        assert(from.document_valid(from_id as int));
        assert(into.document_valid(into_id as int));
        if let Ok(plan) = matched_document_worlds(plan, from, into, from_id, into_id, m) {
            let (name, id) = from.documents[from_id as int].worlds[n - 1];
            lemma_find(into.documents[into_id as int].worlds, name);
            if let Some(other) = lookup(into.documents[into_id as int].worlds, name) {
                lemma_matched_world_within(plan, from, into, id, other);
            }
        }
    }
}

proof fn lemma_matched_documents_within(
    plan: Plan,
    from: ResolveView,
    into: ResolveView,
    from_id: PackageId,
    into_id: PackageId,
    n: nat,
)
    requires
        from.usable(),
        into.usable(),
        plan.within(from, into),
        from_id < from.packages.len(),
        into_id < into.packages.len(),
        n <= from.packages[from_id as int].documents.len(),
    ensures
        matched_documents(plan, from, into, from_id, into_id, n) matches Ok(plan)
            ==> plan.within(from, into),
    decreases n,
{
    if n > 0 {
        let m = (n - 1) as nat;
        lemma_matched_documents_within(plan, from, into, from_id, into_id, m);
        assert(from.package_valid(from_id as int));
        assert(into.package_valid(into_id as int));
        if let Ok(plan) = matched_documents(plan, from, into, from_id, into_id, m) {
            let (name, id) = from.packages[from_id as int].documents[n - 1];
            lemma_find(into.packages[into_id as int].documents, name);
            if let Some(other) = lookup(into.packages[into_id as int].documents, name) {
                if let Ok(paired) = plan.with_document(id, other) {
                    let k = from.documents[id as int].interfaces.len();
                    lemma_matched_document_interfaces_within(paired, from, into, id, other, k);
                    if let Ok(listed) = matched_document_interfaces(
                        paired,
                        from,
                        into,
                        id,
                        other,
                        k,
                    ) {
                        lemma_matched_document_worlds_within(
                            listed,
                            from,
                            into,
                            id,
                            other,
                            from.documents[id as int].worlds.len(),
                        );
                    }
                }
            }
        }
    }
}

proof fn lemma_matched_packages_within(plan: Plan, from: ResolveView, into: ResolveView, n: nat)
    requires
        from.usable(),
        into.usable(),
        plan.within(from, into),
        n <= from.packages.len(),
    ensures
        matched_packages(plan, from, into, n) matches Ok(plan) ==> plan.within(from, into),
    decreases n,
{
    if n > 0 {
        lemma_matched_packages_within(plan, from, into, (n - 1) as nat);
        if let Ok(plan) = matched_packages(plan, from, into, (n - 1) as nat) {
            lemma_find_package(into.packages, from.packages[n - 1], into.packages.len());
            if let Some(i) = find_package(
                into.packages,
                from.packages[n - 1],
                into.packages.len(),
            ) {
                if let Ok(paired) = plan.with_package((n - 1) as usize, i as usize) {
                    lemma_matched_documents_within(
                        paired,
                        from,
                        into,
                        (n - 1) as usize,
                        i as usize,
                        from.packages[n - 1].documents.len(),
                    );
                }
            }
        }
    }
}

/// What two resolves have in common are items of both, and what is missing in one of them has a
/// name that is free there.
pub proof fn lemma_matched_within(from: ResolveView, into: ResolveView)
    requires
        from.usable(),
        into.usable(),
    ensures
        matched(from, into) matches Ok(plan) ==> plan.within(from, into),
{
    lemma_matched_packages_within(Plan::start(), from, into, from.packages.len());
}

} // verus!
