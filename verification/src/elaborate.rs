//! Elaboration of worlds: which interfaces a world imports and exports once those that it needs
//! without naming them are added.
use indexmap::IndexMap;
use std::collections::HashMap;
use std::collections::HashSet;
use vstd::hash_map::StringHashMap;
use vstd::pervasive::{runtime_assert, unreached};
use vstd::prelude::*;
use vstd::string::*;

use crate::arena::{self, Items};
use crate::bound::{lemma_unused_decreases, unused};
use crate::error::{failure_at, sentence, Error, ErrorView};
use crate::names::{self, find, lemma_find, lemma_find_same, Entries};
use crate::remap::{items_within, mapped_item, ItemMap, Remap};
use crate::resolve::Resolve;
use crate::types::{
    entry_views, InterfaceId, InterfaceView, ItemView, KindView, Span, Type, TypeDefKind,
    TypeDefView, TypeId, TypeOwner, World, WorldItem, WorldView,
};

verus! {

/// The interfaces that interfaces use, and the names of interfaces.
#[verifier::ext_equal]
pub struct UseGraph {
    /// For each type of each interface, the interface that the type comes from, where it is one
    /// that is used from an interface.
    pub uses: Seq<Seq<Option<InterfaceId>>>,
    /// For each type of each interface, whether it stands for a type of a world.
    pub of_worlds: Seq<Seq<bool>>,
    pub names: Seq<Option<Seq<char>>>,
}

/// The interface that a type comes from, where the type stands for one of an interface.
pub open spec fn use_of(types: Seq<TypeDefView>, id: TypeId) -> Option<InterfaceId> {
    match types[id as int].kind {
        KindView::Type(Type::Id(other)) => match types[other as int].owner {
            TypeOwner::Interface(owner) => Some(owner),
            _ => None,
        },
        _ => None,
    }
}

pub open spec fn uses_of(types: Seq<TypeDefView>, iface: InterfaceView) -> Seq<
    Option<InterfaceId>,
> {
    Seq::new(iface.types.len(), |j: int| use_of(types, iface.types[j].1))
}

pub open spec fn uses_of_worlds(types: Seq<TypeDefView>, iface: InterfaceView) -> Seq<bool> {
    Seq::new(iface.types.len(), |j: int| use_of_world(types, iface.types[j].1))
}

pub open spec fn use_graph(
    types: Seq<TypeDefView>,
    interfaces: Seq<InterfaceView>,
) -> UseGraph {
    UseGraph {
        uses: Seq::new(interfaces.len(), |i: int| uses_of(types, interfaces[i])),
        of_worlds: Seq::new(interfaces.len(), |i: int| uses_of_worlds(types, interfaces[i])),
        names: Seq::new(interfaces.len(), |i: int| interfaces[i].name),
    }
}

/// A type that stands for another one stands for one that is there. So is the interface that it
/// belongs to, if any.
pub open spec fn use_valid(
    types: Seq<TypeDefView>,
    interfaces: Seq<InterfaceView>,
    id: TypeId,
) -> bool {
    &&& id < types.len()
    &&& types[id as int].kind matches KindView::Type(Type::Id(other)) ==> {
        &&& other < types.len()
        &&& types[other as int].owner matches TypeOwner::Interface(owner) ==> owner
            < interfaces.len()
    }
}

/// A type stands for a type of a world.
pub open spec fn use_of_world(types: Seq<TypeDefView>, id: TypeId) -> bool {
    types[id as int].kind matches KindView::Type(Type::Id(other)) && types[other as int].owner
        is World
}

/// What interfaces use is there.
pub open spec fn uses_within(types: Seq<TypeDefView>, interfaces: Seq<InterfaceView>) -> bool {
    forall|i: int, j: int|
        #![trigger interfaces[i].types[j]]
        0 <= i < interfaces.len() && 0 <= j < interfaces[i].types.len() ==> use_valid(
            types,
            interfaces,
            interfaces[i].types[j].1,
        )
}

/// The interfaces to choose from and the names that a world gives to some of them.
#[verifier::ext_equal]
pub struct Scope {
    pub graph: UseGraph,
    pub import_names: Map<InterfaceId, Seq<char>>,
    pub export_names: Map<InterfaceId, Seq<char>>,
}

/// The state of an elaboration: the interfaces that were taken up, the names that are in use, and
/// what the world imports and exports so far.
#[verifier::ext_equal]
pub struct Progress {
    pub imported: Set<InterfaceId>,
    pub exported: Set<InterfaceId>,
    pub names: Set<Seq<char>>,
    pub imports: Seq<(Seq<char>, ItemView)>,
    pub exports: Seq<(Seq<char>, ItemView)>,
}

/// An interface that is taken up, and whether it is imported.
pub type Step = (InterfaceId, bool);

/// The chain of interfaces that led to the one being taken up.
pub type Chain = Seq<Step>;

/// A number for an interface and a direction.
pub open spec fn node(step: (InterfaceId, bool)) -> int {
    2 * step.0 + if step.1 { 1int } else { 0 }
}

pub open spec fn nodes(chain: Chain) -> Set<int> {
    chain.map_values(|step: (InterfaceId, bool)| node(step)).to_set()
}

pub proof fn lemma_nodes_push(chain: Chain, step: (InterfaceId, bool))
    ensures
        nodes(chain.push(step)) == nodes(chain).insert(node(step)),
        nodes(chain).contains(node(step)) ==> chain.contains(step),
{
    let f = |step: (InterfaceId, bool)| node(step);
    let before = chain.map_values(f);
    let after = chain.push(step).map_values(f);
    assert(after =~= before.push(node(step)));
    assert forall|c: int| after.to_set().contains(c) <==> before.to_set().insert(
        node(step),
    ).contains(c) by {
        if before.contains(c) {
            let i = choose|i: int| 0 <= i < before.len() && before[i] == c;
            assert(after[i] == c);
        }
        if c == node(step) {
            assert(after[before.len() as int] == c);
        }
        if after.contains(c) && c != node(step) {
            let i = choose|i: int| 0 <= i < after.len() && after[i] == c;
            assert(before[i] == c);
        }
    }
    assert(after.to_set() =~= before.to_set().insert(node(step)));
    if before.to_set().contains(node(step)) {
        let i = choose|i: int| 0 <= i < before.len() && before[i] == node(step);
        assert(chain[i] == step);
    }
}

impl Scope {
    /// The name under which a world imports or exports an interface.
    pub open spec fn name_of(self, id: InterfaceId, import: bool) -> Seq<char> {
        let given = if import {
            self.import_names
        } else {
            self.export_names
        };
        if given.contains_key(id) {
            given[id]
        } else {
            self.graph.names[id as int].unwrap()
        }
    }

    /// The interface is there and has a name.
    pub open spec fn can_take(self, id: InterfaceId, import: bool) -> bool {
        &&& id < self.graph.uses.len()
        &&& self.graph.names[id as int].is_some() || if import {
            self.import_names.contains_key(id)
        } else {
            self.export_names.contains_key(id)
        }
    }

    /// What an interface uses is exported if the user of it is and the world exports it by name.
    /// Otherwise it is imported.
    pub open spec fn imports_use(self, dep: InterfaceId, import: bool) -> bool {
        import || !self.export_names.contains_key(dep)
    }

    /// Taking up one interface leads to taking up another one that it uses.
    pub open spec fn leads_to(self, a: Step, b: Step) -> bool {
        &&& a.0 < self.graph.uses.len()
        &&& b.1 == self.imports_use(b.0, a.1)
        &&& exists|j: int|
            0 <= j < self.graph.uses[a.0 as int].len() && #[trigger] self.graph.uses[a.0 as int][j]
                == Some(b.0)
    }

    /// Each interface of a path leads to the one behind it.
    pub open spec fn is_path(self, path: Seq<Step>) -> bool {
        &&& path.len() > 0
        &&& forall|i: int| 0 <= i < path.len() - 1 ==> self.leads_to(#[trigger] path[i], path[i + 1])
    }

    /// Taking up one interface leads to taking up another one in any number of steps.
    pub open spec fn reaches(self, a: Step, b: Step) -> bool {
        exists|path: Seq<Step>| #[trigger]
            self.is_path(path) && path.first() == a && path.last() == b
    }

    /// How many steps a chain can still grow.
    pub open spec fn room(self, chain: Chain) -> nat {
        unused(2 * self.graph.uses.len(), nodes(chain))
    }

    /// One line for each interface of a chain, the last one first.
    pub open spec fn chain_text(self, chain: Chain) -> Seq<char>
        decreases chain.len(),
    {
        if chain.len() == 0 {
            Seq::empty()
        } else {
            "  .. which is depended on by "@ + direction(chain.last().1) + " `"@ + self.name_of(
                chain.last().0,
                chain.last().1,
            ) + "`\n"@ + self.chain_text(chain.drop_last())
        }
    }

    /// What is wrong when the name of an interface is in use.
    pub open spec fn conflict(self, chain: Chain, id: InterfaceId, import: bool) -> Seq<char> {
        let name = self.name_of(id, import);
        direction(import) + " of `"@ + name + "`"@ + if chain.len() == 0 {
            " "@
        } else {
            "\n"@
        } + self.chain_text(chain) + "conflicts with a previous interface using the name `"@
            + name + "`\n"@
    }

    /// Takes up an interface, after everything that it uses.
    pub open spec fn visit(
        self,
        state: Progress,
        chain: Chain,
        id: InterfaceId,
        import: bool,
        span: Span,
    ) -> Result<Progress, ErrorView>
        decreases self.room(chain), 0nat,
    {
        if state.taken(id, import) || id >= self.graph.uses.len() || chain.contains(
            (id, import),
        ) {
            Ok(state)
        } else {
            proof {
                lemma_nodes_push(chain, (id, import));
                lemma_unused_decreases(
                    2 * self.graph.uses.len(),
                    nodes(chain),
                    node((id, import)),
                );
            }
            let used = self.visit_uses(
                state.take(id, import),
                chain.push((id, import)),
                id,
                import,
                span,
                self.graph.uses[id as int].len(),
            );
            match used {
                Ok(state) => self.place(state, chain, id, import, span),
                Err(error) => Err(error),
            }
        }
    }

    /// Takes up the first `n` interfaces that an interface uses.
    pub open spec fn visit_uses(
        self,
        state: Progress,
        chain: Chain,
        id: InterfaceId,
        import: bool,
        span: Span,
        n: nat,
    ) -> Result<Progress, ErrorView>
        decreases self.room(chain), n,
    {
        if n == 0 {
            Ok(state)
        } else {
            match self.visit_uses(state, chain, id, import, span, (n - 1) as nat) {
                Ok(state) => match self.graph.uses[id as int][n - 1] {
                    Some(dep) => self.visit(
                        state,
                        chain,
                        dep,
                        self.imports_use(dep, import),
                        span,
                    ),
                    None => Ok(state),
                },
                Err(error) => Err(error),
            }
        }
    }

    /// Adds an interface to what the world imports or exports, if its name is free.
    pub open spec fn place(
        self,
        state: Progress,
        chain: Chain,
        id: InterfaceId,
        import: bool,
        span: Span,
    ) -> Result<Progress, ErrorView> {
        let name = self.name_of(id, import);
        if state.names.contains(name) {
            Err(failure_at(span, self.conflict(chain, id, import)))
        } else if import {
            Ok(
                Progress {
                    names: state.names.insert(name),
                    imports: state.imports.push((name, ItemView::Interface(id))),
                    ..state
                },
            )
        } else {
            Ok(
                Progress {
                    names: state.names.insert(name),
                    exports: state.exports.push((name, ItemView::Interface(id))),
                    ..state
                },
            )
        }
    }
}

impl Scope {
    /// The state in which taking up an interface ends, whether or not it fails. Where the name of
    /// an interface is in use, that is the state once everything that the interface uses was taken
    /// up.
    pub open spec fn reached(
        self,
        state: Progress,
        chain: Chain,
        id: InterfaceId,
        import: bool,
        span: Span,
    ) -> Progress
        decreases self.room(chain), 0nat,
    {
        if state.taken(id, import) || id >= self.graph.uses.len() || chain.contains(
            (id, import),
        ) {
            state
        } else {
            proof {
                lemma_nodes_push(chain, (id, import));
                lemma_unused_decreases(
                    2 * self.graph.uses.len(),
                    nodes(chain),
                    node((id, import)),
                );
            }
            let inner = chain.push((id, import));
            let n = self.graph.uses[id as int].len();
            let used = self.reached_uses(state.take(id, import), inner, id, import, span, n);
            match self.visit_uses(state.take(id, import), inner, id, import, span, n) {
                Err(_) => used,
                Ok(_) => match self.place(used, chain, id, import, span) {
                    Ok(after) => after,
                    Err(_) => used,
                },
            }
        }
    }

    /// The state in which taking up the first `n` interfaces that an interface uses ends.
    pub open spec fn reached_uses(
        self,
        state: Progress,
        chain: Chain,
        id: InterfaceId,
        import: bool,
        span: Span,
        n: nat,
    ) -> Progress
        decreases self.room(chain), n,
    {
        if n == 0 {
            state
        } else {
            let before = self.reached_uses(state, chain, id, import, span, (n - 1) as nat);
            match self.visit_uses(state, chain, id, import, span, (n - 1) as nat) {
                Err(_) => before,
                Ok(_) => match self.graph.uses[id as int][n - 1] {
                    Some(dep) => self.reached(
                        before,
                        chain,
                        dep,
                        self.imports_use(dep, import),
                        span,
                    ),
                    None => before,
                },
            }
        }
    }

    /// An interface can be taken up: whatever is looked up on the way is there. Every interface
    /// that is placed has a name, and so has every one that an error is about. No interface that is
    /// taken up uses a type of a world.
    pub open spec fn safe(
        self,
        state: Progress,
        chain: Chain,
        id: InterfaceId,
        import: bool,
        span: Span,
    ) -> bool
        decreases self.room(chain), 0nat,
    {
        if state.taken(id, import) {
            true
        } else if id >= self.graph.uses.len() {
            false
        } else if chain.contains((id, import)) {
            true
        } else {
            proof {
                lemma_nodes_push(chain, (id, import));
                lemma_unused_decreases(
                    2 * self.graph.uses.len(),
                    nodes(chain),
                    node((id, import)),
                );
            }
            let inner = chain.push((id, import));
            let n = self.graph.uses[id as int].len();
            &&& self.safe_uses(state.take(id, import), inner, id, import, span, n)
            &&& self.visit_uses(state.take(id, import), inner, id, import, span, n) matches Ok(used)
                ==> self.can_place(used, chain, id, import)
        }
    }

    /// The first `n` interfaces that an interface uses can be taken up.
    pub open spec fn safe_uses(
        self,
        state: Progress,
        chain: Chain,
        id: InterfaceId,
        import: bool,
        span: Span,
        n: nat,
    ) -> bool
        decreases self.room(chain), n,
    {
        if n == 0 {
            true
        } else {
            let m = (n - 1) as nat;
            &&& self.safe_uses(state, chain, id, import, span, m)
            &&& self.visit_uses(state, chain, id, import, span, m) matches Ok(state) ==> {
                &&& !self.graph.of_worlds[id as int][n - 1]
                &&& self.graph.uses[id as int][n - 1] matches Some(dep) ==> self.safe(
                    state,
                    chain,
                    dep,
                    self.imports_use(dep, import),
                    span,
                )
            }
        }
    }

    /// An interface has a name. If the name is in use then so have those that led to the interface.
    pub open spec fn can_place(
        self,
        state: Progress,
        chain: Chain,
        id: InterfaceId,
        import: bool,
    ) -> bool {
        &&& self.can_take(id, import)
        &&& state.names.contains(self.name_of(id, import)) ==> self.chain_named(chain)
    }

    /// The interfaces of a chain have names.
    pub open spec fn chain_named(self, chain: Chain) -> bool {
        forall|i: int|
            0 <= i < chain.len() ==> self.can_take((#[trigger] chain[i]).0, chain[i].1)
    }

    /// If some interfaces can be taken up then so can the first ones of them.
    proof fn lemma_safe_uses_less(
        self,
        state: Progress,
        chain: Chain,
        id: InterfaceId,
        import: bool,
        span: Span,
        m: nat,
        n: nat,
    )
        requires
            m <= n,
            self.safe_uses(state, chain, id, import, span, n),
        ensures
            self.safe_uses(state, chain, id, import, span, m),
        decreases n - m,
    {
        if m < n {
            self.lemma_safe_uses_less(state, chain, id, import, span, m, (n - 1) as nat);
        }
    }

    /// Taking up an interface leads to itself, and to whatever an interface leads to that it uses.
    pub proof fn lemma_reaches(self, a: Step, b: Step, c: Step)
        ensures
            self.reaches(a, a),
            self.leads_to(a, b) && self.reaches(b, c) ==> self.reaches(a, c),
    {
        let one = seq![a];
        assert(self.is_path(one) && one.first() == a && one.last() == a);
        if self.leads_to(a, b) && self.reaches(b, c) {
            let path = choose|path: Seq<Step>| #[trigger]
                self.is_path(path) && path.first() == b && path.last() == c;
            let longer = seq![a] + path;
            assert forall|i: int| 0 <= i < longer.len() - 1 implies self.leads_to(
                #[trigger] longer[i],
                longer[i + 1],
            ) by {
                if i > 0 {
                    assert(longer[i] == path[i - 1]);
                    assert(longer[i + 1] == path[i - 1 + 1]);
                }
            }
            assert(self.is_path(longer) && longer.first() == a && longer.last() == c);
        }
    }

    /// Once an interface that is used fails, all that follow do.
    proof fn lemma_visit_uses_stops(
        self,
        state: Progress,
        chain: Chain,
        id: InterfaceId,
        import: bool,
        span: Span,
        m: nat,
        n: nat,
    )
        requires
            m <= n,
        ensures
            self.visit_uses(state, chain, id, import, span, m) matches Err(error)
                ==> self.visit_uses(state, chain, id, import, span, n) == Err::<
                Progress,
                ErrorView,
            >(error) && self.reached_uses(state, chain, id, import, span, n) == self.reached_uses(
                state,
                chain,
                id,
                import,
                span,
                m,
            ),
        decreases n - m,
    {
        if m < n {
            self.lemma_visit_uses_stops(state, chain, id, import, span, m, (n - 1) as nat);
        }
    }
}

impl Progress {
    pub open spec fn taken(self, id: InterfaceId, import: bool) -> bool {
        if import {
            self.imported.contains(id)
        } else {
            self.exported.contains(id)
        }
    }

    pub open spec fn take(self, id: InterfaceId, import: bool) -> Progress {
        if import {
            Progress { imported: self.imported.insert(id), ..self }
        } else {
            Progress { exported: self.exported.insert(id), ..self }
        }
    }

    /// Every name of an import or an export is in use.
    pub open spec fn names_cover(self) -> bool {
        &&& forall|i: int|
            0 <= i < self.imports.len() ==> self.names.contains((#[trigger] self.imports[i]).0)
        &&& forall|i: int|
            0 <= i < self.exports.len() ==> self.names.contains((#[trigger] self.exports[i]).0)
    }

    /// Everything in a chain was taken up.
    pub open spec fn covers(self, chain: Chain) -> bool {
        forall|i: int| 0 <= i < chain.len() ==> self.taken((#[trigger] chain[i]).0, chain[i].1)
    }
}

/// Putting an item under a new name adds it behind the others.
proof fn lemma_put_item(entries: Seq<(Seq<char>, WorldItem)>, name: Seq<char>, item: WorldItem)
    ensures
        (forall|i: int| 0 <= i < entries.len() ==> (#[trigger] entries[i]).0 != name)
            ==> names::put(entries, name, item) == entries.push((name, item)) && entry_views(
            names::put(entries, name, item),
        ) == entry_views(entries).push((name, item@)),
{
    lemma_find(entries, name);
    assert(entry_views(entries.push((name, item))) =~= entry_views(entries).push((name, item@)));
}

/// How a message speaks of an import and of an export.
pub open spec fn direction(import: bool) -> Seq<char> {
    if import {
        "import"@
    } else {
        "export"@
    }
}

fn desc(import: bool) -> (text: &'static str)
    ensures
        text@ == direction(import),
{
    if import {
        "import"
    } else {
        "export"
    }
}

/// The names in a map of names.
pub open spec fn name_texts(names: Map<InterfaceId, String>) -> Map<InterfaceId, Seq<char>> {
    names.map_values(|name: String| name@)
}

struct WorldElaborator<'a> {
    resolve: &'a Resolve,
    imports: IndexMap<String, WorldItem>,
    exports: IndexMap<String, WorldItem>,
    explicit_import_names: &'a HashMap<InterfaceId, String>,
    explicit_export_names: &'a HashMap<InterfaceId, String>,
    names: StringHashMap<bool>,
    /// Interfaces which are either imported into the world already or about to be, used to ensure
    /// the same dependency isn't taken up multiple times.
    imports_processed: HashSet<InterfaceId>,
    exports_processed: HashSet<InterfaceId>,
    /// Dependency chain of why we're importing an interface, used to print an error message.
    resolving_stack: Vec<(InterfaceId, bool)>,
}

impl<'a> View for WorldElaborator<'a> {
    type V = Progress;

    closed spec fn view(&self) -> Progress {
        Progress {
            imported: self.imports_processed@,
            exported: self.exports_processed@,
            names: self.names@.dom(),
            imports: entry_views(self.imports.entries()),
            exports: entry_views(self.exports.entries()),
        }
    }
}

impl<'a> WorldElaborator<'a> {
    spec fn scope(&self) -> Scope {
        Scope {
            graph: use_graph(self.resolve@.types, self.resolve@.interfaces),
            import_names: name_texts(self.explicit_import_names@),
            export_names: name_texts(self.explicit_export_names@),
        }
    }

    /// The same world is elaborated with the same interfaces.
    spec fn same_scope(&self, other: &Self) -> bool {
        &&& self.resolve == other.resolve
        &&& self.explicit_import_names == other.explicit_import_names
        &&& self.explicit_export_names == other.explicit_export_names
    }

    spec fn ready(&self) -> bool {
        &&& uses_within(self.resolve@.types, self.resolve@.interfaces)
        &&& self@.names_cover()
        &&& self@.covers(self.resolving_stack@)
    }

    fn name_of(&self, id: InterfaceId, import: bool) -> (name: &'a String)
        requires
            self.scope().can_take(id, import),
        ensures
            name@ == self.scope().name_of(id, import),
    {
        broadcast use vstd::std_specs::hash::group_hash_axioms;

        let set = if import {
            self.explicit_import_names
        } else {
            self.explicit_export_names
        };
        match set.get(&id) {
            Some(name) => name,
            None => {
                let iface = arena::item(&self.resolve.interfaces, id);
                assert(self.scope().graph.names[id as int] == iface@.name);
                iface.name.as_ref().unwrap()
            },
        }
    }

    /// The message for an interface whose name is in use.
    fn conflict_message(&self, id: InterfaceId, import: bool) -> (msg: String)
        requires
            self.scope().can_take(id, import),
            self.scope().chain_named(self.resolving_stack@),
        ensures
            msg@ == self.scope().conflict(self.resolving_stack@, id, import),
    {
        let ghost scope = self.scope();
        let ghost chain = self.resolving_stack@;
        let name = self.name_of(id, import);
        let mut msg = desc(import).to_owned();
        msg.append(" of `");
        msg.append(name.as_str());
        msg.append("`");
        if self.resolving_stack.len() == 0 {
            msg.append(" ");
        } else {
            msg.append("\n");
        }
        let ghost start = msg@;
        let mut n: usize = self.resolving_stack.len();
        assert(chain.take(n as int) =~= chain);
        while n > 0
            invariant
                n <= chain.len(),
                chain == self.resolving_stack@,
                scope == self.scope(),
                scope.chain_named(chain),
                start + scope.chain_text(chain) == msg@ + scope.chain_text(chain.take(n as int)),
            decreases n,
        {
            n = n - 1;
            let ghost before = msg@;
            let (i, import) = self.resolving_stack[n];
            assert(scope.can_take(chain[n as int].0, chain[n as int].1));
            msg.append("  .. which is depended on by ");
            msg.append(desc(import));
            msg.append(" `");
            msg.append(self.name_of(i, import).as_str());
            msg.append("`\n");
            proof {
                let longer = chain.take(n + 1);
                assert(longer.drop_last() =~= chain.take(n as int));
                assert(longer.last() == chain[n as int]);
                assert(before + scope.chain_text(longer) =~= msg@ + scope.chain_text(
                    chain.take(n as int),
                ));
            }
        }
        assert(chain.take(0) =~= Seq::empty());
        assert(msg@ =~= start + scope.chain_text(chain));
        msg.append("conflicts with a previous interface using the name `");
        msg.append(name.as_str());
        msg.append("`\n");
        msg
    }

    /// Imports or exports an interface, after everything that it uses.
    fn recurse(&mut self, id: InterfaceId, span: Span, import: bool) -> (result: Result<(), Error>)
        requires
            old(self).ready(),
            old(self).scope().safe(old(self)@, old(self).resolving_stack@, id, import, span),
        ensures
            final(self).same_scope(old(self)),
            final(self)@ == old(self).scope().reached(
                old(self)@,
                old(self).resolving_stack@,
                id,
                import,
                span,
            ),
            match (result, old(self).scope().visit(
                old(self)@,
                old(self).resolving_stack@,
                id,
                import,
                span,
            )) {
                (Ok(_), Ok(state)) => {
                    &&& final(self)@ == state
                    &&& state.taken(id, import)
                    &&& final(self).resolving_stack@ == old(self).resolving_stack@
                    &&& final(self).ready()
                    &&& old(self)@.imported.subset_of(state.imported)
                    &&& old(self)@.exported.subset_of(state.exported)
                },
                (Err(error), Err(expected)) => error@ == expected,
                _ => false,
            },
        decreases old(self).scope().room(old(self).resolving_stack@),
    {
        broadcast use vstd::std_specs::hash::group_hash_axioms;

        let ghost scope = self.scope();
        let ghost chain = self.resolving_stack@;
        let ghost start = self@;
        let fresh = if import {
            self.imports_processed.insert(id)
        } else {
            self.exports_processed.insert(id)
        };
        if !fresh {
            assert(self@ =~= start);
            return Ok(());
        }
        assert(self@ =~= start.take(id, import));
        proof {
            if chain.contains((id, import)) {
                let i = choose|i: int| 0 <= i < chain.len() && chain[i] == (id, import);
                assert(start.taken(chain[i].0, chain[i].1));
            }
            lemma_nodes_push(chain, (id, import));
            lemma_unused_decreases(2 * scope.graph.uses.len(), nodes(chain), node((id, import)));
        }
        self.resolving_stack.push((id, import));
        let ghost inner = self.resolving_stack@;
        let resolve = self.resolve;
        let iface = arena::item(&resolve.interfaces, id);
        let count: usize = names::len(&iface.types);
        for j in 0..count
            invariant
                resolve == self.resolve,
                scope == self.scope(),
                self.same_scope(old(self)),
                inner == self.resolving_stack@,
                inner == chain.push((id, import)),
                id < scope.graph.uses.len(),
                scope.safe_uses(start.take(id, import), inner, id, import, span, count as nat),
                *iface == resolve.interfaces.items()[id as int],
                count == iface.types.entries().len(),
                self.ready(),
                scope.room(inner) < scope.room(chain),
                scope == old(self).scope(),
                chain == old(self).resolving_stack@,
                start.imported.subset_of(self@.imported),
                start.exported.subset_of(self@.exported),
                scope.visit_uses(start.take(id, import), inner, id, import, span, j as nat) == Ok::<
                    Progress,
                    ErrorView,
                >(self@),
                scope.reached_uses(start.take(id, import), inner, id, import, span, j as nat)
                    == self@,
                count == scope.graph.uses[id as int].len(),
                !start.taken(id, import),
                !chain.contains((id, import)),
                start == old(self)@,
        {
            assert(resolve@.interfaces[id as int].types[j as int] == iface.types.entries()[j as int]);
            assert(scope.graph.uses[id as int][j as int] == use_of(
                resolve@.types,
                iface.types.entries()[j as int].1,
            ));
            assert(scope.graph.of_worlds[id as int][j as int] == use_of_world(
                resolve@.types,
                iface.types.entries()[j as int].1,
            ));
            proof {
                let taken = start.take(id, import);
                let (m, n) = ((j + 1) as nat, count as nat);
                scope.lemma_safe_uses_less(taken, inner, id, import, span, m, n);
            }
            let (_, ty) = names::entry(&iface.types, j);
            let def = arena::item(&resolve.types, *ty);
            assert(def@ == resolve@.types[*ty as int]);
            if let TypeDefKind::Type(Type::Id(other)) = def.kind {
                let target = arena::item(&resolve.types, other);
                assert(target@ == resolve@.types[other as int]);
                if let TypeOwner::World(_) = target.owner {
                    unreached::<()>();
                }
                if let TypeOwner::Interface(dep) = target.owner {
                    let import_dep = import || !self.explicit_export_names.contains_key(&dep);
                    proof {
                        assert(scope.graph.uses[id as int][j as int] == Some(dep));
                    }
                    if let Err(error) = self.recurse(dep, span, import_dep) {
                        proof {
                            scope.lemma_visit_uses_stops(
                                start.take(id, import),
                                inner,
                                id,
                                import,
                                span,
                                (j + 1) as nat,
                                count as nat,
                            );
                        }
                        return Err(error);
                    }
                }
            }
        }
        self.resolving_stack.pop();
        assert(self.resolving_stack@ =~= chain);
        let name = self.name_of(id, import);
        if self.names.contains_key(name.as_str()) {
            let msg = self.conflict_message(id, import);
            return Err(Error::at(span, msg));
        }
        let ghost used = self@;
        self.names.insert(name.clone(), import);
        if import {
            proof {
                lemma_put_item(self.imports.entries(), name@, WorldItem::Interface(id));
                assert forall|i: int| 0 <= i < self.imports.entries().len() implies (
                #[trigger] self.imports.entries()[i]).0 != name@ by {
                    assert(used.names.contains(used.imports[i].0));
                }
            }
            names::insert(&mut self.imports, name.clone(), WorldItem::Interface(id));
        } else {
            proof {
                lemma_put_item(self.exports.entries(), name@, WorldItem::Interface(id));
                assert forall|i: int| 0 <= i < self.exports.entries().len() implies (
                #[trigger] self.exports.entries()[i]).0 != name@ by {
                    assert(used.names.contains(used.exports[i].0));
                }
            }
            names::insert(&mut self.exports, name.clone(), WorldItem::Interface(id));
        }
        proof {
            let placed = scope.place(used, chain, id, import, span)->Ok_0;
            assert(self@ =~= placed);
            assert(self@.names_cover());
            assert(self@.covers(chain));
        }
        Ok(())
    }

    fn import(&mut self, id: InterfaceId, span: Span) -> (result: Result<(), Error>)
        requires
            old(self).ready(),
            old(self).resolving_stack@ == Seq::<(InterfaceId, bool)>::empty(),
            old(self).scope().safe(old(self)@, Seq::empty(), id, true, span),
        ensures
            final(self).continues(old(self), id, true, span, result),
    {
        self.recurse(id, span, true)
    }

    fn export(&mut self, id: InterfaceId, span: Span) -> (result: Result<(), Error>)
        requires
            old(self).ready(),
            old(self).resolving_stack@ == Seq::<(InterfaceId, bool)>::empty(),
            old(self).scope().safe(old(self)@, Seq::empty(), id, false, span),
        ensures
            final(self).continues(old(self), id, false, span, result),
    {
        self.recurse(id, span, false)
    }

    /// This is what taking up an interface that the world asks for makes of another state.
    spec fn continues(
        &self,
        before: &Self,
        id: InterfaceId,
        import: bool,
        span: Span,
        result: Result<(), Error>,
    ) -> bool {
        &&& self.same_scope(before)
        &&& self@ == before.scope().reached(before@, Seq::empty(), id, import, span)
        &&& match (result, before.scope().visit(before@, Seq::empty(), id, import, span)) {
            (Ok(_), Ok(state)) => {
                &&& self@ == state
                &&& self.resolving_stack@ == Seq::<(InterfaceId, bool)>::empty()
                &&& self.ready()
            },
            (Err(error), Err(expected)) => error@ == expected,
            _ => false,
        }
    }
}

/// The names that a world gives to the interfaces among its first `n` items.
pub open spec fn explicit_names(
    ids: Seq<InterfaceId>,
    items: Seq<(Seq<char>, ItemView)>,
    n: nat,
) -> Map<InterfaceId, Seq<char>>
    decreases n,
{
    if n == 0 {
        Map::empty()
    } else {
        let names = explicit_names(ids, items, (n - 1) as nat);
        match items[n - 1].1 {
            ItemView::Interface(id) => names.insert(ids[id as int], items[n - 1].0),
            _ => names,
        }
    }
}

/// The interface that a world asks for with each of its items.
pub open spec fn wanted_interfaces(
    ids: Seq<InterfaceId>,
    items: Seq<(Seq<char>, ItemView)>,
) -> Seq<Option<InterfaceId>> {
    Seq::new(
        items.len(),
        |i: int|
            match items[i].1 {
                ItemView::Interface(id) => Some(ids[id as int]),
                _ => None,
            },
    )
}

/// The interface that each type among the items of a world comes from.
pub open spec fn wanted_owners(
    types: Seq<TypeDefView>,
    ids: Seq<TypeId>,
    items: Seq<(Seq<char>, ItemView)>,
) -> Seq<Option<InterfaceId>> {
    Seq::new(
        items.len(),
        |i: int|
            match items[i].1 {
                ItemView::Type(id) => use_of(types, ids[id as int]),
                _ => None,
            },
    )
}

impl Scope {
    /// Takes up the first `n` of the interfaces that a world asks for.
    pub open spec fn visit_all(
        self,
        state: Progress,
        wanted: Seq<Option<InterfaceId>>,
        spans: Seq<Span>,
        import: bool,
        n: nat,
    ) -> Result<Progress, ErrorView>
        decreases n,
    {
        if n == 0 {
            Ok(state)
        } else {
            match self.visit_all(state, wanted, spans, import, (n - 1) as nat) {
                Ok(state) => match wanted[n - 1] {
                    Some(id) => self.visit(state, Seq::empty(), id, import, spans[n - 1]),
                    None => Ok(state),
                },
                Err(error) => Err(error),
            }
        }
    }

    /// The first `n` of the interfaces that a world asks for can be taken up.
    pub open spec fn safe_all(
        self,
        state: Progress,
        wanted: Seq<Option<InterfaceId>>,
        spans: Seq<Span>,
        import: bool,
        n: nat,
    ) -> bool
        decreases n,
    {
        if n == 0 {
            true
        } else {
            let m = (n - 1) as nat;
            &&& self.safe_all(state, wanted, spans, import, m)
            &&& self.visit_all(state, wanted, spans, import, m) matches Ok(state) ==> (
            wanted[n - 1] matches Some(id) ==> self.safe(
                state,
                Seq::empty(),
                id,
                import,
                spans[n - 1],
            ))
        }
    }

    /// If some interfaces can be taken up then so can the first ones of them.
    proof fn lemma_safe_all_less(
        self,
        state: Progress,
        wanted: Seq<Option<InterfaceId>>,
        spans: Seq<Span>,
        import: bool,
        m: nat,
        n: nat,
    )
        requires
            m <= n,
            self.safe_all(state, wanted, spans, import, n),
        ensures
            self.safe_all(state, wanted, spans, import, m),
        decreases n - m,
    {
        if m < n {
            self.lemma_safe_all_less(state, wanted, spans, import, m, (n - 1) as nat);
        }
    }

    proof fn lemma_visit_all_stops(
        self,
        state: Progress,
        wanted: Seq<Option<InterfaceId>>,
        spans: Seq<Span>,
        import: bool,
        m: nat,
        n: nat,
    )
        requires
            m <= n,
        ensures
            self.visit_all(state, wanted, spans, import, m) matches Err(error)
                ==> self.visit_all(state, wanted, spans, import, n) == Err::<Progress, ErrorView>(
                error,
            ),
        decreases n - m,
    {
        if m < n {
            self.lemma_visit_all_stops(state, wanted, spans, import, m, (n - 1) as nat);
        }
    }
}

impl Progress {
    /// Nothing is imported or exported yet.
    pub open spec fn start() -> Progress {
        Progress {
            imported: Set::empty(),
            exported: Set::empty(),
            names: Set::empty(),
            imports: Seq::empty(),
            exports: Seq::empty(),
        }
    }
}

/// The items of a world that are added behind its interfaces, one group after the other.
#[derive(Clone, Copy, Debug, PartialEq, Eq, Structural)]
pub enum Group {
    ImportedTypes,
    ImportedFunctions,
    ExportedFunctions,
}

impl Group {
    pub open spec fn holds(self, item: ItemView) -> bool {
        match self {
            Group::ImportedTypes => item is Type,
            Group::ImportedFunctions | Group::ExportedFunctions => item is Function,
        }
    }

    /// What is wrong when the name of an item is in use.
    pub open spec fn shadows(self, name: Seq<char>) -> Seq<char> {
        match self {
            Group::ImportedTypes => "export of type `"@ + name
                + "` shadows previously imported interface"@,
            Group::ImportedFunctions => "import of function `"@ + name
                + "` shadows previously imported interface"@,
            Group::ExportedFunctions => "export of function `"@ + name
                + "` shadows previously exported interface"@,
        }
    }

    /// Adds those of the first `n` items that are in this group, renumbered, to what a world
    /// imports or exports.
    pub open spec fn added(
        self,
        map: ItemMap,
        start: Seq<(Seq<char>, ItemView)>,
        items: Seq<(Seq<char>, ItemView)>,
        spans: Seq<Span>,
        n: nat,
    ) -> Result<Seq<(Seq<char>, ItemView)>, ErrorView>
        decreases n,
    {
        if n == 0 {
            Ok(start)
        } else {
            match self.added(map, start, items, spans, (n - 1) as nat) {
                Ok(world) => if !self.holds(items[n - 1].1) {
                    Ok(world)
                } else if find(world, items[n - 1].0).is_some() {
                    Err(failure_at(spans[n - 1], self.shadows(items[n - 1].0)))
                } else {
                    Ok(world.push((items[n - 1].0, mapped_item(map, items[n - 1].1))))
                },
                Err(error) => Err(error),
            }
        }
    }

    proof fn lemma_added_stops(
        self,
        map: ItemMap,
        start: Seq<(Seq<char>, ItemView)>,
        items: Seq<(Seq<char>, ItemView)>,
        spans: Seq<Span>,
        m: nat,
        n: nat,
    )
        requires
            m <= n,
        ensures
            self.added(map, start, items, spans, m) matches Err(error) ==> self.added(
                map,
                start,
                items,
                spans,
                n,
            ) == Err::<Seq<(Seq<char>, ItemView)>, ErrorView>(error),
        decreases n - m,
    {
        if m < n {
            self.lemma_added_stops(map, start, items, spans, m, (n - 1) as nat);
        }
    }
}

/// The interfaces that a world can choose from, with the names that it gives to some.
pub open spec fn world_scope(
    map: ItemMap,
    types: Seq<TypeDefView>,
    interfaces: Seq<InterfaceView>,
    world: WorldView,
) -> Scope {
    Scope {
        graph: use_graph(types, interfaces),
        import_names: explicit_names(map.interfaces, world.imports, world.imports.len()),
        export_names: explicit_names(map.interfaces, world.exports, world.exports.len()),
    }
}

/// The interfaces that a world imports and exports: those that it asks for, those that the types
/// it imports come from, and everything that these use.
pub open spec fn elaborated_interfaces(
    map: ItemMap,
    types: Seq<TypeDefView>,
    interfaces: Seq<InterfaceView>,
    world: WorldView,
    import_spans: Seq<Span>,
    export_spans: Seq<Span>,
) -> Result<Progress, ErrorView> {
    let scope = world_scope(map, types, interfaces, world);
    let named = scope.visit_all(
        Progress::start(),
        wanted_interfaces(map.interfaces, world.imports),
        import_spans,
        true,
        world.imports.len(),
    );
    match named {
        Err(error) => Err(error),
        Ok(state) => {
            let owners = scope.visit_all(
                state,
                wanted_owners(types, map.types, world.imports),
                import_spans,
                true,
                world.imports.len(),
            );
            match owners {
                Err(error) => Err(error),
                Ok(state) => scope.visit_all(
                    state,
                    wanted_interfaces(map.interfaces, world.exports),
                    export_spans,
                    false,
                    world.exports.len(),
                ),
            }
        },
    }
}

/// The world that a world becomes: the interfaces come first, then imported types, then functions.
pub open spec fn elaborated(
    map: ItemMap,
    types: Seq<TypeDefView>,
    interfaces: Seq<InterfaceView>,
    world: WorldView,
    import_spans: Seq<Span>,
    export_spans: Seq<Span>,
) -> Result<WorldView, ErrorView> {
    match elaborated_interfaces(map, types, interfaces, world, import_spans, export_spans) {
        Err(error) => Err(error),
        Ok(state) => {
            let imports = world.imports.len();
            match Group::ImportedTypes.added(
                map,
                state.imports,
                world.imports,
                import_spans,
                imports,
            ) {
                Err(error) => Err(error),
                Ok(with_types) => match Group::ImportedFunctions.added(
                    map,
                    with_types,
                    world.imports,
                    import_spans,
                    imports,
                ) {
                    Err(error) => Err(error),
                    Ok(all_imports) => match Group::ExportedFunctions.added(
                        map,
                        state.exports,
                        world.exports,
                        export_spans,
                        world.exports.len(),
                    ) {
                        Err(error) => Err(error),
                        Ok(all_exports) => Ok(
                            WorldView { imports: all_imports, exports: all_exports, ..world },
                        ),
                    },
                },
            }
        },
    }
}

/// A world asks for no interface twice.
pub open spec fn asks_once(ids: Seq<InterfaceId>, items: Seq<(Seq<char>, ItemView)>) -> bool {
    forall|i: int, j: int|
        #![trigger items[i], items[j]]
        0 <= i < j < items.len() ==> (items[i].1 matches ItemView::Interface(a) ==> (
        items[j].1 matches ItemView::Interface(b) ==> ids[a as int] != ids[b as int]))
}

/// A world asks for an interface.
pub open spec fn asks_for(
    ids: Seq<InterfaceId>,
    items: Seq<(Seq<char>, ItemView)>,
    id: InterfaceId,
) -> bool {
    exists|i: int|
        0 <= i < items.len() && ((#[trigger] items[i]).1 matches ItemView::Interface(x)
            && ids[x as int] == id)
}

/// A world has a reason to take up an interface: it asks for it, or it imports a type of it.
pub open spec fn wants(map: ItemMap, types: Seq<TypeDefView>, world: WorldView, step: Step) -> bool {
    if step.1 {
        ||| wanted_interfaces(map.interfaces, world.imports).contains(Some(step.0))
        ||| wanted_owners(types, map.types, world.imports).contains(Some(step.0))
    } else {
        wanted_interfaces(map.interfaces, world.exports).contains(Some(step.0))
    }
}

/// A world needs an interface: one that it has a reason to take up leads to it.
pub open spec fn needs(
    map: ItemMap,
    types: Seq<TypeDefView>,
    interfaces: Seq<InterfaceView>,
    world: WorldView,
    step: Step,
) -> bool {
    exists|first: Step| #[trigger]
        wants(map, types, world, first) && world_scope(map, types, interfaces, world).reaches(
            first,
            step,
        )
}

/// The interfaces that a world needs can be taken up, in the order in which they are.
pub open spec fn interfaces_ready(
    map: ItemMap,
    types: Seq<TypeDefView>,
    interfaces: Seq<InterfaceView>,
    world: WorldView,
    import_spans: Seq<Span>,
    export_spans: Seq<Span>,
) -> bool {
    let scope = world_scope(map, types, interfaces, world);
    let imports = wanted_interfaces(map.interfaces, world.imports);
    let owners = wanted_owners(types, map.types, world.imports);
    let exports = wanted_interfaces(map.interfaces, world.exports);
    let start = Progress::start();
    &&& scope.safe_all(start, imports, import_spans, true, imports.len())
    &&& scope.visit_all(start, imports, import_spans, true, imports.len()) matches Ok(named) ==> {
        &&& scope.safe_all(named, owners, import_spans, true, owners.len())
        &&& scope.visit_all(named, owners, import_spans, true, owners.len()) matches Ok(owned)
            ==> scope.safe_all(owned, exports, export_spans, false, exports.len())
    }
}

/// A world can be elaborated: what it asks for is there, once each, and whatever is looked up on
/// the way is there as well.
pub open spec fn world_ready(
    map: ItemMap,
    types: Seq<TypeDefView>,
    interfaces: Seq<InterfaceView>,
    world: WorldView,
    import_spans: Seq<Span>,
    export_spans: Seq<Span>,
) -> bool {
    &&& items_within(world.imports, map.interfaces.len(), map.types.len())
    &&& items_within(world.exports, map.interfaces.len(), map.types.len())
    &&& asks_once(map.interfaces, world.imports)
    &&& asks_once(map.interfaces, world.exports)
    &&& forall|i: int|
        0 <= i < world.imports.len() ==> ((#[trigger] world.imports[i]).1 matches ItemView::Type(id)
            ==> use_valid(types, interfaces, map.types[id as int]))
    &&& forall|i: int| 0 <= i < world.exports.len() ==> !((#[trigger] world.exports[i]).1 is Type)
    &&& interfaces_ready(map, types, interfaces, world, import_spans, export_spans)
}

/// Every id of a mapping is below `n`.
pub open spec fn below(ids: Seq<usize>, n: nat) -> bool {
    forall|i: int| 0 <= i < ids.len() ==> #[trigger] ids[i] < n
}

/// The view of a list of names and world items.
pub open spec fn item_pairs(items: Seq<(String, WorldItem)>) -> Seq<(Seq<char>, ItemView)> {
    Seq::new(items.len(), |i: int| (items[i].0@, items[i].1@))
}

/// Records the names that a world gives to interfaces.
fn explicit(ids: &Vec<InterfaceId>, items: &Vec<(String, WorldItem)>) -> (names: HashMap<
    InterfaceId,
    String,
>)
    requires
        forall|i: int|
            0 <= i < items@.len() ==> ((#[trigger] items@[i]).1 matches WorldItem::Interface(id)
                ==> id < ids@.len()),
        asks_once(ids@, item_pairs(items@)),
    ensures
        name_texts(names@) == explicit_names(ids@, item_pairs(items@), items@.len()),
{
    broadcast use vstd::std_specs::hash::group_hash_axioms;

    let mut names: HashMap<InterfaceId, String> = HashMap::new();
    assert(name_texts(names@) =~= Map::empty());
    for i in 0..items.len()
        invariant
            name_texts(names@) == explicit_names(ids@, item_pairs(items@), i as nat),
            asks_once(ids@, item_pairs(items@)),
            forall|id: InterfaceId| #[trigger]
                names@.contains_key(id) ==> asks_for(ids@, item_pairs(items@).take(i as int), id),
            forall|i: int|
                0 <= i < items@.len() ==> ((#[trigger] items@[i]).1 matches WorldItem::Interface(
                    id,
                ) ==> id < ids@.len()),
    {
        let ghost before = names@;
        let item = &items[i];
        assert(item_pairs(items@)[i as int] == (item.0@, item.1@));
        if let WorldItem::Interface(id) = item.1 {
            let name = item.0.clone();
            let prev = names.insert(ids[id], name);
            runtime_assert(prev.is_none());
            assert(name_texts(names@) =~= name_texts(before).insert(ids@[id as int], name@));
        }
        proof {
            let (all, n) = (item_pairs(items@), i as int);
            assert forall|id: InterfaceId| #[trigger] names@.contains_key(id) implies asks_for(
                ids@,
                all.take(n + 1),
                id,
            ) by {
                if before.contains_key(id) {
                    assert(asks_for(ids@, all.take(n), id));
                    let k = choose|k: int|
                        0 <= k < n && ((#[trigger] all.take(n)[k]).1 matches ItemView::Interface(x)
                            && ids@[x as int] == id);
                    assert(all.take(n + 1)[k] == all.take(n)[k]);
                } else {
                    assert(all.take(n + 1)[n] == all[n]);
                }
            }
        }
    }
    names
}

/// Lists the interfaces that a world asks for.
fn list_interfaces(
    ids: &Vec<InterfaceId>,
    items: &Vec<(String, WorldItem)>,
    import: bool,
) -> (wanted: Vec<Option<InterfaceId>>)
    requires
        forall|i: int|
            0 <= i < items@.len() ==> match (#[trigger] items@[i]).1 {
                WorldItem::Interface(id) => id < ids@.len(),
                WorldItem::Function(_) => true,
                WorldItem::Type(_) => import,
            },
    ensures
        wanted@ == wanted_interfaces(ids@, item_pairs(items@)),
{
    let mut wanted: Vec<Option<InterfaceId>> = Vec::new();
    for i in 0..items.len()
        invariant
            wanted@.len() == i,
            forall|j: int|
                0 <= j < i ==> #[trigger] wanted@[j] == wanted_interfaces(
                    ids@,
                    item_pairs(items@),
                )[j],
            forall|i: int|
                0 <= i < items@.len() ==> match (#[trigger] items@[i]).1 {
                    WorldItem::Interface(id) => id < ids@.len(),
                    WorldItem::Function(_) => true,
                    WorldItem::Type(_) => import,
                },
    {
        match &items[i].1 {
            WorldItem::Interface(id) => wanted.push(Some(ids[*id])),
            WorldItem::Function(_) => wanted.push(None),
            WorldItem::Type(_) => {
                runtime_assert(import);
                wanted.push(None);
            },
        }
    }
    assert(wanted@ =~= wanted_interfaces(ids@, item_pairs(items@)));
    wanted
}

/// Lists the interfaces that the types among the items of a world come from.
fn list_owners(resolve: &Resolve, ids: &Vec<TypeId>, items: &Vec<(String, WorldItem)>) -> (wanted:
    Vec<Option<InterfaceId>>)
    requires
        forall|i: int|
            0 <= i < items@.len() ==> ((#[trigger] items@[i]).1 matches WorldItem::Type(id) ==> id
                < ids@.len() && use_valid(
                resolve@.types,
                resolve@.interfaces,
                ids@[id as int],
            )),
    ensures
        wanted@ == wanted_owners(resolve@.types, ids@, item_pairs(items@)),
{
    let mut wanted: Vec<Option<InterfaceId>> = Vec::new();
    for i in 0..items.len()
        invariant
            wanted@.len() == i,
            forall|j: int|
                0 <= j < i ==> #[trigger] wanted@[j] == wanted_owners(
                    resolve@.types,
                    ids@,
                    item_pairs(items@),
                )[j],
            forall|i: int|
                0 <= i < items@.len() ==> ((#[trigger] items@[i]).1 matches WorldItem::Type(id)
                    ==> id < ids@.len() && use_valid(
                    resolve@.types,
                    resolve@.interfaces,
                    ids@[id as int],
                )),
    {
        let mut owner: Option<InterfaceId> = None;
        if let WorldItem::Type(id) = items[i].1 {
            let def = arena::item(&resolve.types, ids[id]);
            assert(def@ == resolve@.types[ids@[id as int] as int]);
            if let TypeDefKind::Type(Type::Id(other)) = def.kind {
                let target = arena::item(&resolve.types, other);
                assert(target@ == resolve@.types[other as int]);
                if let TypeOwner::Interface(id) = target.owner {
                    owner = Some(id);
                }
            }
        }
        wanted.push(owner);
    }
    assert(wanted@ =~= wanted_owners(resolve@.types, ids@, item_pairs(items@)));
    wanted
}

impl<'a> WorldElaborator<'a> {
    /// Takes up the interfaces that the world asks for.
    fn visit_wanted(
        &mut self,
        wanted: &Vec<Option<InterfaceId>>,
        spans: &Vec<Span>,
        import: bool,
    ) -> (result: Result<(), Error>)
        requires
            old(self).ready(),
            old(self).resolving_stack@ == Seq::<(InterfaceId, bool)>::empty(),
            wanted@.len() == spans@.len(),
            old(self).scope().safe_all(old(self)@, wanted@, spans@, import, wanted@.len()),
        ensures
            final(self).same_scope(old(self)),
            match (result, old(self).scope().visit_all(
                old(self)@,
                wanted@,
                spans@,
                import,
                wanted@.len(),
            )) {
                (Ok(_), Ok(state)) => {
                    &&& final(self)@ == state
                    &&& final(self).resolving_stack@ == Seq::<(InterfaceId, bool)>::empty()
                    &&& final(self).ready()
                },
                (Err(error), Err(expected)) => error@ == expected,
                _ => false,
            },
    {
        let ghost scope = self.scope();
        let ghost start = self@;
        for i in 0..wanted.len()
            invariant
                self.same_scope(old(self)),
                scope == self.scope(),
                scope == old(self).scope(),
                start == old(self)@,
                self.ready(),
                self.resolving_stack@ == Seq::<(InterfaceId, bool)>::empty(),
                wanted@.len() == spans@.len(),
                scope.safe_all(start, wanted@, spans@, import, wanted@.len()),
                scope.visit_all(start, wanted@, spans@, import, i as nat) == Ok::<
                    Progress,
                    ErrorView,
                >(self@),
        {
            proof {
                let (m, n) = ((i + 1) as nat, wanted@.len());
                scope.lemma_safe_all_less(start, wanted@, spans@, import, m, n);
            }
            if let Some(id) = wanted[i] {
                let result = if import {
                    self.import(id, spans[i])
                } else {
                    self.export(id, spans[i])
                };
                if let Err(error) = result {
                    proof {
                        scope.lemma_visit_all_stops(
                            start,
                            wanted@,
                            spans@,
                            import,
                            (i + 1) as nat,
                            wanted@.len(),
                        );
                    }
                    return Err(error);
                }
            }
        }
        Ok(())
    }
}

impl Group {
    fn message(self, name: &String) -> (msg: String)
        ensures
            msg@ == self.shadows(name@),
    {
        let text = name.as_str();
        match self {
            Group::ImportedTypes => sentence(
                "export of type `",
                text,
                "` shadows previously imported interface",
            ),
            Group::ImportedFunctions => sentence(
                "import of function `",
                text,
                "` shadows previously imported interface",
            ),
            Group::ExportedFunctions => sentence(
                "export of function `",
                text,
                "` shadows previously exported interface",
            ),
        }
    }

    fn has(self, item: &WorldItem) -> (held: bool)
        ensures
            held == self.holds(item@),
    {
        match (self, item) {
            (Group::ImportedTypes, WorldItem::Type(_)) => true,
            (Group::ImportedFunctions, WorldItem::Function(_)) => true,
            (Group::ExportedFunctions, WorldItem::Function(_)) => true,
            _ => false,
        }
    }

    /// Adds the items in this group to what a world imports or exports.
    fn add_to(
        self,
        remap: &Remap,
        world: &mut IndexMap<String, WorldItem>,
        items: &Vec<(String, WorldItem)>,
        spans: &Vec<Span>,
    ) -> (result: Result<(), Error>)
        requires
            items@.len() == spans@.len(),
            items_within(
                item_pairs(items@),
                remap.interfaces@.len(),
                remap.types@.len(),
            ),
        ensures
            match (result, self.added(
                remap@.item_map(),
                entry_views(old(world).entries()),
                item_pairs(items@),
                spans@,
                items@.len(),
            )) {
                (Ok(_), Ok(all)) => entry_views(final(world).entries()) == all,
                (Err(error), Err(expected)) => error@ == expected,
                _ => false,
            },
    {
        let ghost start = entry_views(world.entries());
        let ghost pairs = item_pairs(items@);
        for i in 0..items.len()
            invariant
                items@.len() == spans@.len(),
                pairs == item_pairs(items@),
                items_within(pairs, remap.interfaces@.len(), remap.types@.len()),
                start == entry_views(old(world).entries()),
                self.added(remap@.item_map(), start, pairs, spans@, i as nat) == Ok::<
                    Seq<(Seq<char>, ItemView)>,
                    ErrorView,
                >(entry_views(world.entries())),
        {
            let (name, item) = &items[i];
            assert(pairs[i as int] == (name@, item@));
            if self.has(item) {
                let mut copy = item.clone();
                remap.update_item(&mut copy);
                proof {
                    lemma_find_same(world.entries(), entry_views(world.entries()), name@);
                    lemma_find(world.entries(), name@);
                    lemma_put_item(world.entries(), name@, copy);
                }
                let previous = names::insert(world, name.clone(), copy);
                if previous.is_some() {
                    proof {
                        self.lemma_added_stops(
                            remap@.item_map(),
                            start,
                            pairs,
                            spans@,
                            (i + 1) as nat,
                            items@.len(),
                        );
                    }
                    return Err(Error::at(spans[i], self.message(name)));
                }
            }
        }
        Ok(())
    }
}

impl Remap {
    /// Renumbers what a world refers to and expands its imports and exports fully.
    ///
    /// With full transitive knowledge of all interfaces a world's imports are expanded to ensure
    /// that all transitive items are necessarily imported.
    pub(crate) fn update_world(
        &self,
        world: World,
        resolve: &Resolve,
        import_spans: &Vec<Span>,
        export_spans: &Vec<Span>,
    ) -> (result: Result<World, Error>)
        requires
            world@.imports.len() == import_spans@.len(),
            world@.exports.len() == export_spans@.len(),
            below(self.interfaces@, resolve@.interfaces.len()),
            below(self.types@, resolve@.types.len()),
            uses_within(resolve@.types, resolve@.interfaces),
            world_ready(
                self@.item_map(),
                resolve@.types,
                resolve@.interfaces,
                world@,
                import_spans@,
                export_spans@,
            ),
        ensures
            match (result, elaborated(
                self@.item_map(),
                resolve@.types,
                resolve@.interfaces,
                world@,
                import_spans@,
                export_spans@,
            )) {
                (Ok(world), Ok(expected)) => world@ == expected,
                (Err(error), Err(expected)) => error@ == expected,
                _ => false,
            },
    {
        let ghost view = world@;
        let World { name, imports, exports, document } = world;
        let imports = names::into_entries(imports);
        let exports = names::into_entries(exports);
        proof {
            assert(item_pairs(imports@) =~= view.imports);
            assert(item_pairs(exports@) =~= view.exports);
            assert forall|i: int| 0 <= i < imports@.len() implies item_pairs(imports@)[i]
                == view.imports[i] && (#[trigger] imports@[i]).1@ == view.imports[i].1 by {}
            assert forall|i: int| 0 <= i < exports@.len() implies item_pairs(exports@)[i]
                == view.exports[i] && (#[trigger] exports@[i]).1@ == view.exports[i].1 by {}
        }
        runtime_assert(imports.len() == import_spans.len());
        runtime_assert(exports.len() == export_spans.len());
        let explicit_import_names = explicit(&self.interfaces, &imports);
        let explicit_export_names = explicit(&self.interfaces, &exports);
        let wanted_imports = list_interfaces(&self.interfaces, &imports, true);
        let wanted_owners = list_owners(resolve, &self.types, &imports);
        let wanted_exports = list_interfaces(&self.interfaces, &exports, false);
        let mut elaborate = WorldElaborator {
            resolve,
            imports: names::new_world_items(),
            exports: names::new_world_items(),
            explicit_import_names: &explicit_import_names,
            explicit_export_names: &explicit_export_names,
            names: StringHashMap::new(),
            imports_processed: HashSet::new(),
            exports_processed: HashSet::new(),
            resolving_stack: Vec::new(),
        };
        assert(elaborate@ =~= Progress::start());
        let ghost scope = world_scope(self@.item_map(), resolve@.types, resolve@.interfaces, view);
        assert(elaborate.scope() =~= scope);
        if let Err(error) = elaborate.visit_wanted(&wanted_imports, import_spans, true) {
            return Err(error);
        }
        if let Err(error) = elaborate.visit_wanted(&wanted_owners, import_spans, true) {
            return Err(error);
        }
        if let Err(error) = elaborate.visit_wanted(&wanted_exports, export_spans, false) {
            return Err(error);
        }
        let WorldElaborator { imports: mut all_imports, exports: mut all_exports, .. } = elaborate;
        if let Err(error) = Group::ImportedTypes.add_to(
            self,
            &mut all_imports,
            &imports,
            import_spans,
        ) {
            return Err(error);
        }
        if let Err(error) = Group::ImportedFunctions.add_to(
            self,
            &mut all_imports,
            &imports,
            import_spans,
        ) {
            return Err(error);
        }
        if let Err(error) = Group::ExportedFunctions.add_to(
            self,
            &mut all_exports,
            &exports,
            export_spans,
        ) {
            return Err(error);
        }
        Ok(World { name, imports: all_imports, exports: all_exports, document })
    }
}

} // verus!
