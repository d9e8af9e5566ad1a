//! Matching a resolve with one that has a counterpart of everything in it.
use vstd::prelude::*;

use crate::held::functions_found;
use crate::matching::{
    find_package, matched_document, matched_document_interfaces, matched_document_worlds,
    matched_documents, matched_functions, matched_interface, matched_item, matched_items,
    matched_packages, matched_types, matched_world, Plan, Stop,
};
use crate::names::{find, lemma_find, lookup};
use crate::parents::lemma_lookup_at;
use crate::remap::{item_within, items_within, RemapView};
use crate::resolve::ResolveView;
use crate::types::{DocumentId, InterfaceId, InterfaceView, ItemView, PackageId, TypeId, WorldId};
use crate::worlds::ItemList;

verus! {

/// An item has a counterpart in a list: under the same name stands what the mapping leads to.
pub open spec fn item_found(
    map: RemapView,
    entry: (Seq<char>, ItemView),
    items: ItemList,
) -> bool {
    lookup(items, entry.0) matches Some(other) && match (entry.1, other) {
        (ItemView::Interface(x), ItemView::Interface(y)) => y == map.interfaces[x as int],
        (ItemView::Function(_), ItemView::Function(_)) => true,
        (ItemView::Type(x), ItemView::Type(y)) => y == map.types[x as int],
        _ => false,
    }
}

pub open spec fn items_found(map: RemapView, from: ItemList, into: ItemList) -> bool {
    forall|j: int| 0 <= j < from.len() ==> item_found(map, #[trigger] from[j], into)
}

/// Every name of one list stands in another, for what the mapping leads to.
pub open spec fn ids_found(
    ids: Seq<usize>,
    from: Seq<(Seq<char>, usize)>,
    into: Seq<(Seq<char>, usize)>,
) -> bool {
    forall|j: int|
        0 <= j < from.len() ==> lookup(into, (#[trigger] from[j]).0) == Some(ids[from[j].1 as int])
}

/// The package that the mapping leads to is the one that is found for a package, and lists what
/// that package lists.
pub open spec fn package_found(
    from: ResolveView,
    into: ResolveView,
    map: RemapView,
    p: int,
) -> bool {
    &&& find_package(into.packages, from.packages[p], into.packages.len()) == Some(
        map.packages[p] as int,
    )
    &&& ids_found(
        map.documents,
        from.packages[p].documents,
        into.packages[map.packages[p] as int].documents,
    )
}

/// The document that the mapping leads to lists what a document lists.
pub open spec fn document_found(
    from: ResolveView,
    into: ResolveView,
    map: RemapView,
    d: int,
) -> bool {
    let (a, b) = (from.documents[d], into.documents[map.documents[d] as int]);
    &&& ids_found(map.interfaces, a.interfaces, b.interfaces)
    &&& ids_found(map.worlds, a.worlds, b.worlds)
}

/// The interface that the mapping leads to holds what an interface holds.
pub open spec fn interface_found(
    from: ResolveView,
    into: ResolveView,
    map: RemapView,
    i: int,
) -> bool {
    let (a, b) = (from.interfaces[i], into.interfaces[map.interfaces[i] as int]);
    &&& a.name == b.name
    &&& ids_found(map.types, a.types, b.types)
    &&& functions_found(a, b)
}

/// The world that the mapping leads to imports and exports what a world does.
pub open spec fn world_found(from: ResolveView, into: ResolveView, map: RemapView, w: int) -> bool {
    let (a, b) = (from.worlds[w], into.worlds[map.worlds[w] as int]);
    &&& a.imports.len() == b.imports.len()
    &&& a.exports.len() == b.exports.len()
    &&& items_found(map, a.imports, b.imports)
    &&& items_found(map, a.exports, b.exports)
}

/// Everything in one resolve has a counterpart in another, which a mapping leads to.
pub open spec fn contained(from: ResolveView, into: ResolveView, map: RemapView) -> bool {
    &&& forall|p: int|
        0 <= p < from.packages.len() ==> #[trigger] package_found(from, into, map, p)
    &&& forall|d: int|
        0 <= d < from.documents.len() ==> #[trigger] document_found(from, into, map, d)
    &&& forall|i: int|
        0 <= i < from.interfaces.len() ==> #[trigger] interface_found(from, into, map, i)
    &&& forall|w: int| 0 <= w < from.worlds.len() ==> #[trigger] world_found(from, into, map, w)
}

/// The first of two documents is listed no later than the second.
pub open spec fn listed_no_later(resolve: ResolveView, a: DocumentId, b: DocumentId) -> bool {
    let (first, second) = (resolve.documents[a as int], resolve.documents[b as int]);
    match (first.package, second.package) {
        (Some(p), Some(q)) => p < q || p == q && match (
            find(resolve.packages[p as int].documents, first.name),
            find(resolve.packages[p as int].documents, second.name),
        ) {
            (Some(i), Some(j)) => i <= j,
            _ => false,
        },
        _ => false,
    }
}

/// The interfaces with a name that worlds import or export are in documents that are listed no
/// later than those of the worlds.
pub open spec fn worlds_follow(resolve: ResolveView) -> bool {
    forall|w: int, import: bool, j: int|
        #![trigger resolve.world_items(w, import)[j]]
        0 <= w < resolve.worlds.len() && 0 <= j < resolve.world_items(w, import).len() ==> (
        resolve.world_items(w, import)[j].1 matches ItemView::Interface(x)
            ==> resolve.interfaces[x as int].name.is_some() ==> listed_no_later(
            resolve,
            resolve.interfaces[x as int].document,
            resolve.worlds[w].document,
        ))
}

impl Plan {
    /// Whatever is matched is matched with what the mapping leads to.
    pub open spec fn follows(self, map: RemapView) -> bool {
        &&& forall|p: PackageId| #[trigger]
            self.packages.contains_key(p) ==> self.packages[p] == map.packages[p as int]
        &&& forall|d: DocumentId| #[trigger]
            self.documents.contains_key(d) ==> self.documents[d] == map.documents[d as int]
        &&& forall|i: InterfaceId| #[trigger]
            self.interfaces.contains_key(i) ==> self.interfaces[i] == map.interfaces[i as int]
        &&& forall|w: WorldId| #[trigger]
            self.worlds.contains_key(w) ==> self.worlds[w] == map.worlds[w as int]
        &&& forall|t: TypeId| #[trigger]
            self.types.contains_key(t) ==> self.types[t] == map.types[t as int]
    }

    /// Nothing more is to be listed than before, and what was matched still is.
    pub open spec fn lists_no_more(self, before: Plan) -> bool {
        &&& self.new_documents == before.new_documents
        &&& self.new_interfaces == before.new_interfaces
        &&& self.new_worlds == before.new_worlds
        &&& before.packages.dom().subset_of(self.packages.dom())
        &&& before.documents.dom().subset_of(self.documents.dom())
        &&& before.interfaces.dom().subset_of(self.interfaces.dom())
        &&& before.worlds.dom().subset_of(self.worlds.dom())
        &&& before.types.dom().subset_of(self.types.dom())
    }

    /// The first `n` of some interfaces and types are matched.
    pub open spec fn items_covered(self, items: ItemList, n: nat) -> bool {
        forall|j: int|
            0 <= j < n ==> match (#[trigger] items[j]).1 {
                ItemView::Interface(x) => self.interfaces.contains_key(x),
                ItemView::Type(t) => self.types.contains_key(t),
                ItemView::Function(_) => true,
            }
    }

    /// The interfaces with a name are matched.
    pub open spec fn named_covered(self, from: ResolveView, items: ItemList) -> bool {
        forall|j: int|
            0 <= j < items.len() ==> ((#[trigger] items[j]).1 matches ItemView::Interface(x)
                ==> from.interfaces[x as int].name.is_some() ==> self.interfaces.contains_key(x))
    }

    pub open spec fn world_covered(self, from: ResolveView, w: WorldId) -> bool {
        let world = from.worlds[w as int];
        &&& self.worlds.contains_key(w)
        &&& self.items_covered(world.imports, world.imports.len())
        &&& self.items_covered(world.exports, world.exports.len())
    }

    /// The first `m` interfaces and the first `n` worlds of a document are matched.
    pub open spec fn document_covered(
        self,
        from: ResolveView,
        d: DocumentId,
        m: nat,
        n: nat,
    ) -> bool {
        let doc = from.documents[d as int];
        &&& forall|j: int|
            0 <= j < m ==> self.interfaces.contains_key((#[trigger] doc.interfaces[j]).1)
        &&& forall|j: int| 0 <= j < n ==> self.world_covered(from, (#[trigger] doc.worlds[j]).1)
    }

    /// The first `n` documents of a package are matched.
    pub open spec fn documents_covered(self, from: ResolveView, p: int, n: nat) -> bool {
        forall|j: int|
            0 <= j < n ==> {
                let d = (#[trigger] from.packages[p].documents[j]).1;
                let doc = from.documents[d as int];
                &&& self.documents.contains_key(d)
                &&& self.document_covered(from, d, doc.interfaces.len(), doc.worlds.len())
            }
    }

    /// The first `n` packages are matched.
    pub open spec fn packages_covered(self, from: ResolveView, n: nat) -> bool {
        forall|p: PackageId|
            p < n ==> #[trigger] self.packages.contains_key(p) && self.documents_covered(
                from,
                p as int,
                from.packages[p as int].documents.len(),
            )
    }
}

/// Matching either comes to an end that lists nothing more and follows the mapping, or stops
/// because an item would be matched twice.
pub open spec fn settled(result: Result<Plan, Stop>, before: Plan, map: RemapView) -> bool {
    match result {
        Ok(after) => after.follows(map) && after.lists_no_more(before),
        Err(stop) => stop == Stop::Repeated,
    }
}

proof fn lemma_types_settled(
    plan: Plan,
    from: InterfaceView,
    into: InterfaceView,
    map: RemapView,
    n: nat,
)
    requires
        n <= from.types.len(),
        plan.follows(map),
        ids_found(map.types, from.types, into.types),
    ensures
        settled(matched_types(plan, from, into, n), plan, map),
    decreases n,
{
    if n > 0 {
        lemma_types_settled(plan, from, into, map, (n - 1) as nat);
        assert(lookup(into.types, from.types[n - 1].0) == Some(
            map.types[from.types[n - 1].1 as int],
        ));
    }
}

proof fn lemma_functions_settled(plan: Plan, from: InterfaceView, into: InterfaceView, n: nat)
    requires
        n <= from.functions.len(),
        functions_found(from, into),
    ensures
        matched_functions(plan, from, into, n) == Ok::<Plan, Stop>(plan),
    decreases n,
{
    if n > 0 {
        lemma_functions_settled(plan, from, into, (n - 1) as nat);
        assert(find(into.functions, from.functions[n - 1].0).is_some());
    }
}

proof fn lemma_interface_settled(
    plan: Plan,
    from: ResolveView,
    into: ResolveView,
    map: RemapView,
    i: InterfaceId,
)
    requires
        plan.follows(map),
        interface_found(from, into, map, i as int),
    ensures
        settled(matched_interface(plan, from, into, i, map.interfaces[i as int]), plan, map),
        matched_interface(plan, from, into, i, map.interfaces[i as int]) matches Ok(after)
            ==> after.interfaces.contains_key(i),
{
    let a = from.interfaces[i as int];
    let b = into.interfaces[map.interfaces[i as int] as int];
    if let Ok(paired) = plan.with_interface(i, map.interfaces[i as int]) {
        lemma_types_settled(paired, a, b, map, a.types.len());
        if let Ok(typed) = matched_types(paired, a, b, a.types.len()) {
            lemma_functions_settled(typed, a, b, a.functions.len());
        }
    }
}

proof fn lemma_items_settled(
    plan: Plan,
    from: ResolveView,
    into: ResolveView,
    map: RemapView,
    desc: Seq<char>,
    from_items: ItemList,
    into_items: ItemList,
    n: nat,
)
    requires
        n <= from_items.len(),
        contained(from, into, map),
        plan.follows(map),
        items_within(from_items, from.interfaces.len(), from.types.len()),
        items_found(map, from_items, into_items),
        plan.named_covered(from, from_items),
    ensures
        settled(matched_items(plan, from, into, desc, from_items, into_items, n), plan, map),
        matched_items(plan, from, into, desc, from_items, into_items, n) matches Ok(after)
            ==> after.items_covered(from_items, n),
    decreases n,
{
    if n > 0 {
        let m = (n - 1) as nat;
        lemma_items_settled(plan, from, into, map, desc, from_items, into_items, m);
        if let Ok(before) = matched_items(plan, from, into, desc, from_items, into_items, m) {
            let (name, item) = from_items[n - 1];
            assert(item_found(map, from_items[n - 1], into_items));
            assert(item_within(item, from.interfaces.len(), from.types.len()));
            let other = lookup(into_items, name)->Some_0;
            if let ItemView::Interface(x) = item {
                assert(interface_found(from, into, map, x as int));
                lemma_interface_settled(before, from, into, map, x);
            }
            assert(settled(matched_item(before, from, into, item, other), before, map));
        }
    }
}

proof fn lemma_world_settled(
    plan: Plan,
    from: ResolveView,
    into: ResolveView,
    map: RemapView,
    w: WorldId,
)
    requires
        from.valid(),
        w < from.worlds.len(),
        contained(from, into, map),
        plan.follows(map),
        plan.named_covered(from, from.worlds[w as int].imports),
        plan.named_covered(from, from.worlds[w as int].exports),
    ensures
        settled(matched_world(plan, from, into, w, map.worlds[w as int]), plan, map),
        matched_world(plan, from, into, w, map.worlds[w as int]) matches Ok(after)
            ==> after.world_covered(from, w),
{
    let a = from.worlds[w as int];
    let b = into.worlds[map.worlds[w as int] as int];
    let (m, n) = (a.imports.len(), a.exports.len());
    assert(world_found(from, into, map, w as int));
    assert(from.world_valid(w as int));
    if let Ok(paired) = plan.with_world(w, map.worlds[w as int]) {
        lemma_items_settled(paired, from, into, map, "import"@, a.imports, b.imports, m);
        if let Ok(first) = matched_items(
            paired,
            from,
            into,
            "import"@,
            a.imports,
            b.imports,
            m,
        ) {
            lemma_items_settled(first, from, into, map, "export"@, a.exports, b.exports, n);
        }
    }
}

/// What was covered still is when more is matched.
proof fn lemma_covered_more(
    before: Plan,
    after: Plan,
    from: ResolveView,
    d: DocumentId,
    m: nat,
    n: nat,
)
    requires
        after.lists_no_more(before),
        before.document_covered(from, d, m, n),
    ensures
        after.document_covered(from, d, m, n),
{
    let doc = from.documents[d as int];
    assert forall|j: int| 0 <= j < m implies after.interfaces.contains_key(
        (#[trigger] doc.interfaces[j]).1,
    ) by {
        assert(before.interfaces.contains_key(doc.interfaces[j].1));
    }
    assert forall|j: int| 0 <= j < n implies after.world_covered(
        from,
        (#[trigger] doc.worlds[j]).1,
    ) by {
        assert(before.world_covered(from, doc.worlds[j].1));
    }
}

proof fn lemma_documents_covered_more(
    before: Plan,
    after: Plan,
    from: ResolveView,
    p: int,
    n: nat,
)
    requires
        after.lists_no_more(before),
        before.documents_covered(from, p, n),
    ensures
        after.documents_covered(from, p, n),
{
    assert forall|j: int| 0 <= j < n implies {
        let d = (#[trigger] from.packages[p].documents[j]).1;
        let doc = from.documents[d as int];
        &&& after.documents.contains_key(d)
        &&& after.document_covered(from, d, doc.interfaces.len(), doc.worlds.len())
    } by {
        let d = from.packages[p].documents[j].1;
        let doc = from.documents[d as int];
        assert(before.documents.contains_key(d));
        lemma_covered_more(before, after, from, d, doc.interfaces.len(), doc.worlds.len());
    }
}

proof fn lemma_packages_covered_more(before: Plan, after: Plan, from: ResolveView, n: nat)
    requires
        after.lists_no_more(before),
        before.packages_covered(from, n),
    ensures
        after.packages_covered(from, n),
{
    assert forall|p: PackageId| p < n implies #[trigger] after.packages.contains_key(p)
        && after.documents_covered(
        from,
        p as int,
        from.packages[p as int].documents.len(),
    ) by {
        assert(before.packages.contains_key(p));
        let m = from.packages[p as int].documents.len();
        lemma_documents_covered_more(before, after, from, p as int, m);
    }
}

proof fn lemma_document_interfaces_settled(
    plan: Plan,
    from: ResolveView,
    into: ResolveView,
    map: RemapView,
    d: DocumentId,
    n: nat,
)
    requires
        from.valid(),
        d < from.documents.len(),
        n <= from.documents[d as int].interfaces.len(),
        contained(from, into, map),
        plan.follows(map),
    ensures
        settled(
            matched_document_interfaces(plan, from, into, d, map.documents[d as int], n),
            plan,
            map,
        ),
        matched_document_interfaces(plan, from, into, d, map.documents[d as int], n) matches Ok(
            after,
        ) ==> after.document_covered(from, d, n, 0),
    decreases n,
{
    if n > 0 {
        let m = (n - 1) as nat;
        let e = map.documents[d as int];
        lemma_document_interfaces_settled(plan, from, into, map, d, m);
        if let Ok(before) = matched_document_interfaces(plan, from, into, d, e, m) {
            let (name, id) = from.documents[d as int].interfaces[n - 1];
            assert(document_found(from, into, map, d as int));
            assert(from.document_valid(d as int));
            assert(lookup(into.documents[e as int].interfaces, name) == Some(
                map.interfaces[id as int],
            ));
            assert(interface_found(from, into, map, id as int));
            lemma_interface_settled(before, from, into, map, id);
            if let Ok(after) = matched_interface(before, from, into, id, map.interfaces[id as int]) {
                lemma_covered_more(before, after, from, d, m, 0);
            }
        }
    }
}

/// The interfaces with a name in the worlds of a document are matched.
spec fn worlds_ready(plan: Plan, from: ResolveView, d: DocumentId) -> bool {
    forall|j: int|
        0 <= j < from.documents[d as int].worlds.len() ==> {
            let w = (#[trigger] from.documents[d as int].worlds[j]).1;
            &&& plan.named_covered(from, from.worlds[w as int].imports)
            &&& plan.named_covered(from, from.worlds[w as int].exports)
        }
}

proof fn lemma_document_worlds_settled(
    plan: Plan,
    from: ResolveView,
    into: ResolveView,
    map: RemapView,
    d: DocumentId,
    n: nat,
)
    requires
        from.valid(),
        d < from.documents.len(),
        n <= from.documents[d as int].worlds.len(),
        contained(from, into, map),
        plan.follows(map),
        worlds_ready(plan, from, d),
    ensures
        settled(
            matched_document_worlds(plan, from, into, d, map.documents[d as int], n),
            plan,
            map,
        ),
        matched_document_worlds(plan, from, into, d, map.documents[d as int], n) matches Ok(after)
            ==> after.document_covered(from, d, 0, n),
    decreases n,
{
    if n > 0 {
        let m = (n - 1) as nat;
        let e = map.documents[d as int];
        lemma_document_worlds_settled(plan, from, into, map, d, m);
        if let Ok(before) = matched_document_worlds(plan, from, into, d, e, m) {
            let (name, id) = from.documents[d as int].worlds[n - 1];
            assert(document_found(from, into, map, d as int));
            assert(from.document_valid(d as int));
            assert(lookup(into.documents[e as int].worlds, name) == Some(map.worlds[id as int]));
            assert(before.named_covered(from, from.worlds[id as int].imports));
            assert(before.named_covered(from, from.worlds[id as int].exports));
            lemma_world_settled(before, from, into, map, id);
            if let Ok(after) = matched_world(before, from, into, id, map.worlds[id as int]) {
                lemma_covered_more(before, after, from, d, 0, m);
            }
        }
    }
}

/// The interfaces with a name in the worlds of a document are matched, or they are in the document
/// itself.
spec fn document_ready(plan: Plan, from: ResolveView, d: DocumentId) -> bool {
    forall|w: int, import: bool, j: int|
        #![trigger from.world_items(w, import)[j]]
        0 <= w < from.worlds.len() && from.worlds[w].document == d && 0 <= j < from.world_items(
            w,
            import,
        ).len() ==> (from.world_items(w, import)[j].1 matches ItemView::Interface(x)
            ==> from.interfaces[x as int].name.is_some() ==> plan.interfaces.contains_key(x)
            || from.interfaces[x as int].document == d)
}

proof fn lemma_worlds_ready(plan: Plan, first: Plan, from: ResolveView, d: DocumentId)
    requires
        from.valid(),
        from.parented(),
        d < from.documents.len(),
        document_ready(plan, from, d),
        first.lists_no_more(plan),
        first.document_covered(from, d, from.documents[d as int].interfaces.len(), 0),
    ensures
        worlds_ready(first, from, d),
{
    assert(from.document_lists(d as int));
    assert(from.document_valid(d as int));
    assert forall|j: int, import: bool|
        #![trigger from.world_items(from.documents[d as int].worlds[j].1 as int, import)]
        0 <= j < from.documents[d as int].worlds.len() implies first.named_covered(
        from,
        from.world_items(from.documents[d as int].worlds[j].1 as int, import),
    ) by {
        let w = from.documents[d as int].worlds[j].1 as int;
        let items = from.world_items(w, import);
        assert(from.worlds[w].document == d);
        assert(from.world_valid(w));
        assert forall|k: int| 0 <= k < items.len() implies ((
        #[trigger] items[k]).1 matches ItemView::Interface(x)
            ==> from.interfaces[x as int].name.is_some() ==> first.interfaces.contains_key(x)) by {
            assert(from.world_items(w, import)[k] == items[k]);
            assert(item_within(items[k].1, from.interfaces.len(), from.types.len()));
            if let ItemView::Interface(x) = items[k].1 {
                if from.interfaces[x as int].name.is_some() && !plan.interfaces.contains_key(x) {
                    assert(from.interface_listed(x as int));
                    let name = from.interfaces[x as int].name->Some_0;
                    let listed = from.documents[d as int].interfaces;
                    lemma_find(listed, name);
                    let at = find(listed, name)->Some_0;
                    assert(listed[at].1 == x);
                    assert(first.interfaces.contains_key(listed[at].1));
                }
            }
        }
    }
    assert forall|j: int| 0 <= j < from.documents[d as int].worlds.len() implies {
        let w = (#[trigger] from.documents[d as int].worlds[j]).1;
        &&& first.named_covered(from, from.worlds[w as int].imports)
        &&& first.named_covered(from, from.worlds[w as int].exports)
    } by {
        let w = from.documents[d as int].worlds[j].1 as int;
        assert(from.world_items(w, true) == from.worlds[w].imports);
        assert(from.world_items(w, false) == from.worlds[w].exports);
    }
}

proof fn lemma_document_settled(
    plan: Plan,
    from: ResolveView,
    into: ResolveView,
    map: RemapView,
    d: DocumentId,
)
    requires
        from.valid(),
        from.parented(),
        d < from.documents.len(),
        contained(from, into, map),
        plan.follows(map),
        document_ready(plan, from, d),
    ensures
        settled(matched_document(plan, from, into, d, map.documents[d as int]), plan, map),
        matched_document(plan, from, into, d, map.documents[d as int]) matches Ok(after) ==> {
            let doc = from.documents[d as int];
            &&& after.documents.contains_key(d)
            &&& after.document_covered(from, d, doc.interfaces.len(), doc.worlds.len())
        },
{
    let doc = from.documents[d as int];
    let e = map.documents[d as int];
    let (m, n) = (doc.interfaces.len(), doc.worlds.len());
    if let Ok(paired) = plan.with_document(d, e) {
        lemma_document_interfaces_settled(paired, from, into, map, d, m);
        if let Ok(first) = matched_document_interfaces(paired, from, into, d, e, m) {
            assert(first.lists_no_more(plan));
            lemma_worlds_ready(plan, first, from, d);
            lemma_document_worlds_settled(first, from, into, map, d, n);
            if let Ok(after) = matched_document_worlds(first, from, into, d, e, n) {
                lemma_covered_more(first, after, from, d, m, 0);
            }
        }
    }
}

/// What comes before a document is matched.
proof fn lemma_document_ready(plan: Plan, from: ResolveView, p: PackageId, n: nat)
    requires
        from.valid(),
        from.parented(),
        worlds_follow(from),
        p < from.packages.len(),
        n < from.packages[p as int].documents.len(),
        plan.packages_covered(from, p as nat),
        plan.documents_covered(from, p as int, n),
    ensures
        document_ready(plan, from, from.packages[p as int].documents[n as int].1),
{
    let d = from.packages[p as int].documents[n as int].1;
    assert(from.package_valid(p as int));
    assert(from.package_lists(p as int));
    assert(from.documents[d as int].package == Some(p));
    lemma_lookup_at(from.packages[p as int].documents, n as int);
    assert forall|w: int, import: bool, j: int|
        #![trigger from.world_items(w, import)[j]]
        0 <= w < from.worlds.len() && from.worlds[w].document == d && 0 <= j < from.world_items(
            w,
            import,
        ).len() implies (from.world_items(w, import)[j].1 matches ItemView::Interface(x)
        ==> from.interfaces[x as int].name.is_some() ==> plan.interfaces.contains_key(x)
        || from.interfaces[x as int].document == d) by {
        assert(from.world_valid(w));
        let item = from.world_items(w, import)[j].1;
        assert(item_within(item, from.interfaces.len(), from.types.len()));
        if let ItemView::Interface(x) = item {
            let iface = from.interfaces[x as int];
            if iface.name.is_some() && iface.document != d {
                assert(from.interface_valid(x as int));
                assert(from.interface_listed(x as int));
                let c = iface.document;
                assert(from.document_listed(c as int));
                assert(from.document_valid(c as int));
                let q = from.documents[c as int].package->Some_0;
                let docs = from.packages[q as int].documents;
                lemma_find(docs, from.documents[c as int].name);
                let i = find(docs, from.documents[c as int].name)->Some_0;
                assert(docs[i].1 == c);
                if q < p {
                    assert(plan.packages.contains_key(q));
                    assert(plan.documents_covered(from, q as int, docs.len()));
                } else {
                    assert(i < n);
                }
                assert(from.packages[q as int].documents[i].1 == c);
                let listed = from.documents[c as int].interfaces;
                assert(plan.document_covered(
                    from,
                    c,
                    listed.len(),
                    from.documents[c as int].worlds.len(),
                ));
                lemma_find(listed, iface.name->Some_0);
                let at = find(listed, iface.name->Some_0)->Some_0;
                assert(plan.interfaces.contains_key(listed[at].1));
            }
        }
    }
}

proof fn lemma_documents_settled(
    plan: Plan,
    from: ResolveView,
    into: ResolveView,
    map: RemapView,
    p: PackageId,
    n: nat,
)
    requires
        from.valid(),
        from.parented(),
        worlds_follow(from),
        contained(from, into, map),
        p < from.packages.len(),
        n <= from.packages[p as int].documents.len(),
        plan.follows(map),
        plan.packages_covered(from, p as nat),
    ensures
        settled(matched_documents(plan, from, into, p, map.packages[p as int], n), plan, map),
        matched_documents(plan, from, into, p, map.packages[p as int], n) matches Ok(after)
            ==> after.documents_covered(from, p as int, n),
    decreases n,
{
    if n > 0 {
        let m = (n - 1) as nat;
        let e = map.packages[p as int];
        lemma_documents_settled(plan, from, into, map, p, m);
        if let Ok(before) = matched_documents(plan, from, into, p, e, m) {
            let (name, id) = from.packages[p as int].documents[n - 1];
            assert(package_found(from, into, map, p as int));
            assert(from.package_valid(p as int));
            assert(lookup(into.packages[e as int].documents, name) == Some(
                map.documents[id as int],
            ));
            lemma_packages_covered_more(plan, before, from, p as nat);
            lemma_document_ready(before, from, p, m);
            lemma_document_settled(before, from, into, map, id);
            if let Ok(after) = matched_document(before, from, into, id, map.documents[id as int]) {
                lemma_documents_covered_more(before, after, from, p as int, m);
            }
        }
    }
}

pub proof fn lemma_packages_settled(from: ResolveView, into: ResolveView, map: RemapView, n: nat)
    requires
        from.valid(),
        from.parented(),
        worlds_follow(from),
        contained(from, into, map),
        n <= from.packages.len() <= usize::MAX,
    ensures
        settled(matched_packages(Plan::start(), from, into, n), Plan::start(), map),
        matched_packages(Plan::start(), from, into, n) matches Ok(after) ==> after.packages_covered(
            from,
            n,
        ),
    decreases n,
{
    if n > 0 {
        let m = (n - 1) as nat;
        let p = m as usize;
        lemma_packages_settled(from, into, map, m);
        if let Ok(before) = matched_packages(Plan::start(), from, into, m) {
            assert(package_found(from, into, map, m as int));
            let e = map.packages[m as int];
            if let Ok(paired) = before.with_package(p, e) {
                let k = from.packages[m as int].documents.len();
                lemma_packages_covered_more(before, paired, from, m);
                lemma_documents_settled(paired, from, into, map, p, k);
                if let Ok(after) = matched_documents(paired, from, into, p, e, k) {
                    lemma_packages_covered_more(paired, after, from, m);
                    assert(after.packages.contains_key(p));
                    assert(after.packages_covered(from, n));
                }
            }
        }
    }
}

} // verus!
