//! When two resolves agree on what both of them hold, and so can be merged.
use vstd::prelude::*;

use crate::again::lemma_packages_differ;
use crate::correspondence::{comparable, parented_resolves_merge};
use crate::matching::{
    find_package, first_duplicate, lemma_find_package, matched_document,
    matched_document_interfaces, matched_document_worlds, matched_documents, matched_functions,
    matched_interface, matched_item, matched_items, matched_packages, matched_types, matched_world,
    same_package, Plan, Stop,
};
use crate::merge::merged;
use crate::names::{find, lemma_find, lookup};
use crate::references::{lacks, lemma_lacks, lemma_listed};
use crate::resolve::ResolveView;
use crate::types::{DocumentId, InterfaceId, InterfaceView, ItemView, PackageView, WorldId};
use crate::unit::lemma_no_duplicate;
use crate::worlds::ItemList;

verus! {

/// Two packages are two views of the same one: both have the same name and the same URL. A package
/// without a URL is no view of any other.
pub open spec fn alike(a: PackageView, b: PackageView) -> bool {
    a.name == b.name && a.url == b.url && a.url.is_some()
}

/// An interface has types and functions of all the names that another one has.
pub open spec fn interface_agrees(a: InterfaceView, b: InterfaceView) -> bool {
    &&& forall|j: int| 0 <= j < a.types.len() ==> !lacks(b.types, (#[trigger] a.types[j]).0)
    &&& forall|j: int|
        0 <= j < a.functions.len() ==> !lacks(b.functions, (#[trigger] a.functions[j]).0)
}

/// Two interfaces have the same name, in documents of the same name in packages that are alike.
pub open spec fn counterparts(
    from: ResolveView,
    into: ResolveView,
    a: InterfaceId,
    b: InterfaceId,
) -> bool {
    let (x, y) = (from.interfaces[a as int], into.interfaces[b as int]);
    let (d, e) = (from.documents[x.document as int], into.documents[y.document as int]);
    &&& a < from.interfaces.len()
    &&& b < into.interfaces.len()
    &&& x.name.is_some()
    &&& x.name == y.name
    &&& d.name == e.name
    &&& d.package matches Some(p) && e.package matches Some(q) && alike(
        from.packages[p as int],
        into.packages[q as int],
    )
}

/// A document is listed by a package before position `p`, or by that package before its position
/// `k`.
pub open spec fn earlier(from: ResolveView, d: DocumentId, p: int, k: int) -> bool {
    exists|q: int, j: int|
        0 <= q < from.packages.len() && 0 <= j < from.packages[q].documents.len() && (
        #[trigger] from.packages[q].documents[j]).1 == d && (q < p || q == p && j < k)
}

/// What a world of the document at position `k` of package `p` holds under a name agrees with what
/// another world holds under that name: both are functions, both are types, or both are interfaces
/// that agree or that are counterparts. Of counterparts, the one of `from` is defined in the same
/// document as the world or in one that is listed before it.
pub open spec fn item_agrees(
    from: ResolveView,
    into: ResolveView,
    p: int,
    k: int,
    x: ItemView,
    y: ItemView,
) -> bool {
    match (x, y) {
        (ItemView::Function(_), ItemView::Function(_)) => true,
        (ItemView::Type(_), ItemView::Type(_)) => true,
        (ItemView::Interface(a), ItemView::Interface(b)) => {
            if from.interfaces[a as int].name.is_none()
                && into.interfaces[b as int].name.is_none() {
                interface_agrees(from.interfaces[a as int], into.interfaces[b as int])
            } else {
                counterparts(from, into, a, b) && earlier(
                    from,
                    from.interfaces[a as int].document,
                    p,
                    k + 1,
                )
            }
        },
        _ => false,
    }
}

pub open spec fn items_agree(
    from: ResolveView,
    into: ResolveView,
    p: int,
    k: int,
    xs: ItemList,
    ys: ItemList,
    n: nat,
) -> bool {
    forall|j: int|
        0 <= j < n ==> exists|l: int|
            0 <= l < ys.len() && (#[trigger] ys[l]).0 == (#[trigger] xs[j]).0 && item_agrees(
                from,
                into,
                p,
                k,
                xs[j].1,
                ys[l].1,
            )
}

/// Two worlds import and export the same, as far as the names and what stands under them go.
pub open spec fn world_agrees(
    from: ResolveView,
    into: ResolveView,
    p: int,
    k: int,
    v: WorldId,
    w: WorldId,
) -> bool {
    let (a, b) = (from.worlds[v as int], into.worlds[w as int]);
    &&& a.imports.len() == b.imports.len()
    &&& a.exports.len() == b.exports.len()
    &&& items_agree(from, into, p, k, a.imports, b.imports, a.imports.len())
    &&& items_agree(from, into, p, k, a.exports, b.exports, a.exports.len())
}

/// The first `n` interfaces of a document agree with those of the same name in another one, if
/// there are any.
pub open spec fn interfaces_agree(
    from: ResolveView,
    into: ResolveView,
    d: DocumentId,
    e: DocumentId,
    n: nat,
) -> bool {
    let (xs, ys) = (from.documents[d as int].interfaces, into.documents[e as int].interfaces);
    forall|i: int, j: int|
        #![trigger xs[i], ys[j]]
        0 <= i < n && 0 <= j < ys.len() && xs[i].0 == ys[j].0 ==> interface_agrees(
            from.interfaces[xs[i].1 as int],
            into.interfaces[ys[j].1 as int],
        )
}

/// The first `n` worlds of a document agree with those of the same name in another one, if there
/// are any.
pub open spec fn worlds_agree(
    from: ResolveView,
    into: ResolveView,
    p: int,
    k: int,
    d: DocumentId,
    e: DocumentId,
    n: nat,
) -> bool {
    let (xs, ys) = (from.documents[d as int].worlds, into.documents[e as int].worlds);
    forall|i: int, j: int|
        #![trigger xs[i], ys[j]]
        0 <= i < n && 0 <= j < ys.len() && xs[i].0 == ys[j].0 ==> world_agrees(
            from,
            into,
            p,
            k,
            xs[i].1,
            ys[j].1,
        )
}

pub open spec fn document_agrees(
    from: ResolveView,
    into: ResolveView,
    p: int,
    k: int,
    d: DocumentId,
    e: DocumentId,
) -> bool {
    &&& interfaces_agree(from, into, d, e, from.documents[d as int].interfaces.len())
    &&& worlds_agree(from, into, p, k, d, e, from.documents[d as int].worlds.len())
}

/// The first `n` documents of a package agree with those of the same name in another one, if there
/// are any.
pub open spec fn documents_agree(
    from: ResolveView,
    into: ResolveView,
    p: int,
    q: int,
    n: nat,
) -> bool {
    let (xs, ys) = (from.packages[p].documents, into.packages[q].documents);
    forall|k: int, l: int|
        #![trigger xs[k], ys[l]]
        0 <= k < n && 0 <= l < ys.len() && xs[k].0 == ys[l].0 ==> document_agrees(
            from,
            into,
            p,
            k,
            xs[k].1,
            ys[l].1,
        )
}

/// The first `n` packages agree with those that are alike.
pub open spec fn packages_agree(from: ResolveView, into: ResolveView, n: nat) -> bool {
    forall|p: int, q: int|
        #![trigger from.packages[p], into.packages[q]]
        0 <= p < n && 0 <= q < into.packages.len() && alike(from.packages[p], into.packages[q])
            ==> documents_agree(from, into, p, q, from.packages[p].documents.len())
}

/// No two packages are alike.
pub open spec fn told_apart(resolve: ResolveView) -> bool {
    forall|p: int, q: int|
        #![trigger resolve.packages[p], resolve.packages[q]]
        0 <= p < q < resolve.packages.len() ==> !alike(resolve.packages[p], resolve.packages[q])
}

/// What comes of a step is not that two resolves differ.
spec fn fine(result: Result<Plan, Stop>) -> bool {
    !(result matches Err(Stop::Differs(_)))
}

/// An interface with a name is matched with its counterpart, if its document was reached.
spec fn exact_at(
    plan: Plan,
    from: ResolveView,
    into: ResolveView,
    p: int,
    k: int,
    a: InterfaceId,
    b: InterfaceId,
) -> bool {
    from.interfaces[a as int].name.is_some() ==> ((plan.interfaces.contains_key(a)
        && plan.interfaces[a] == b) <==> counterparts(from, into, a, b) && earlier(
        from,
        from.interfaces[a as int].document,
        p,
        k,
    ))
}

/// The interfaces with a name that are matched are the counterparts in the documents so far. Those
/// without one are matched with such as have none either.
spec fn exact(plan: Plan, from: ResolveView, into: ResolveView, p: int, k: int) -> bool {
    &&& forall|a: InterfaceId, b: InterfaceId| #[trigger] exact_at(plan, from, into, p, k, a, b)
    &&& unnamed_apart(plan, from, into)
}

spec fn unnamed_apart(plan: Plan, from: ResolveView, into: ResolveView) -> bool {
    forall|a: InterfaceId| #[trigger]
        plan.interfaces.contains_key(a) && from.interfaces[a as int].name.is_none()
            ==> into.interfaces[plan.interfaces[a] as int].name.is_none()
}

/// The same in the middle of a document, after its first `n` interfaces.
spec fn exact_within_at(
    plan: Plan,
    from: ResolveView,
    into: ResolveView,
    p: int,
    k: int,
    d: DocumentId,
    n: nat,
    a: InterfaceId,
    b: InterfaceId,
) -> bool {
    from.interfaces[a as int].name.is_some() ==> ((plan.interfaces.contains_key(a)
        && plan.interfaces[a] == b) <==> counterparts(from, into, a, b) && (earlier(
        from,
        from.interfaces[a as int].document,
        p,
        k,
    ) || listed_first(from, d, n, a)))
}

spec fn exact_within(
    plan: Plan,
    from: ResolveView,
    into: ResolveView,
    p: int,
    k: int,
    d: DocumentId,
    n: nat,
) -> bool {
    &&& forall|a: InterfaceId, b: InterfaceId| #[trigger]
        exact_within_at(plan, from, into, p, k, d, n, a, b)
    &&& unnamed_apart(plan, from, into)
}

proof fn lemma_exact_same(
    before: Plan,
    after: Plan,
    from: ResolveView,
    into: ResolveView,
    p: int,
    k: int,
)
    requires
        exact(before, from, into, p, k),
        after.interfaces == before.interfaces,
    ensures
        exact(after, from, into, p, k),
{
    assert forall|a: InterfaceId, b: InterfaceId| #[trigger]
        exact_at(after, from, into, p, k, a, b) by {
        assert(exact_at(before, from, into, p, k, a, b));
    }
}

/// An interface is one of the first `n` of a document.
spec fn listed_first(from: ResolveView, d: DocumentId, n: nat, a: InterfaceId) -> bool {
    exists|j: int| 0 <= j < n && (#[trigger] from.documents[d as int].interfaces[j]).1 == a
}

proof fn lemma_types(plan: Plan, a: InterfaceView, b: InterfaceView, n: nat)
    requires
        n <= a.types.len(),
    ensures
        (forall|j: int| 0 <= j < n ==> !lacks(b.types, (#[trigger] a.types[j]).0)) ==> fine(
            matched_types(plan, a, b, n),
        ),
        matched_types(plan, a, b, n) matches Ok(after) ==> {
            &&& after.interfaces == plan.interfaces
            &&& forall|j: int| 0 <= j < n ==> !lacks(b.types, (#[trigger] a.types[j]).0)
        },
    decreases n,
{
    if n > 0 {
        lemma_types(plan, a, b, (n - 1) as nat);
        lemma_lacks(b.types, a.types[n - 1].0);
    }
}

proof fn lemma_functions(plan: Plan, a: InterfaceView, b: InterfaceView, n: nat)
    requires
        n <= a.functions.len(),
    ensures
        (forall|j: int| 0 <= j < n ==> !lacks(b.functions, (#[trigger] a.functions[j]).0)) ==> fine(
            matched_functions(plan, a, b, n),
        ),
        matched_functions(plan, a, b, n) matches Ok(after) ==> {
            &&& after == plan
            &&& forall|j: int| 0 <= j < n ==> !lacks(b.functions, (#[trigger] a.functions[j]).0)
        },
    decreases n,
{
    if n > 0 {
        lemma_functions(plan, a, b, (n - 1) as nat);
        let name = a.functions[n - 1].0;
        lemma_find(b.functions, name);
        lemma_lacks(b.functions, name);
    }
}

proof fn lemma_interface(
    plan: Plan,
    from: ResolveView,
    into: ResolveView,
    a: InterfaceId,
    b: InterfaceId,
)
    ensures
        interface_agrees(from.interfaces[a as int], into.interfaces[b as int]) ==> fine(
            matched_interface(plan, from, into, a, b),
        ),
        matched_interface(plan, from, into, a, b) matches Ok(after) ==> {
            &&& interface_agrees(from.interfaces[a as int], into.interfaces[b as int])
            &&& !plan.interfaces.contains_key(a)
            &&& after.interfaces == plan.interfaces.insert(a, b)
        },
{
    let (x, y) = (from.interfaces[a as int], into.interfaces[b as int]);
    if let Ok(with) = plan.with_interface(a, b) {
        lemma_types(with, x, y, x.types.len());
        if let Ok(typed) = matched_types(with, x, y, x.types.len()) {
            lemma_functions(typed, x, y, x.functions.len());
        }
    }
}

proof fn lemma_item(
    plan: Plan,
    from: ResolveView,
    into: ResolveView,
    p: int,
    k: int,
    x: ItemView,
    y: ItemView,
)
    requires
        exact(plan, from, into, p, k + 1),
    ensures
        item_agrees(from, into, p, k, x, y) ==> fine(matched_item(plan, from, into, x, y)),
        matched_item(plan, from, into, x, y) matches Ok(after) ==> {
            &&& item_agrees(from, into, p, k, x, y)
            &&& exact(after, from, into, p, k + 1)
        },
{
    match (x, y) {
        (ItemView::Interface(a), ItemView::Interface(b)) => {
            let (s, t) = (from.interfaces[a as int], into.interfaces[b as int]);
            assert(exact_at(plan, from, into, p, k + 1, a, b));
            if s.name.is_none() && t.name.is_none() {
                lemma_interface(plan, from, into, a, b);
                if let Ok(after) = matched_interface(plan, from, into, a, b) {
                    assert forall|c: InterfaceId, e: InterfaceId| #[trigger]
                    exact_at(after, from, into, p, k + 1, c, e) by {
                        assert(exact_at(plan, from, into, p, k + 1, c, e));
                    }
                }
            } else if s.name.is_none() {
                if plan.interfaces.contains_key(a) {
                    assert(plan.interfaces[a] != b);
                }
            }
        },
        (ItemView::Type(a), ItemView::Type(b)) => {
            if let Ok(after) = plan.with_type(a, b) {
                lemma_exact_same(plan, after, from, into, p, k + 1);
            }
        },
        _ => {},
    }
}

proof fn lemma_items(
    plan: Plan,
    from: ResolveView,
    into: ResolveView,
    p: int,
    k: int,
    desc: Seq<char>,
    xs: ItemList,
    ys: ItemList,
    n: nat,
)
    requires
        n <= xs.len(),
        crate::names::distinct(ys),
        exact(plan, from, into, p, k + 1),
    ensures
        items_agree(from, into, p, k, xs, ys, n) ==> fine(
            matched_items(plan, from, into, desc, xs, ys, n),
        ),
        matched_items(plan, from, into, desc, xs, ys, n) matches Ok(after) ==> {
            &&& items_agree(from, into, p, k, xs, ys, n)
            &&& exact(after, from, into, p, k + 1)
        },
    decreases n,
{
    if n > 0 {
        let m = (n - 1) as nat;
        lemma_items(plan, from, into, p, k, desc, xs, ys, m);
        if items_agree(from, into, p, k, xs, ys, n) {
            assert(items_agree(from, into, p, k, xs, ys, m));
        }
        if let Ok(before) = matched_items(plan, from, into, desc, xs, ys, m) {
            let (name, x) = xs[m as int];
            lemma_find(ys, name);
            if let Some(y) = lookup(ys, name) {
                let i = find(ys, name).unwrap();
                lemma_item(before, from, into, p, k, x, y);
                if items_agree(from, into, p, k, xs, ys, n) {
                    assert(xs[m as int].0 == name);
                    let l = choose|l: int|
                        0 <= l < ys.len() && (#[trigger] ys[l]).0 == xs[m as int].0
                            && item_agrees(from, into, p, k, xs[m as int].1, ys[l].1);
                    assert(ys[l].0 == ys[i].0);
                    assert(l == i);
                }
                if matched_item(before, from, into, x, y).is_ok() {
                    assert(ys[i].0 == xs[m as int].0 && item_agrees(
                        from,
                        into,
                        p,
                        k,
                        xs[m as int].1,
                        ys[i].1,
                    ));
                    assert(items_agree(from, into, p, k, xs, ys, n));
                }
            } else if items_agree(from, into, p, k, xs, ys, n) {
                assert(xs[m as int].0 == name);
                let l = choose|l: int|
                    0 <= l < ys.len() && (#[trigger] ys[l]).0 == xs[m as int].0 && item_agrees(
                        from,
                        into,
                        p,
                        k,
                        xs[m as int].1,
                        ys[l].1,
                    );
                assert(ys[l].0 == name);
            }
        }
    }
}

proof fn lemma_world(
    plan: Plan,
    from: ResolveView,
    into: ResolveView,
    p: int,
    k: int,
    v: WorldId,
    w: WorldId,
)
    requires
        into.valid(),
        w < into.worlds.len(),
        exact(plan, from, into, p, k + 1),
    ensures
        world_agrees(from, into, p, k, v, w) ==> fine(matched_world(plan, from, into, v, w)),
        matched_world(plan, from, into, v, w) matches Ok(after) ==> {
            &&& world_agrees(from, into, p, k, v, w)
            &&& exact(after, from, into, p, k + 1)
        },
{
    let (a, b) = (from.worlds[v as int], into.worlds[w as int]);
    assert(into.world_usable(w as int));
    if let Ok(with) = plan.with_world(v, w) {
        lemma_exact_same(plan, with, from, into, p, k + 1);
        lemma_items(
            with,
            from,
            into,
            p,
            k,
            "import"@,
            a.imports,
            b.imports,
            a.imports.len(),
        );
        if let Ok(imported) = matched_items(
            with,
            from,
            into,
            "import"@,
            a.imports,
            b.imports,
            a.imports.len(),
        ) {
            lemma_items(
                imported,
                from,
                into,
                p,
                k,
                "export"@,
                a.exports,
                b.exports,
                a.exports.len(),
            );
        }
    }
}

/// The document at position `k` of package `p`, and the one of the same name in a package that is
/// alike.
spec fn placed(
    from: ResolveView,
    into: ResolveView,
    p: int,
    q: int,
    k: int,
    d: DocumentId,
    e: DocumentId,
) -> bool {
    &&& from.valid()
    &&& into.valid()
    &&& from.parented()
    &&& into.parented()
    &&& told_apart(into)
    &&& 0 <= p < from.packages.len()
    &&& 0 <= q < into.packages.len()
    &&& alike(from.packages[p], into.packages[q])
    &&& 0 <= k < from.packages[p].documents.len()
    &&& from.packages[p].documents[k].1 == d
    &&& d < from.documents.len()
    &&& e < into.documents.len()
    &&& lookup(into.packages[q].documents, from.packages[p].documents[k].0) == Some(e)
}

/// The counterparts of the interfaces of a document are in the document of the same name.
proof fn lemma_counterparts(
    from: ResolveView,
    into: ResolveView,
    p: int,
    q: int,
    k: int,
    d: DocumentId,
    e: DocumentId,
    a: InterfaceId,
    b: InterfaceId,
)
    requires
        placed(from, into, p, q, k, d, e),
        a < from.interfaces.len(),
        from.interfaces[a as int].document == d,
        from.interfaces[a as int].name.is_some(),
    ensures
        counterparts(from, into, a, b) <==> lookup(
            into.documents[e as int].interfaces,
            from.interfaces[a as int].name.unwrap(),
        ) == Some(b),
{
    let name = from.interfaces[a as int].name.unwrap();
    assert(from.package_lists(p));
    assert(from.packages[p].documents[k].1 == d);
    assert(into.package_lists(q));
    let listed = into.packages[q].documents;
    lemma_listed(listed, from.packages[p].documents[k].0);
    let l = choose|l: int|
        0 <= l < listed.len() && listed[l] == (from.packages[p].documents[k].0, e);
    assert(into.packages[q].documents[l].1 == e);
    assert(into.documents[e as int].package == Some(q as usize));
    assert(into.package_valid(q));
    assert(into.fits());
    assert(from.fits());
    if counterparts(from, into, a, b) {
        let c = into.interfaces[b as int].document;
        assert(into.interface_valid(b as int));
        let r = into.documents[c as int].package.unwrap();
        assert(into.document_listed(c as int));
        assert(into.interface_listed(b as int));
        assert(into.document_valid(c as int));
        assert(alike(from.packages[p], into.packages[r as int]));
        if r < q {
            assert(alike(into.packages[r as int], into.packages[q]));
        }
        if q < r {
            assert(alike(into.packages[q], into.packages[r as int]));
        }
        assert(c == e);
    }
    if lookup(into.documents[e as int].interfaces, name) == Some(b) {
        lemma_listed(into.documents[e as int].interfaces, name);
        assert(into.document_lists(e as int));
        assert(into.document_valid(e as int));
        let list = into.documents[e as int].interfaces;
        let j = choose|j: int| 0 <= j < list.len() && list[j] == (name, b);
        assert(into.documents[e as int].interfaces[j].1 == b);
        assert(list[j].1 < into.interfaces.len());
    }
}

proof fn lemma_document_interfaces(
    plan: Plan,
    from: ResolveView,
    into: ResolveView,
    p: int,
    q: int,
    k: int,
    d: DocumentId,
    e: DocumentId,
    n: nat,
)
    requires
        placed(from, into, p, q, k, d, e),
        exact(plan, from, into, p, k),
        n <= from.documents[d as int].interfaces.len(),
    ensures
        interfaces_agree(from, into, d, e, n) ==> fine(
            matched_document_interfaces(plan, from, into, d, e, n),
        ),
        matched_document_interfaces(plan, from, into, d, e, n) matches Ok(after) ==> {
            &&& interfaces_agree(from, into, d, e, n)
            &&& exact_within(after, from, into, p, k, d, n)
        },
    decreases n,
{
    if n == 0 {
        assert forall|a: InterfaceId, b: InterfaceId| #[trigger]
            exact_within_at(plan, from, into, p, k, d, 0, a, b) by {
            assert(exact_at(plan, from, into, p, k, a, b));
            assert(!listed_first(from, d, 0, a));
        }
    } else {
        let m = (n - 1) as nat;
        lemma_document_interfaces(plan, from, into, p, q, k, d, e, m);
        let (xs, ys) = (from.documents[d as int].interfaces, into.documents[e as int].interfaces);
        if interfaces_agree(from, into, d, e, n) {
            assert(interfaces_agree(from, into, d, e, m));
        }
        if let Ok(before) = matched_document_interfaces(plan, from, into, d, e, m) {
            let (name, id) = xs[m as int];
            assert(from.document_lists(d as int));
            assert(from.document_valid(d as int));
            assert(into.document_valid(e as int));
            assert(from.documents[d as int].interfaces[m as int].1 == id);
            assert(xs[m as int].1 < from.interfaces.len());
            lemma_find(ys, name);
            assert(listed_first(from, d, n, id));
            assert forall|a: InterfaceId| #[trigger] listed_first(from, d, n, a) <==> listed_first(
                from,
                d,
                m,
                a,
            ) || a == id by {
                if listed_first(from, d, n, a) && a != id {
                    let j = choose|j: int|
                        0 <= j < n && (#[trigger] from.documents[d as int].interfaces[j]).1 == a;
                    assert(j < m);
                    assert(from.documents[d as int].interfaces[j].1 == a);
                }
                if listed_first(from, d, m, a) {
                    let j = choose|j: int|
                        0 <= j < m && (#[trigger] from.documents[d as int].interfaces[j]).1 == a;
                    assert(from.documents[d as int].interfaces[j].1 == a);
                }
            }
            match lookup(ys, name) {
                None => {
                    let after = before.with_new_interface((name, e, id));
                    assert(interfaces_agree(from, into, d, e, n));
                    assert forall|a: InterfaceId, b: InterfaceId| #[trigger]
                    exact_within_at(after, from, into, p, k, d, n, a, b) by {
                        assert(exact_within_at(before, from, into, p, k, d, m, a, b));
                        if a == id {
                            lemma_counterparts(from, into, p, q, k, d, e, a, b);
                        }
                    }
                    assert(exact_within(after, from, into, p, k, d, n));
                },
                Some(other) => {
                    let i = find(ys, name).unwrap();
                    lemma_interface(before, from, into, id, other);
                    if interfaces_agree(from, into, d, e, n) {
                        assert(xs[m as int].0 == ys[i].0);
                    }
                    if let Ok(after) = matched_interface(before, from, into, id, other) {
                        assert(interfaces_agree(from, into, d, e, n)) by {
                            assert forall|s: int, t: int|
                                #![trigger xs[s], ys[t]]
                                0 <= s < n && 0 <= t < ys.len() && xs[s].0
                                    == ys[t].0 implies interface_agrees(
                                from.interfaces[xs[s].1 as int],
                                into.interfaces[ys[t].1 as int],
                            ) by {
                                if s == m {
                                    assert(ys[t].0 == ys[i].0);
                                    assert(t == i);
                                }
                            }
                        }
                        assert forall|a: InterfaceId, b: InterfaceId| #[trigger]
                        exact_within_at(after, from, into, p, k, d, n, a, b) by {
                            assert(exact_within_at(before, from, into, p, k, d, m, a, b));
                            if a == id {
                                lemma_counterparts(from, into, p, q, k, d, e, a, b);
                            }
                        }
                        assert(exact_within(after, from, into, p, k, d, n));
                    }
                },
            }
        }
    }
}

proof fn lemma_document_worlds(
    plan: Plan,
    from: ResolveView,
    into: ResolveView,
    p: int,
    q: int,
    k: int,
    d: DocumentId,
    e: DocumentId,
    n: nat,
)
    requires
        placed(from, into, p, q, k, d, e),
        exact(plan, from, into, p, k + 1),
        n <= from.documents[d as int].worlds.len(),
    ensures
        worlds_agree(from, into, p, k, d, e, n) ==> fine(
            matched_document_worlds(plan, from, into, d, e, n),
        ),
        matched_document_worlds(plan, from, into, d, e, n) matches Ok(after) ==> {
            &&& worlds_agree(from, into, p, k, d, e, n)
            &&& exact(after, from, into, p, k + 1)
        },
    decreases n,
{
    if n > 0 {
        let m = (n - 1) as nat;
        lemma_document_worlds(plan, from, into, p, q, k, d, e, m);
        let (xs, ys) = (from.documents[d as int].worlds, into.documents[e as int].worlds);
        if worlds_agree(from, into, p, k, d, e, n) {
            assert(worlds_agree(from, into, p, k, d, e, m));
        }
        if let Ok(before) = matched_document_worlds(plan, from, into, d, e, m) {
            let (name, id) = xs[m as int];
            assert(into.document_valid(e as int));
            lemma_find(ys, name);
            match lookup(ys, name) {
                None => {
                    let after = before.with_new_world((name, e, id));
                    assert(worlds_agree(from, into, p, k, d, e, n));
                    lemma_exact_same(before, after, from, into, p, k + 1);
                },
                Some(other) => {
                    let i = find(ys, name).unwrap();
                    assert(ys[i].1 < into.worlds.len());
                    lemma_world(before, from, into, p, k, id, other);
                    if worlds_agree(from, into, p, k, d, e, n) {
                        assert(xs[m as int].0 == ys[i].0);
                    }
                    if matched_world(before, from, into, id, other).is_ok() {
                        assert forall|s: int, t: int|
                            #![trigger xs[s], ys[t]]
                            0 <= s < n && 0 <= t < ys.len() && xs[s].0
                                == ys[t].0 implies world_agrees(
                            from,
                            into,
                            p,
                            k,
                            xs[s].1,
                            ys[t].1,
                        ) by {
                            if s == m {
                                assert(ys[t].0 == ys[i].0);
                                assert(t == i);
                            }
                        }
                    }
                },
            }
        }
    }
}

/// One more document is listed before the next position.
proof fn lemma_earlier(from: ResolveView, p: int, k: int, c: DocumentId)
    requires
        0 <= p < from.packages.len(),
        0 <= k < from.packages[p].documents.len(),
    ensures
        earlier(from, c, p, k + 1) <==> earlier(from, c, p, k) || c
            == from.packages[p].documents[k].1,
{
    if earlier(from, c, p, k + 1) && c != from.packages[p].documents[k].1 {
        let (q, j) = choose|q: int, j: int|
            0 <= q < from.packages.len() && 0 <= j < from.packages[q].documents.len() && (
            #[trigger] from.packages[q].documents[j]).1 == c && (q < p || q == p && j < k + 1);
        assert(from.packages[q].documents[j].1 == c);
    }
    if earlier(from, c, p, k) {
        let (q, j) = choose|q: int, j: int|
            0 <= q < from.packages.len() && 0 <= j < from.packages[q].documents.len() && (
            #[trigger] from.packages[q].documents[j]).1 == c && (q < p || q == p && j < k);
        assert(from.packages[q].documents[j].1 == c);
    }
    if c == from.packages[p].documents[k].1 {
        assert(from.packages[p].documents[k].1 == c);
    }
}

proof fn lemma_document(
    plan: Plan,
    from: ResolveView,
    into: ResolveView,
    p: int,
    q: int,
    k: int,
    d: DocumentId,
    e: DocumentId,
)
    requires
        placed(from, into, p, q, k, d, e),
        exact(plan, from, into, p, k),
    ensures
        document_agrees(from, into, p, k, d, e) ==> fine(
            matched_document(plan, from, into, d, e),
        ),
        matched_document(plan, from, into, d, e) matches Ok(after) ==> {
            &&& document_agrees(from, into, p, k, d, e)
            &&& exact(after, from, into, p, k + 1)
        },
{
    if let Ok(with) = plan.with_document(d, e) {
        lemma_exact_same(plan, with, from, into, p, k);
        let n = from.documents[d as int].interfaces.len();
        lemma_document_interfaces(with, from, into, p, q, k, d, e, n);
        if let Ok(first) = matched_document_interfaces(with, from, into, d, e, n) {
            assert forall|a: InterfaceId, b: InterfaceId| #[trigger]
            exact_at(first, from, into, p, k + 1, a, b) by {
                assert(exact_within_at(first, from, into, p, k, d, n, a, b));
                let c = from.interfaces[a as int].document;
                lemma_earlier(from, p, k, c);
                if counterparts(from, into, a, b) && c == d {
                    assert(from.interface_listed(a as int));
                    let name = from.interfaces[a as int].name.unwrap();
                    lemma_listed(from.documents[d as int].interfaces, name);
                    let list = from.documents[d as int].interfaces;
                    let j = choose|j: int| 0 <= j < list.len() && list[j] == (name, a);
                    assert(from.documents[d as int].interfaces[j].1 == a);
                    assert(listed_first(from, d, n, a));
                }
                if listed_first(from, d, n, a) {
                    let j = choose|j: int|
                        0 <= j < n && (#[trigger] from.documents[d as int].interfaces[j]).1 == a;
                    assert(from.document_lists(d as int));
                    assert(from.documents[d as int].interfaces[j].1 == a);
                }
            }
            assert(exact(first, from, into, p, k + 1));
            lemma_document_worlds(
                first,
                from,
                into,
                p,
                q,
                k,
                d,
                e,
                from.documents[d as int].worlds.len(),
            );
        }
    }
}

/// A document that a package which is alike does not list has no counterparts in it.
proof fn lemma_no_counterparts(
    from: ResolveView,
    into: ResolveView,
    p: int,
    k: int,
    a: InterfaceId,
    b: InterfaceId,
)
    requires
        from.valid(),
        into.valid(),
        from.parented(),
        into.parented(),
        0 <= p < from.packages.len(),
        0 <= k < from.packages[p].documents.len(),
        forall|q: int|
            0 <= q < into.packages.len() && alike(from.packages[p], #[trigger] into.packages[q])
                ==> lacks(into.packages[q].documents, from.packages[p].documents[k].0),
        a < from.interfaces.len(),
        from.interfaces[a as int].document == from.packages[p].documents[k].1,
    ensures
        !counterparts(from, into, a, b),
{
    assert(from.package_lists(p));
    assert(from.package_valid(p));
    assert(from.fits());
    assert(from.packages[p].documents[k].1 < from.documents.len());
    if counterparts(from, into, a, b) {
        let c = into.interfaces[b as int].document;
        assert(into.interface_valid(b as int));
        let r = into.documents[c as int].package.unwrap();
        assert(into.document_listed(c as int));
        assert(into.document_valid(c as int));
        assert(alike(from.packages[p], into.packages[r as int]));
        lemma_lacks(into.packages[r as int].documents, from.packages[p].documents[k].0);
    }
}

proof fn lemma_documents(
    plan: Plan,
    from: ResolveView,
    into: ResolveView,
    p: int,
    q: int,
    n: nat,
)
    requires
        from.valid(),
        into.valid(),
        from.parented(),
        into.parented(),
        told_apart(into),
        0 <= p < from.packages.len(),
        0 <= q < into.packages.len(),
        alike(from.packages[p], into.packages[q]),
        exact(plan, from, into, p, 0),
        n <= from.packages[p].documents.len(),
    ensures
        documents_agree(from, into, p, q, n) ==> fine(
            matched_documents(plan, from, into, p as usize, q as usize, n),
        ),
        matched_documents(plan, from, into, p as usize, q as usize, n) matches Ok(after) ==> {
            &&& documents_agree(from, into, p, q, n)
            &&& exact(after, from, into, p, n as int)
        },
    decreases n,
{
    if n > 0 {
        let m = (n - 1) as nat;
        let k = m as int;
        lemma_documents(plan, from, into, p, q, m);
        assert(from.fits() && into.fits());
        let (xs, ys) = (from.packages[p].documents, into.packages[q].documents);
        if documents_agree(from, into, p, q, n) {
            assert(documents_agree(from, into, p, q, m));
        }
        if let Ok(before) = matched_documents(plan, from, into, p as usize, q as usize, m) {
            let (name, id) = xs[k];
            assert(from.package_valid(p));
            assert(into.package_valid(q));
            assert(xs[k].1 < from.documents.len());
            lemma_find(ys, name);
            match lookup(ys, name) {
                None => {
                    let after = before.with_new_document((name, q as usize, id));
                    assert(after.interfaces == before.interfaces);
                    assert(documents_agree(from, into, p, q, n));
                    assert forall|r: int|
                        0 <= r < into.packages.len() && alike(
                            from.packages[p],
                            #[trigger] into.packages[r],
                        ) implies lacks(into.packages[r].documents, from.packages[p].documents[k].0) by {
                        if r < q {
                            assert(alike(into.packages[r], into.packages[q]));
                        }
                        if q < r {
                            assert(alike(into.packages[q], into.packages[r]));
                        }
                        lemma_lacks(ys, name);
                    }
                    assert forall|a: InterfaceId, b: InterfaceId| #[trigger]
                    exact_at(after, from, into, p, k + 1, a, b) by {
                        assert(exact_at(before, from, into, p, k, a, b));
                        lemma_earlier(from, p, k, from.interfaces[a as int].document);
                        if counterparts(from, into, a, b) && from.interfaces[a as int].document
                            == id {
                            lemma_no_counterparts(from, into, p, k, a, b);
                        }
                    }
                    assert(exact(after, from, into, p, k + 1));
                },
                Some(other) => {
                    let i = find(ys, name).unwrap();
                    assert(ys[i].1 < into.documents.len());
                    assert(placed(from, into, p, q, k, id, other));
                    lemma_document(before, from, into, p, q, k, id, other);
                    if documents_agree(from, into, p, q, n) {
                        assert(xs[k].0 == ys[i].0);
                    }
                    if matched_document(before, from, into, id, other).is_ok() {
                        assert forall|s: int, t: int|
                            #![trigger xs[s], ys[t]]
                            0 <= s < n && 0 <= t < ys.len() && xs[s].0
                                == ys[t].0 implies document_agrees(
                            from,
                            into,
                            p,
                            s,
                            xs[s].1,
                            ys[t].1,
                        ) by {
                            if s == k {
                                assert(ys[t].0 == ys[i].0);
                                assert(t == i);
                            }
                        }
                    }
                },
            }
        }
    }
}

/// The documents of one more package are listed before the next one.
proof fn lemma_earlier_package(from: ResolveView, p: int, c: DocumentId)
    requires
        0 <= p < from.packages.len(),
    ensures
        earlier(from, c, p + 1, 0) <==> earlier(
            from,
            c,
            p,
            from.packages[p].documents.len() as int,
        ),
{
    if earlier(from, c, p + 1, 0) {
        let (q, j) = choose|q: int, j: int|
            0 <= q < from.packages.len() && 0 <= j < from.packages[q].documents.len() && (
            #[trigger] from.packages[q].documents[j]).1 == c && (q < p + 1 || q == p + 1 && j < 0);
        assert(from.packages[q].documents[j].1 == c);
    }
    let n = from.packages[p].documents.len() as int;
    if earlier(from, c, p, n) {
        let (q, j) = choose|q: int, j: int|
            0 <= q < from.packages.len() && 0 <= j < from.packages[q].documents.len() && (
            #[trigger] from.packages[q].documents[j]).1 == c && (q < p || q == p && j < n);
        assert(from.packages[q].documents[j].1 == c);
    }
}

proof fn lemma_packages(from: ResolveView, into: ResolveView, n: nat)
    requires
        from.valid(),
        into.valid(),
        from.parented(),
        into.parented(),
        told_apart(into),
        n <= from.packages.len(),
    ensures
        packages_agree(from, into, n) ==> fine(matched_packages(Plan::start(), from, into, n)),
        matched_packages(Plan::start(), from, into, n) matches Ok(after) ==> {
            &&& packages_agree(from, into, n)
            &&& exact(after, from, into, n as int, 0)
        },
    decreases n,
{
    if n == 0 {
        assert forall|c: DocumentId| !#[trigger] earlier(from, c, 0, 0) by {}
    } else {
        let m = (n - 1) as nat;
        let p = m as int;
        lemma_packages(from, into, m);
        if packages_agree(from, into, n) {
            assert(packages_agree(from, into, m));
        }
        if let Ok(before) = matched_packages(Plan::start(), from, into, m) {
            lemma_find_package(into.packages, from.packages[p], into.packages.len());
            let len = from.packages[p].documents.len();
            match find_package(into.packages, from.packages[p], into.packages.len()) {
                None => {
                    assert forall|r: int| 0 <= r < into.packages.len() implies !alike(
                        from.packages[p],
                        #[trigger] into.packages[r],
                    ) by {
                        assert(!same_package(from.packages[p], into.packages[r]));
                    }
                    assert forall|a: InterfaceId, b: InterfaceId| #[trigger]
                    exact_at(before, from, into, p + 1, 0, a, b) by {
                        assert(exact_at(before, from, into, p, 0, a, b));
                        let c = from.interfaces[a as int].document;
                        lemma_earlier_package(from, p, c);
                        if counterparts(from, into, a, b) && earlier(from, c, p, len as int)
                            && !earlier(from, c, p, 0) {
                            let (q, j) = choose|q: int, j: int|
                                0 <= q < from.packages.len() && 0 <= j
                                    < from.packages[q].documents.len() && (
                                #[trigger] from.packages[q].documents[j]).1 == c && (q < p || q == p
                                    && j < len as int);
                            if q < p {
                                assert(from.packages[q].documents[j].1 == c);
                            }
                            lemma_no_counterparts(from, into, p, j, a, b);
                        }
                        if earlier(from, c, p, 0) {
                            let (q, j) = choose|q: int, j: int|
                                0 <= q < from.packages.len() && 0 <= j
                                    < from.packages[q].documents.len() && (
                                #[trigger] from.packages[q].documents[j]).1 == c && (q < p || q == p
                                    && j < 0);
                            assert(from.packages[q].documents[j].1 == c);
                        }
                    }
                    assert(exact(before, from, into, n as int, 0));
                    assert(packages_agree(from, into, n));
                },
                Some(q) => {
                    assert(alike(from.packages[p], into.packages[q]));
                    if let Ok(with) = before.with_package(p as usize, q as usize) {
                        lemma_exact_same(before, with, from, into, p, 0);
                        lemma_documents(with, from, into, p, q, len);
                        if packages_agree(from, into, n) {
                            assert(documents_agree(from, into, p, q, len));
                        }
                        if let Ok(after) = matched_documents(
                            with,
                            from,
                            into,
                            p as usize,
                            q as usize,
                            len,
                        ) {
                            assert forall|a: InterfaceId, b: InterfaceId| #[trigger]
                            exact_at(after, from, into, p + 1, 0, a, b) by {
                                assert(exact_at(after, from, into, p, len as int, a, b));
                                lemma_earlier_package(
                                    from,
                                    p,
                                    from.interfaces[a as int].document,
                                );
                            }
                            assert(exact(after, from, into, n as int, 0));
                            assert forall|s: int, t: int|
                                #![trigger from.packages[s], into.packages[t]]
                                0 <= s < n && 0 <= t < into.packages.len() && alike(
                                    from.packages[s],
                                    into.packages[t],
                                ) implies documents_agree(
                                from,
                                into,
                                s,
                                t,
                                from.packages[s].documents.len(),
                            ) by {
                                if s == p {
                                    if t < q {
                                        assert(alike(into.packages[t], into.packages[q]));
                                    }
                                    if q < t {
                                        assert(alike(into.packages[q], into.packages[t]));
                                    }
                                }
                            }
                        }
                    }
                },
            }
        }
    }
}

/// Merging succeeds if and only if no two packages of the resolve being merged into are alike, and
/// the two resolves agree on what both have: an interface that is there already has types and
/// functions of all the names, and a world that is there already imports and exports the same.
/// Nothing else makes it fail.
pub proof fn resolves_that_agree_can_be_merged(into: ResolveView, from: ResolveView)
    requires
        comparable(from, into),
    ensures
        merged(into, from).1.is_ok() <==> told_apart(into) && packages_agree(
            from,
            into,
            from.packages.len(),
        ),
{
    parented_resolves_merge(from, into);
    if first_duplicate(into.packages, into.packages.len()).is_none() {
        lemma_packages_differ(into, into.packages.len());
        assert forall|p: int, q: int|
            #![trigger into.packages[p], into.packages[q]]
            0 <= p < q < into.packages.len() implies !alike(into.packages[p], into.packages[q]) by {
            assert(!same_package(into.packages[p], into.packages[q]));
        }
        lemma_packages(from, into, from.packages.len());
    } else if told_apart(into) {
        assert forall|p: int, q: int|
            #![trigger into.packages[p], into.packages[q]]
            0 <= p < q < into.packages.len() implies !same_package(
            into.packages[p],
            into.packages[q],
        ) by {
            assert(!alike(into.packages[p], into.packages[q]));
        }
        lemma_no_duplicate(into, into.packages.len());
    }
}

} // verus!
