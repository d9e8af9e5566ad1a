//! What packages and documents list once another resolve is merged.
use vstd::prelude::*;

use crate::correspondence::{
    comparable, lemma_documents_injective, lemma_packages_injective, matched_items_correspond,
    parented_resolves_merge,
};
use crate::error::ErrorView;
use crate::lineage::{lemma_documents_after, lemma_packages_after, merge_of};
use crate::matching::{
    find_package, matched, matched_document, matched_document_interfaces, matched_document_worlds,
    matched_documents, matched_functions, matched_interface, matched_item, matched_items,
    matched_packages, matched_types, matched_world, Addition, Plan,
};
use crate::merge::merged;
use crate::merge_laws::{added_to, lemma_added_from, merging_keeps_items, merging_keeps_valid};
use crate::names::{distinct, lookup};
use crate::references::{lacks, lemma_listed};
use crate::remap::RemapView;
use crate::resolve::ResolveView;
use crate::sharing::{lemma_matched_below, merged_items_list_the_same};
use crate::types::{DocumentId, InterfaceId, InterfaceView, ItemView, PackageId, WorldId};
use crate::worlds::ItemList;

verus! {

/// The names and ids that a package or document lists.
pub type Listing = Seq<(Seq<char>, usize)>;

/// An entry is one of a list, by its new id.
pub open spec fn comes_from(list: Listing, ids: Seq<usize>, entry: (Seq<char>, usize)) -> bool {
    exists|i: int|
        0 <= i < list.len() && (#[trigger] list[i]).0 == entry.0 && ids[list[i].1 as int] == entry.1
}

/// Two entries are entries of a list, by their new ids and in that order.
pub open spec fn come_in_turn(
    list: Listing,
    ids: Seq<usize>,
    a: (Seq<char>, usize),
    b: (Seq<char>, usize),
) -> bool {
    exists|i: int, j: int|
        0 <= i < j < list.len() && (#[trigger] list[i]).0 == a.0 && ids[list[i].1 as int] == a.1 && (
        #[trigger] list[j]).0 == b.0 && ids[list[j].1 as int] == b.1
}

/// A list starts with what it held before, and goes on with those entries of another one whose
/// names it lacked, by their new ids and in the order in which they stand there.
pub open spec fn taken_in(old: Listing, other: Listing, ids: Seq<usize>, new: Listing) -> bool {
    &&& old.is_prefix_of(new)
    &&& forall|i: int|
        0 <= i < other.len() && lacks(old, (#[trigger] other[i]).0) ==> new.contains(
            (other[i].0, ids[other[i].1 as int]),
        )
    &&& forall|s: int| old.len() <= s < new.len() ==> lacks(old, (#[trigger] new[s]).0)
    &&& forall|s: int| old.len() <= s < new.len() ==> comes_from(other, ids, #[trigger] new[s])
    &&& forall|s: int, t: int|
        #![trigger new[s], new[t]]
        old.len() <= s < t < new.len() ==> come_in_turn(other, ids, new[s], new[t])
}

/// One entry of a list stands before another.
spec fn stands_before(list: Listing, a: (Seq<char>, usize), b: (Seq<char>, usize)) -> bool {
    exists|i: int, j: int|
        0 <= i < j < list.len() && #[trigger] list[i] == a && #[trigger] list[j] == b
}

/// Of what is to be listed, entries of the same list keep their order.
spec fn sorted(
    new: Seq<Addition>,
    home: spec_fn(usize) -> int,
    list: spec_fn(int) -> Listing,
) -> bool {
    forall|x: int, y: int|
        #![trigger new[x], new[y]]
        0 <= x < y < new.len() && home(new[x].2) == home(new[y].2) ==> stands_before(
            list(home(new[x].2)),
            (new[x].0, new[x].2),
            (new[y].0, new[y].2),
        )
}

/// What is to be listed of a list are some of its first `n` entries.
spec fn early(
    new: Seq<Addition>,
    home: spec_fn(usize) -> int,
    list: spec_fn(int) -> Listing,
    h: int,
    n: int,
) -> bool {
    forall|x: int|
        0 <= x < new.len() && home((#[trigger] new[x]).2) == h ==> exists|i: int|
            0 <= i < n && i < list(h).len() && #[trigger] list(h)[i] == (new[x].0, new[x].2)
}

proof fn lemma_early_more(
    new: Seq<Addition>,
    home: spec_fn(usize) -> int,
    list: spec_fn(int) -> Listing,
    h: int,
    n: int,
)
    requires
        early(new, home, list, h, n),
    ensures
        early(new, home, list, h, n + 1),
{
    assert forall|x: int| 0 <= x < new.len() && home((#[trigger] new[x]).2) == h implies exists|
        i: int,
    |
        0 <= i < n + 1 && i < list(h).len() && #[trigger] list(h)[i] == (new[x].0, new[x].2) by {
        let i = choose|i: int|
            0 <= i < n && i < list(h).len() && #[trigger] list(h)[i] == (new[x].0, new[x].2);
        assert(list(h)[i] == (new[x].0, new[x].2));
    }
}

proof fn lemma_sorted_push(
    new: Seq<Addition>,
    add: Addition,
    home: spec_fn(usize) -> int,
    list: spec_fn(int) -> Listing,
    n: int,
)
    requires
        sorted(new, home, list),
        early(new, home, list, home(add.2), n),
        0 <= n < list(home(add.2)).len(),
        list(home(add.2))[n] == (add.0, add.2),
    ensures
        sorted(new.push(add), home, list),
        early(new.push(add), home, list, home(add.2), n + 1),
{
    let h = home(add.2);
    let after = new.push(add);
    assert forall|x: int, y: int|
        #![trigger after[x], after[y]]
        0 <= x < y < after.len() && home(after[x].2) == home(after[y].2) implies stands_before(
        list(home(after[x].2)),
        (after[x].0, after[x].2),
        (after[y].0, after[y].2),
    ) by {
        assert(after[x] == new[x]);
        if y == new.len() {
            let i = choose|i: int|
                0 <= i < n && i < list(h).len() && #[trigger] list(h)[i] == (new[x].0, new[x].2);
            assert(list(h)[i] == (after[x].0, after[x].2));
            assert(list(h)[n] == (after[y].0, after[y].2));
        } else {
            assert(after[y] == new[y]);
        }
    }
    assert forall|x: int| 0 <= x < after.len() && home((#[trigger] after[x]).2) == h implies exists|
        i: int,
    |
        0 <= i < n + 1 && i < list(h).len() && #[trigger] list(h)[i] == (after[x].0, after[x].2) by {
        if x == new.len() {
            assert(list(h)[n] == (after[x].0, after[x].2));
        } else {
            assert(after[x] == new[x]);
            let i = choose|i: int|
                0 <= i < n && i < list(h).len() && #[trigger] list(h)[i] == (new[x].0, new[x].2);
            assert(list(h)[i] == (after[x].0, after[x].2));
        }
    }
}

/// Two new entries of an item were to be listed in that order.
proof fn lemma_added_two(
    new: Seq<Addition>,
    ids: Seq<usize>,
    at: int,
    n: nat,
    s: int,
    t: int,
) -> (place: (int, int))
    requires
        n <= new.len(),
        0 <= s < t < added_to(new, ids, at, n).len(),
    ensures
        0 <= place.0 < place.1 < n,
        new[place.0].1 == at,
        new[place.1].1 == at,
        added_to(new, ids, at, n)[s] == (new[place.0].0, ids[new[place.0].2 as int]),
        added_to(new, ids, at, n)[t] == (new[place.1].0, ids[new[place.1].2 as int]),
    decreases n,
{
    let front = added_to(new, ids, at, (n - 1) as nat);
    if t < front.len() {
        lemma_added_two(new, ids, at, (n - 1) as nat, s, t)
    } else {
        let x = lemma_added_from(new, ids, at, (n - 1) as nat, s);
        (x, n - 1)
    }
}

/// What is to be listed, and which documents are matched, stays as it is.
spec fn keeps(before: Plan, after: Plan) -> bool {
    &&& after.documents == before.documents
    &&& after.new_documents == before.new_documents
    &&& after.new_interfaces == before.new_interfaces
    &&& after.new_worlds == before.new_worlds
}

proof fn lemma_types_keep(plan: Plan, a: InterfaceView, b: InterfaceView, n: nat)
    ensures
        matched_types(plan, a, b, n) matches Ok(after) ==> keeps(plan, after),
    decreases n,
{
    if n > 0 {
        lemma_types_keep(plan, a, b, (n - 1) as nat);
    }
}

proof fn lemma_functions_keep(plan: Plan, a: InterfaceView, b: InterfaceView, n: nat)
    ensures
        matched_functions(plan, a, b, n) matches Ok(after) ==> keeps(plan, after),
    decreases n,
{
    if n > 0 {
        lemma_functions_keep(plan, a, b, (n - 1) as nat);
    }
}

proof fn lemma_interface_keeps(
    plan: Plan,
    from: ResolveView,
    into: ResolveView,
    a: InterfaceId,
    b: InterfaceId,
)
    ensures
        matched_interface(plan, from, into, a, b) matches Ok(after) ==> keeps(plan, after),
{
    let (x, y) = (from.interfaces[a as int], into.interfaces[b as int]);
    if let Ok(with) = plan.with_interface(a, b) {
        lemma_types_keep(with, x, y, x.types.len());
        if let Ok(typed) = matched_types(with, x, y, x.types.len()) {
            lemma_functions_keep(typed, x, y, x.functions.len());
        }
    }
}

proof fn lemma_items_keep(
    plan: Plan,
    from: ResolveView,
    into: ResolveView,
    desc: Seq<char>,
    xs: ItemList,
    ys: ItemList,
    n: nat,
)
    ensures
        matched_items(plan, from, into, desc, xs, ys, n) matches Ok(after) ==> keeps(plan, after),
    decreases n,
{
    if n > 0 {
        let m = (n - 1) as nat;
        lemma_items_keep(plan, from, into, desc, xs, ys, m);
        if let Ok(before) = matched_items(plan, from, into, desc, xs, ys, m) {
            let (name, x) = xs[n - 1];
            if let Some(y) = lookup(ys, name) {
                if let (ItemView::Interface(a), ItemView::Interface(b)) = (x, y) {
                    lemma_interface_keeps(before, from, into, a, b);
                }
                assert(matched_item(before, from, into, x, y) matches Ok(after) ==> keeps(
                    before,
                    after,
                ));
            }
        }
    }
}

proof fn lemma_world_keeps(plan: Plan, from: ResolveView, into: ResolveView, v: WorldId, w: WorldId)
    ensures
        matched_world(plan, from, into, v, w) matches Ok(after) ==> keeps(plan, after),
{
    let (a, b) = (from.worlds[v as int], into.worlds[w as int]);
    if let Ok(with) = plan.with_world(v, w) {
        let n = a.imports.len();
        lemma_items_keep(with, from, into, "import"@, a.imports, b.imports, n);
        if let Ok(imported) = matched_items(with, from, into, "import"@, a.imports, b.imports, n) {
            lemma_items_keep(
                imported,
                from,
                into,
                "export"@,
                a.exports,
                b.exports,
                a.exports.len(),
            );
        }
    }
}

/// The document of an interface, that of a world, and the package of a document.
spec fn interface_home(from: ResolveView) -> spec_fn(usize) -> int {
    |i: usize| from.interfaces[i as int].document as int
}

spec fn world_home(from: ResolveView) -> spec_fn(usize) -> int {
    |w: usize| from.worlds[w as int].document as int
}

spec fn document_home(from: ResolveView) -> spec_fn(usize) -> int {
    |d: usize|
        match from.documents[d as int].package {
            Some(p) => p as int,
            None => -1,
        }
}

spec fn interface_list(from: ResolveView) -> spec_fn(int) -> Listing {
    |d: int| from.documents[d].interfaces
}

spec fn world_list(from: ResolveView) -> spec_fn(int) -> Listing {
    |d: int| from.documents[d].worlds
}

spec fn document_list(from: ResolveView) -> spec_fn(int) -> Listing {
    |p: int| from.packages[p].documents
}

/// What was to be listed before is followed by what belongs to one item.
spec fn grows(
    before: Seq<Addition>,
    after: Seq<Addition>,
    home: spec_fn(usize) -> int,
    h: int,
) -> bool {
    &&& before.is_prefix_of(after)
    &&& forall|x: int| before.len() <= x < after.len() ==> home((#[trigger] after[x]).2) == h
}

proof fn lemma_interfaces(
    plan: Plan,
    from: ResolveView,
    into: ResolveView,
    d: DocumentId,
    e: DocumentId,
    n: nat,
)
    requires
        from.parented(),
        d < from.documents.len(),
        n <= from.documents[d as int].interfaces.len(),
        sorted(plan.new_interfaces, interface_home(from), interface_list(from)),
        early(plan.new_interfaces, interface_home(from), interface_list(from), d as int, 0),
    ensures
        matched_document_interfaces(plan, from, into, d, e, n) matches Ok(after) ==> {
            let (home, list) = (interface_home(from), interface_list(from));
            &&& after.documents == plan.documents
            &&& after.new_documents == plan.new_documents
            &&& after.new_worlds == plan.new_worlds
            &&& sorted(after.new_interfaces, home, list)
            &&& early(after.new_interfaces, home, list, d as int, n as int)
            &&& grows(plan.new_interfaces, after.new_interfaces, home, d as int)
        },
    decreases n,
{
    if n > 0 {
        let (home, list) = (interface_home(from), interface_list(from));
        let m = (n - 1) as nat;
        lemma_interfaces(plan, from, into, d, e, m);
        if let Ok(before) = matched_document_interfaces(plan, from, into, d, e, m) {
            let (name, id) = from.documents[d as int].interfaces[n - 1];
            assert(from.document_lists(d as int));
            assert(from.documents[d as int].interfaces[n - 1].1 == id);
            assert(home(id) == d);
            match lookup(into.documents[e as int].interfaces, name) {
                None => {
                    let add = (name, e, id);
                    assert(list(d as int)[n - 1] == (name, id));
                    lemma_sorted_push(before.new_interfaces, add, home, list, n - 1);
                },
                Some(other) => {
                    lemma_interface_keeps(before, from, into, id, other);
                    lemma_early_more(before.new_interfaces, home, list, d as int, n - 1);
                },
            }
        }
    }
}

proof fn lemma_worlds(
    plan: Plan,
    from: ResolveView,
    into: ResolveView,
    d: DocumentId,
    e: DocumentId,
    n: nat,
)
    requires
        from.parented(),
        d < from.documents.len(),
        n <= from.documents[d as int].worlds.len(),
        sorted(plan.new_worlds, world_home(from), world_list(from)),
        early(plan.new_worlds, world_home(from), world_list(from), d as int, 0),
    ensures
        matched_document_worlds(plan, from, into, d, e, n) matches Ok(after) ==> {
            let (home, list) = (world_home(from), world_list(from));
            &&& after.documents == plan.documents
            &&& after.new_documents == plan.new_documents
            &&& after.new_interfaces == plan.new_interfaces
            &&& sorted(after.new_worlds, home, list)
            &&& early(after.new_worlds, home, list, d as int, n as int)
            &&& grows(plan.new_worlds, after.new_worlds, home, d as int)
        },
    decreases n,
{
    if n > 0 {
        let (home, list) = (world_home(from), world_list(from));
        let m = (n - 1) as nat;
        lemma_worlds(plan, from, into, d, e, m);
        if let Ok(before) = matched_document_worlds(plan, from, into, d, e, m) {
            let (name, id) = from.documents[d as int].worlds[n - 1];
            assert(from.document_lists(d as int));
            assert(from.documents[d as int].worlds[n - 1].1 == id);
            assert(home(id) == d);
            match lookup(into.documents[e as int].worlds, name) {
                None => {
                    let add = (name, e, id);
                    assert(list(d as int)[n - 1] == (name, id));
                    lemma_sorted_push(before.new_worlds, add, home, list, n - 1);
                },
                Some(other) => {
                    lemma_world_keeps(before, from, into, id, other);
                    lemma_early_more(before.new_worlds, home, list, d as int, n - 1);
                },
            }
        }
    }
}

/// The interfaces and worlds that are to be listed keep their order, and those of documents that
/// are not matched yet are not among them.
spec fn tidy(plan: Plan, from: ResolveView) -> bool {
    &&& sorted(plan.new_interfaces, interface_home(from), interface_list(from))
    &&& sorted(plan.new_worlds, world_home(from), world_list(from))
    &&& forall|x: int|
        0 <= x < plan.new_interfaces.len() ==> plan.documents.contains_key(
            from.interfaces[(#[trigger] plan.new_interfaces[x]).2 as int].document,
        )
    &&& forall|x: int|
        0 <= x < plan.new_worlds.len() ==> plan.documents.contains_key(
            from.worlds[(#[trigger] plan.new_worlds[x]).2 as int].document,
        )
}

proof fn lemma_document(
    plan: Plan,
    from: ResolveView,
    into: ResolveView,
    d: DocumentId,
    e: DocumentId,
)
    requires
        from.parented(),
        d < from.documents.len(),
        tidy(plan, from),
    ensures
        matched_document(plan, from, into, d, e) matches Ok(after) ==> tidy(after, from)
            && after.new_documents == plan.new_documents,
{
    if let Ok(with) = plan.with_document(d, e) {
        let n = from.documents[d as int].interfaces.len();
        lemma_interfaces(with, from, into, d, e, n);
        if let Ok(first) = matched_document_interfaces(with, from, into, d, e, n) {
            let m = from.documents[d as int].worlds.len();
            lemma_worlds(first, from, into, d, e, m);
            if let Ok(after) = matched_document_worlds(first, from, into, d, e, m) {
                assert forall|x: int| 0 <= x < after.new_interfaces.len() implies
                    after.documents.contains_key(
                    from.interfaces[(#[trigger] after.new_interfaces[x]).2 as int].document,
                ) by {
                    if x < plan.new_interfaces.len() {
                        assert(after.new_interfaces[x] == plan.new_interfaces[x]);
                    } else {
                        assert(interface_home(from)(after.new_interfaces[x].2) == d);
                    }
                }
                assert forall|x: int| 0 <= x < after.new_worlds.len() implies
                    after.documents.contains_key(
                    from.worlds[(#[trigger] after.new_worlds[x]).2 as int].document,
                ) by {
                    if x < plan.new_worlds.len() {
                        assert(after.new_worlds[x] == plan.new_worlds[x]);
                    } else {
                        assert(world_home(from)(after.new_worlds[x].2) == d);
                    }
                }
            }
        }
    }
}

proof fn lemma_documents(
    plan: Plan,
    from: ResolveView,
    into: ResolveView,
    p: PackageId,
    q: PackageId,
    n: nat,
)
    requires
        from.valid(),
        from.parented(),
        p < from.packages.len(),
        n <= from.packages[p as int].documents.len(),
        tidy(plan, from),
        sorted(plan.new_documents, document_home(from), document_list(from)),
        early(plan.new_documents, document_home(from), document_list(from), p as int, 0),
    ensures
        matched_documents(plan, from, into, p, q, n) matches Ok(after) ==> {
            let (home, list) = (document_home(from), document_list(from));
            &&& tidy(after, from)
            &&& sorted(after.new_documents, home, list)
            &&& early(after.new_documents, home, list, p as int, n as int)
            &&& grows(plan.new_documents, after.new_documents, home, p as int)
        },
    decreases n,
{
    if n > 0 {
        let (home, list) = (document_home(from), document_list(from));
        let m = (n - 1) as nat;
        lemma_documents(plan, from, into, p, q, m);
        if let Ok(before) = matched_documents(plan, from, into, p, q, m) {
            let (name, id) = from.packages[p as int].documents[n - 1];
            assert(from.package_lists(p as int));
            assert(from.package_valid(p as int));
            assert(from.packages[p as int].documents[n - 1].1 == id);
            assert(home(id) == p);
            match lookup(into.packages[q as int].documents, name) {
                None => {
                    let add = (name, q, id);
                    assert(list(p as int)[n - 1] == (name, id));
                    lemma_sorted_push(before.new_documents, add, home, list, n - 1);
                    assert(tidy(before.with_new_document(add), from));
                },
                Some(other) => {
                    lemma_document(before, from, into, id, other);
                    lemma_early_more(before.new_documents, home, list, p as int, n - 1);
                },
            }
        }
    }
}

proof fn lemma_packages(from: ResolveView, into: ResolveView, n: nat)
    requires
        from.valid(),
        from.parented(),
        n <= from.packages.len() <= usize::MAX,
    ensures
        matched_packages(Plan::start(), from, into, n) matches Ok(plan) ==> {
            &&& tidy(plan, from)
            &&& sorted(plan.new_documents, document_home(from), document_list(from))
            &&& forall|x: int|
                0 <= x < plan.new_documents.len() ==> document_home(from)(
                    (#[trigger] plan.new_documents[x]).2,
                ) < n
        },
    decreases n,
{
    if n > 0 {
        let home = document_home(from);
        let m = (n - 1) as nat;
        lemma_packages(from, into, m);
        if let Ok(before) = matched_packages(Plan::start(), from, into, m) {
            let package = from.packages[n - 1];
            if let Some(i) = find_package(into.packages, package, into.packages.len()) {
                let p = m as usize;
                let q = i as usize;
                if let Ok(with) = before.with_package(p, q) {
                    assert(tidy(with, from));
                    lemma_documents(with, from, into, p, q, package.documents.len());
                    if let Ok(after) = matched_documents(
                        with,
                        from,
                        into,
                        p,
                        q,
                        package.documents.len(),
                    ) {
                        assert forall|x: int| 0 <= x < after.new_documents.len() implies home(
                            (#[trigger] after.new_documents[x]).2,
                        ) < n by {
                            if x < before.new_documents.len() {
                                assert(after.new_documents[x] == before.new_documents[x]);
                            }
                        }
                    }
                }
            }
        }
    }
}

/// A list that what is to be listed was added to.
proof fn lemma_taken_in(
    old: Listing,
    ids: Seq<usize>,
    new: Listing,
    adds: Seq<Addition>,
    at: int,
    home: spec_fn(usize) -> int,
    list: spec_fn(int) -> Listing,
    h: int,
)
    requires
        new == old + added_to(adds, ids, at, adds.len()),
        distinct(new),
        sorted(adds, home, list),
        forall|x: int|
            0 <= x < adds.len() && (#[trigger] adds[x]).1 == at ==> home(adds[x].2) == h && list(
                h,
            ).contains((adds[x].0, adds[x].2)),
        forall|i: int|
            0 <= i < list(h).len() ==> new.contains(
                ((#[trigger] list(h)[i]).0, ids[list(h)[i].1 as int]),
            ),
    ensures
        taken_in(old, list(h), ids, new),
{
    let other = list(h);
    let added = added_to(adds, ids, at, adds.len());
    let base = old.len();
    assert(old.is_prefix_of(new));
    assert forall|s: int| base <= s < new.len() implies lacks(old, (#[trigger] new[s]).0) by {
        assert forall|k: int| 0 <= k < old.len() implies (#[trigger] old[k]).0 != new[s].0 by {
            assert(new[k] == old[k]);
        }
    }
    assert forall|s: int| base <= s < new.len() implies comes_from(
        other,
        ids,
        #[trigger] new[s],
    ) by {
        let x = lemma_added_from(adds, ids, at, adds.len(), s - base);
        assert(new[s] == added[s - base]);
        let entry = (adds[x].0, adds[x].2);
        let i = choose|i: int| 0 <= i < other.len() && other[i] == entry;
        assert(other[i].0 == new[s].0);
    }
    assert forall|s: int, t: int|
        #![trigger new[s], new[t]]
        base <= s < t < new.len() implies come_in_turn(other, ids, new[s], new[t]) by {
        let (x, y) = lemma_added_two(adds, ids, at, adds.len(), s - base, t - base);
        assert(new[s] == added[s - base] && new[t] == added[t - base]);
        assert(home(adds[x].2) == h && home(adds[y].2) == h);
        let (a, b) = ((adds[x].0, adds[x].2), (adds[y].0, adds[y].2));
        assert(stands_before(other, a, b));
        let (i, j) = choose|i: int, j: int|
            0 <= i < j < other.len() && #[trigger] other[i] == a && #[trigger] other[j] == b;
        assert(other[i].0 == new[s].0 && other[j].0 == new[t].0);
    }
}

/// If nothing is to be listed then a list stays as it is.
proof fn lemma_nothing_taken_in(
    old: Listing,
    ids: Seq<usize>,
    new: Listing,
    adds: Seq<Addition>,
    at: int,
)
    requires
        new == old + added_to(adds, ids, at, adds.len()),
        forall|x: int| 0 <= x < adds.len() ==> (#[trigger] adds[x]).1 != at,
    ensures
        new == old,
{
    if added_to(adds, ids, at, adds.len()).len() > 0 {
        let x = lemma_added_from(adds, ids, at, adds.len(), 0);
        assert(adds[x].1 == at);
    }
    assert(new =~= old);
}

/// What the package of one resolve lists once it became one with a package of another: what it
/// listed before, and then those documents of the other one whose names it lacked, by their new ids
/// and in their order. A package that no other one became one with lists what it listed before.
pub proof fn merged_packages_list_what_both_list(
    into: ResolveView,
    from: ResolveView,
    p: PackageId,
    q: PackageId,
)
    requires
        comparable(from, into),
        merged(into, from).0.fits(),
        q < into.packages.len(),
    ensures
        merged(into, from) matches (after, Ok(map)) ==> {
            let (old, new) = (into.packages[q as int].documents, after.packages[q as int].documents);
            &&& p < from.packages.len() && map.packages[p as int] == q ==> taken_in(
                old,
                from.packages[p as int].documents,
                map.documents,
                new,
            )
            &&& !map.packages.contains(q) ==> new == old
        },
{
    if let (after, Ok(map)) = merged(into, from) {
        parented_resolves_merge(from, into);
        let plan = matched(from, into)->Ok_0;
        let (home, list) = (document_home(from), document_list(from));
        let adds = plan.new_documents;
        lemma_matched_below(into, from);
        matched_items_correspond(from, into);
        merging_keeps_valid(into, from);
        merging_keeps_items(into, from);
        merged_items_list_the_same(into, from);
        assert(from.fits());
        lemma_packages(from, into, from.packages.len());
        assert(merge_of(into, from, plan, after, map));
        let k = lemma_packages_after(into, from, plan, after, map, q as int);
        assert forall|x: int| 0 <= x < adds.len() && (#[trigger] adds[x]).1 == q implies {
            let h = home(adds[x].2);
            &&& 0 <= h < from.packages.len()
            &&& map.packages[h] == q
            &&& list(h).contains((adds[x].0, adds[x].2))
        } by {
            assert(plan.new_document_homed(from, adds[x]));
            let h = home(adds[x].2);
            assert(from.document_listed(adds[x].2 as int));
            assert(from.document_valid(adds[x].2 as int));
            lemma_listed(list(h), adds[x].0);
        }
        let (old, new) = (into.packages[q as int].documents, after.packages[q as int].documents);
        if p < from.packages.len() && map.packages[p as int] == q {
            assert(plan.packages.contains_key(p));
            assert forall|x: int| 0 <= x < adds.len() && (#[trigger] adds[x]).1 == q implies home(
                adds[x].2,
            ) == p && list(p as int).contains((adds[x].0, adds[x].2)) by {
                let h = home(adds[x].2) as usize;
                assert(plan.packages.contains_key(h));
                lemma_packages_injective(plan, from, into, h, p);
            }
            assert forall|i: int| 0 <= i < list(p as int).len() implies new.contains(
                ((#[trigger] list(p as int)[i]).0, map.documents[list(p as int)[i].1 as int]),
            ) by {
                assert(from.packages[p as int].documents[i] == list(p as int)[i]);
            }
            assert(after.package_valid(q as int));
            lemma_taken_in(old, map.documents, new, adds, q as int, home, list, p as int);
        }
        if !map.packages.contains(q) {
            assert forall|x: int| 0 <= x < adds.len() implies (#[trigger] adds[x]).1 != q by {
                if adds[x].1 == q {
                    let h = home(adds[x].2);
                    assert(map.packages[h] == q);
                }
            }
            lemma_nothing_taken_in(old, map.documents, new, adds, q as int);
        }
    }
}

/// What the document of one resolve lists once it became one with a document of another: what it
/// listed before, and then those interfaces and worlds of the other one whose names it lacked, by
/// their new ids and in their order. A document that no other one became one with lists what it
/// listed before.
pub proof fn merged_documents_list_what_both_list(
    into: ResolveView,
    from: ResolveView,
    d: DocumentId,
    e: DocumentId,
)
    requires
        comparable(from, into),
        merged(into, from).0.fits(),
        e < into.documents.len(),
    ensures
        merged(into, from) matches (after, Ok(map)) ==> {
            let (old, new) = (into.documents[e as int], after.documents[e as int]);
            &&& d < from.documents.len() && map.documents[d as int] == e ==> {
                &&& taken_in(
                    old.interfaces,
                    from.documents[d as int].interfaces,
                    map.interfaces,
                    new.interfaces,
                )
                &&& taken_in(
                    old.worlds,
                    from.documents[d as int].worlds,
                    map.worlds,
                    new.worlds,
                )
            }
            &&& !map.documents.contains(e) ==> new.interfaces == old.interfaces && new.worlds
                == old.worlds
        },
{
    if let (after, Ok(map)) = merged(into, from) {
        lemma_interfaces_taken_in(into, from, after, map, d, e);
        lemma_worlds_taken_in(into, from, after, map, d, e);
    }
}

proof fn lemma_interfaces_taken_in(
    into: ResolveView,
    from: ResolveView,
    after: ResolveView,
    map: RemapView,
    d: DocumentId,
    e: DocumentId,
)
    requires
        comparable(from, into),
        after.fits(),
        merged(into, from) == (after, Ok::<RemapView, ErrorView>(map)),
        e < into.documents.len(),
    ensures
        d < from.documents.len() && map.documents[d as int] == e ==> taken_in(
            into.documents[e as int].interfaces,
            from.documents[d as int].interfaces,
            map.interfaces,
            after.documents[e as int].interfaces,
        ),
        !map.documents.contains(e) ==> after.documents[e as int].interfaces
            == into.documents[e as int].interfaces,
{
    parented_resolves_merge(from, into);
    let plan = matched(from, into)->Ok_0;
    let (home, list) = (interface_home(from), interface_list(from));
    let adds = plan.new_interfaces;
    lemma_matched_below(into, from);
    matched_items_correspond(from, into);
    merging_keeps_valid(into, from);
    merging_keeps_items(into, from);
    merged_items_list_the_same(into, from);
    assert(from.fits());
    lemma_packages(from, into, from.packages.len());
    assert(merge_of(into, from, plan, after, map));
    let k = lemma_documents_after(into, from, plan, after, map, e as int);
    assert forall|x: int| 0 <= x < adds.len() && (#[trigger] adds[x]).1 == e implies {
        let h = home(adds[x].2);
        &&& 0 <= h < from.documents.len()
        &&& map.documents[h] == e
        &&& list(h).contains((adds[x].0, adds[x].2))
    } by {
        assert(plan.new_interface_homed(from, adds[x]));
        let h = home(adds[x].2);
        assert(from.interface_listed(adds[x].2 as int));
        assert(from.interface_valid(adds[x].2 as int));
        lemma_listed(list(h), adds[x].0);
    }
    let old = into.documents[e as int].interfaces;
    let new = after.documents[e as int].interfaces;
    if d < from.documents.len() && map.documents[d as int] == e {
        assert(plan.documents.contains_key(d));
        assert forall|x: int| 0 <= x < adds.len() && (#[trigger] adds[x]).1 == e implies home(
            adds[x].2,
        ) == d && list(d as int).contains((adds[x].0, adds[x].2)) by {
            let h = home(adds[x].2) as usize;
            assert(plan.documents.contains_key(h));
            lemma_documents_injective(plan, from, into, h, d);
        }
        assert forall|i: int| 0 <= i < list(d as int).len() implies new.contains(
            ((#[trigger] list(d as int)[i]).0, map.interfaces[list(d as int)[i].1 as int]),
        ) by {
            assert(from.documents[d as int].interfaces[i] == list(d as int)[i]);
        }
        assert(after.document_valid(e as int));
        lemma_taken_in(old, map.interfaces, new, adds, e as int, home, list, d as int);
    }
    if !map.documents.contains(e) {
        assert forall|x: int| 0 <= x < adds.len() implies (#[trigger] adds[x]).1 != e by {
            if adds[x].1 == e {
                let h = home(adds[x].2);
                assert(map.documents[h] == e);
            }
        }
        lemma_nothing_taken_in(old, map.interfaces, new, adds, e as int);
    }
}

proof fn lemma_worlds_taken_in(
    into: ResolveView,
    from: ResolveView,
    after: ResolveView,
    map: RemapView,
    d: DocumentId,
    e: DocumentId,
)
    requires
        comparable(from, into),
        after.fits(),
        merged(into, from) == (after, Ok::<RemapView, ErrorView>(map)),
        e < into.documents.len(),
    ensures
        d < from.documents.len() && map.documents[d as int] == e ==> taken_in(
            into.documents[e as int].worlds,
            from.documents[d as int].worlds,
            map.worlds,
            after.documents[e as int].worlds,
        ),
        !map.documents.contains(e) ==> after.documents[e as int].worlds
            == into.documents[e as int].worlds,
{
    parented_resolves_merge(from, into);
    let plan = matched(from, into)->Ok_0;
    let (home, list) = (world_home(from), world_list(from));
    let adds = plan.new_worlds;
    lemma_matched_below(into, from);
    matched_items_correspond(from, into);
    merging_keeps_valid(into, from);
    merging_keeps_items(into, from);
    merged_items_list_the_same(into, from);
    assert(from.fits());
    lemma_packages(from, into, from.packages.len());
    assert(merge_of(into, from, plan, after, map));
    let k = lemma_documents_after(into, from, plan, after, map, e as int);
    assert forall|x: int| 0 <= x < adds.len() && (#[trigger] adds[x]).1 == e implies {
        let h = home(adds[x].2);
        &&& 0 <= h < from.documents.len()
        &&& map.documents[h] == e
        &&& list(h).contains((adds[x].0, adds[x].2))
    } by {
        assert(plan.new_world_homed(from, adds[x]));
        let h = home(adds[x].2);
        assert(from.world_listed(adds[x].2 as int));
        assert(from.world_valid(adds[x].2 as int));
        lemma_listed(list(h), adds[x].0);
    }
    let old = into.documents[e as int].worlds;
    let new = after.documents[e as int].worlds;
    if d < from.documents.len() && map.documents[d as int] == e {
        assert(plan.documents.contains_key(d));
        assert forall|x: int| 0 <= x < adds.len() && (#[trigger] adds[x]).1 == e implies home(
            adds[x].2,
        ) == d && list(d as int).contains((adds[x].0, adds[x].2)) by {
            let h = home(adds[x].2) as usize;
            assert(plan.documents.contains_key(h));
            lemma_documents_injective(plan, from, into, h, d);
        }
        assert forall|i: int| 0 <= i < list(d as int).len() implies new.contains(
            ((#[trigger] list(d as int)[i]).0, map.worlds[list(d as int)[i].1 as int]),
        ) by {
            assert(from.documents[d as int].worlds[i] == list(d as int)[i]);
        }
        assert(after.document_valid(e as int));
        lemma_taken_in(old, map.worlds, new, adds, e as int, home, list, d as int);
    }
    if !map.documents.contains(e) {
        assert forall|x: int| 0 <= x < adds.len() implies (#[trigger] adds[x]).1 != e by {
            if adds[x].1 == e {
                let h = home(adds[x].2);
                assert(map.documents[h] == e);
            }
        }
        lemma_nothing_taken_in(old, map.worlds, new, adds, e as int);
    }
}

} // verus!
