//! What is reported of resolves that cannot be merged.
use vstd::prelude::*;

use crate::agreement::alike;
use crate::correspondence::{comparable, parented_resolves_merge};
use crate::error::ErrorView;
use crate::matching::{
    find_package, first_duplicate, lemma_find_package, matched_document,
    matched_document_interfaces, matched_document_worlds, matched_documents, matched_functions,
    matched_interface, matched_item, matched_items, matched_package, matched_packages,
    matched_types, matched_world, quoted, Plan, Stop,
};
use crate::merge::merged;
use crate::names::{find, lemma_find, lookup};
use crate::references::{lacks, lemma_lacks};
use crate::resolve::ResolveView;
use crate::types::{DocumentId, InterfaceId, InterfaceView, ItemView, PackageView, WorldId};
use crate::worlds::ItemList;

verus! {

/// An error that is about no place in a source text and came up in no step.
pub open spec fn plain(error: ErrorView, msg: Seq<char>) -> bool {
    error.span.is_none() && error.msg == msg && error.context.len() == 0
}

/// The error before it was known in which step it came up.
pub open spec fn inner(error: ErrorView) -> ErrorView {
    ErrorView { context: error.context.drop_last(), ..error }
}

/// An error came up in a step.
pub open spec fn in_step(error: ErrorView, step: Seq<char>) -> bool {
    error.context.len() > 0 && error.context.last() == step
}

/// An error says which type or function an interface lacks that another one has.
pub open spec fn blames_interface(error: ErrorView, a: InterfaceView, b: InterfaceView) -> bool {
    ||| exists|j: int|
        0 <= j < a.types.len() && lacks(b.types, (#[trigger] a.types[j]).0) && plain(
            error,
            "expected type `"@ + a.types[j].0 + "` to be present"@,
        )
    ||| exists|j: int|
        0 <= j < a.functions.len() && lacks(b.functions, (#[trigger] a.functions[j]).0) && plain(
            error,
            "expected function `"@ + a.functions[j].0 + "` to be present"@,
        )
}

/// An error says why two items of worlds do not match.
pub open spec fn blames_item(
    error: ErrorView,
    from: ResolveView,
    into: ResolveView,
    x: ItemView,
    y: ItemView,
) -> bool {
    match (x, y) {
        (ItemView::Interface(a), ItemView::Interface(b)) => {
            if from.interfaces[a as int].name.is_none()
                && into.interfaces[b as int].name.is_none() {
                blames_interface(error, from.interfaces[a as int], into.interfaces[b as int])
            } else {
                plain(error, "interfaces are not the same"@)
            }
        },
        (ItemView::Function(_), ItemView::Function(_)) => false,
        (ItemView::Type(_), ItemView::Type(_)) => false,
        _ => plain(error, "world items do not have the same type"@),
    }
}

/// An error says which item of a world is missing in another one, or does not match the item of the
/// same name.
pub open spec fn blames_items(
    error: ErrorView,
    from: ResolveView,
    into: ResolveView,
    desc: Seq<char>,
    xs: ItemList,
    ys: ItemList,
) -> bool {
    ||| exists|j: int|
        0 <= j < xs.len() && lacks(ys, (#[trigger] xs[j]).0) && plain(
            error,
            desc + " `"@ + xs[j].0 + "` not found in target world"@,
        )
    ||| exists|j: int, l: int|
        0 <= j < xs.len() && 0 <= l < ys.len() && (#[trigger] xs[j]).0 == (#[trigger] ys[l]).0
            && in_step(error, desc + " `"@ + xs[j].0 + "` didn't match target world"@)
            && blames_item(inner(error), from, into, xs[j].1, ys[l].1)
}

/// An error says in what two worlds differ.
pub open spec fn blames_world(
    error: ErrorView,
    from: ResolveView,
    into: ResolveView,
    v: WorldId,
    w: WorldId,
) -> bool {
    let (a, b) = (from.worlds[v as int], into.worlds[w as int]);
    ||| a.imports.len() != b.imports.len() && plain(
        error,
        "world contains different number of imports than expected"@,
    )
    ||| a.exports.len() != b.exports.len() && plain(
        error,
        "world contains different number of exports than expected"@,
    )
    ||| blames_items(error, from, into, "import"@, a.imports, b.imports)
    ||| blames_items(error, from, into, "export"@, a.exports, b.exports)
}

/// An error says which interface or world of a document differs from the one of the same name in
/// another document.
pub open spec fn blames_document(
    error: ErrorView,
    from: ResolveView,
    into: ResolveView,
    d: DocumentId,
    e: DocumentId,
) -> bool {
    let (a, b) = (from.documents[d as int], into.documents[e as int]);
    ||| exists|i: int, j: int|
        0 <= i < a.interfaces.len() && 0 <= j < b.interfaces.len() && (
        #[trigger] a.interfaces[i]).0 == (#[trigger] b.interfaces[j]).0 && in_step(
            error,
            "failed to merge interface `"@ + a.interfaces[i].0 + "`"@,
        ) && blames_interface(
            inner(error),
            from.interfaces[a.interfaces[i].1 as int],
            into.interfaces[b.interfaces[j].1 as int],
        )
    ||| exists|i: int, j: int|
        0 <= i < a.worlds.len() && 0 <= j < b.worlds.len() && (#[trigger] a.worlds[i]).0 == (
        #[trigger] b.worlds[j]).0 && in_step(
            error,
            "failed to merge world `"@ + a.worlds[i].0 + "`"@,
        ) && blames_world(inner(error), from, into, a.worlds[i].1, b.worlds[j].1)
}

/// An error says which document of a package differs from the one of the same name in another
/// package.
pub open spec fn blames_package(
    error: ErrorView,
    from: ResolveView,
    into: ResolveView,
    a: PackageView,
    b: PackageView,
) -> bool {
    exists|i: int, j: int|
        0 <= i < a.documents.len() && 0 <= j < b.documents.len() && (
        #[trigger] a.documents[i]).0 == (#[trigger] b.documents[j]).0 && in_step(
            error,
            "failed to merge document `"@ + a.documents[i].0 + "` into existing copy"@,
        ) && blames_document(inner(error), from, into, a.documents[i].1, b.documents[j].1)
}

/// An error says which package differs from its view in another resolve.
pub open spec fn blames_resolve(error: ErrorView, from: ResolveView, into: ResolveView) -> bool {
    exists|p: int, q: int|
        0 <= p < from.packages.len() && 0 <= q < into.packages.len() && alike(
            #[trigger] from.packages[p],
            #[trigger] into.packages[q],
        ) && in_step(
            error,
            "failed to merge package `"@ + from.packages[p].name + "` into existing copy"@,
        ) && blames_package(inner(error), from, into, from.packages[p], into.packages[q])
}

/// An error says which two packages of a resolve are alike.
pub open spec fn blames_duplicate(error: ErrorView, resolve: ResolveView) -> bool {
    exists|p: int, q: int|
        0 <= p < q < resolve.packages.len() && alike(
            #[trigger] resolve.packages[p],
            #[trigger] resolve.packages[q],
        ) && plain(
            error,
            "found duplicate name/url combination in current resolve: "@ + resolve.packages[q].name
                + "/Some("@ + quoted(resolve.packages[q].url.unwrap()) + ")"@,
        )
}

proof fn lemma_types(plan: Plan, a: InterfaceView, b: InterfaceView, n: nat)
    requires
        n <= a.types.len(),
    ensures
        matched_types(plan, a, b, n) matches Err(Stop::Differs(error)) ==> blames_interface(
            error,
            a,
            b,
        ),
    decreases n,
{
    if n > 0 {
        lemma_types(plan, a, b, (n - 1) as nat);
        lemma_lacks(b.types, a.types[n - 1].0);
        assert(a.types[n - 1].0 == a.types[n - 1].0);
    }
}

proof fn lemma_functions(plan: Plan, a: InterfaceView, b: InterfaceView, n: nat)
    requires
        n <= a.functions.len(),
    ensures
        matched_functions(plan, a, b, n) matches Err(Stop::Differs(error)) ==> blames_interface(
            error,
            a,
            b,
        ),
    decreases n,
{
    if n > 0 {
        lemma_functions(plan, a, b, (n - 1) as nat);
        let name = a.functions[n - 1].0;
        lemma_find(b.functions, name);
        lemma_lacks(b.functions, name);
    }
}

proof fn lemma_interface(
    plan: Plan,
    from: ResolveView,
    into: ResolveView,
    a: InterfaceId,
    b: InterfaceId,
)
    ensures
        matched_interface(plan, from, into, a, b) matches Err(Stop::Differs(error))
            ==> blames_interface(error, from.interfaces[a as int], into.interfaces[b as int]),
{
    let (x, y) = (from.interfaces[a as int], into.interfaces[b as int]);
    if let Ok(with) = plan.with_interface(a, b) {
        lemma_types(with, x, y, x.types.len());
        if let Ok(typed) = matched_types(with, x, y, x.types.len()) {
            lemma_functions(typed, x, y, x.functions.len());
        }
    }
}

proof fn lemma_item(plan: Plan, from: ResolveView, into: ResolveView, x: ItemView, y: ItemView)
    ensures
        matched_item(plan, from, into, x, y) matches Err(Stop::Differs(error)) ==> blames_item(
            error,
            from,
            into,
            x,
            y,
        ),
{
    if let (ItemView::Interface(a), ItemView::Interface(b)) = (x, y) {
        lemma_interface(plan, from, into, a, b);
    }
}

/// Taking the last step away gives the error before it.
proof fn lemma_inner(error: ErrorView, outer: ErrorView, step: Seq<char>)
    requires
        outer == (ErrorView { context: error.context.push(step), ..error }),
    ensures
        in_step(outer, step),
        inner(outer) == error,
{
    assert(error.context.push(step).drop_last() =~= error.context);
}

proof fn lemma_items(
    plan: Plan,
    from: ResolveView,
    into: ResolveView,
    desc: Seq<char>,
    xs: ItemList,
    ys: ItemList,
    n: nat,
)
    requires
        n <= xs.len(),
    ensures
        matched_items(plan, from, into, desc, xs, ys, n) matches Err(Stop::Differs(error))
            ==> blames_items(error, from, into, desc, xs, ys),
    decreases n,
{
    if n > 0 {
        let m = (n - 1) as nat;
        lemma_items(plan, from, into, desc, xs, ys, m);
        if let Ok(before) = matched_items(plan, from, into, desc, xs, ys, m) {
            let (name, x) = xs[m as int];
            assert(xs[m as int].0 == name);
            lemma_find(ys, name);
            lemma_lacks(ys, name);
            if let Some(y) = lookup(ys, name) {
                let l = find(ys, name).unwrap();
                assert(ys[l].0 == name);
                lemma_item(before, from, into, x, y);
                if let Err(Stop::Differs(error)) = matched_item(before, from, into, x, y) {
                    let step = desc + " `"@ + name + "` didn't match target world"@;
                    let outer = ErrorView { context: error.context.push(step), ..error };
                    lemma_inner(error, outer, step);
                    assert(blames_items(outer, from, into, desc, xs, ys));
                }
            }
        }
    }
}

proof fn lemma_world(plan: Plan, from: ResolveView, into: ResolveView, v: WorldId, w: WorldId)
    ensures
        matched_world(plan, from, into, v, w) matches Err(Stop::Differs(error)) ==> blames_world(
            error,
            from,
            into,
            v,
            w,
        ),
{
    let (a, b) = (from.worlds[v as int], into.worlds[w as int]);
    if let Ok(with) = plan.with_world(v, w) {
        let n = a.imports.len();
        lemma_items(with, from, into, "import"@, a.imports, b.imports, n);
        if let Ok(imported) = matched_items(with, from, into, "import"@, a.imports, b.imports, n) {
            lemma_items(imported, from, into, "export"@, a.exports, b.exports, a.exports.len());
        }
    }
}

proof fn lemma_document_interfaces(
    plan: Plan,
    from: ResolveView,
    into: ResolveView,
    d: DocumentId,
    e: DocumentId,
    n: nat,
)
    requires
        n <= from.documents[d as int].interfaces.len(),
    ensures
        matched_document_interfaces(plan, from, into, d, e, n) matches Err(Stop::Differs(error))
            ==> blames_document(error, from, into, d, e),
    decreases n,
{
    if n > 0 {
        let m = (n - 1) as nat;
        let (xs, ys) = (from.documents[d as int].interfaces, into.documents[e as int].interfaces);
        lemma_document_interfaces(plan, from, into, d, e, m);
        if let Ok(before) = matched_document_interfaces(plan, from, into, d, e, m) {
            let (name, id) = xs[m as int];
            assert(xs[m as int].0 == name);
            lemma_find(ys, name);
            if let Some(other) = lookup(ys, name) {
                assert(ys[find(ys, name).unwrap()].0 == name);
                lemma_interface(before, from, into, id, other);
                if let Err(Stop::Differs(error)) = matched_interface(before, from, into, id, other) {
                    let step = "failed to merge interface `"@ + name + "`"@;
                    let outer = ErrorView { context: error.context.push(step), ..error };
                    lemma_inner(error, outer, step);
                    assert(blames_document(outer, from, into, d, e));
                }
            }
        }
    }
}

proof fn lemma_document_worlds(
    plan: Plan,
    from: ResolveView,
    into: ResolveView,
    d: DocumentId,
    e: DocumentId,
    n: nat,
)
    requires
        n <= from.documents[d as int].worlds.len(),
    ensures
        matched_document_worlds(plan, from, into, d, e, n) matches Err(Stop::Differs(error))
            ==> blames_document(error, from, into, d, e),
    decreases n,
{
    if n > 0 {
        let m = (n - 1) as nat;
        let (xs, ys) = (from.documents[d as int].worlds, into.documents[e as int].worlds);
        lemma_document_worlds(plan, from, into, d, e, m);
        if let Ok(before) = matched_document_worlds(plan, from, into, d, e, m) {
            let (name, id) = xs[m as int];
            assert(xs[m as int].0 == name);
            lemma_find(ys, name);
            if let Some(other) = lookup(ys, name) {
                assert(ys[find(ys, name).unwrap()].0 == name);
                lemma_world(before, from, into, id, other);
                if let Err(Stop::Differs(error)) = matched_world(before, from, into, id, other) {
                    let step = "failed to merge world `"@ + name + "`"@;
                    let outer = ErrorView { context: error.context.push(step), ..error };
                    lemma_inner(error, outer, step);
                    assert(blames_document(outer, from, into, d, e));
                }
            }
        }
    }
}

proof fn lemma_document(
    plan: Plan,
    from: ResolveView,
    into: ResolveView,
    d: DocumentId,
    e: DocumentId,
)
    ensures
        matched_document(plan, from, into, d, e) matches Err(Stop::Differs(error))
            ==> blames_document(error, from, into, d, e),
{
    if let Ok(with) = plan.with_document(d, e) {
        let n = from.documents[d as int].interfaces.len();
        lemma_document_interfaces(with, from, into, d, e, n);
        if let Ok(first) = matched_document_interfaces(with, from, into, d, e, n) {
            lemma_document_worlds(
                first,
                from,
                into,
                d,
                e,
                from.documents[d as int].worlds.len(),
            );
        }
    }
}

proof fn lemma_documents(
    plan: Plan,
    from: ResolveView,
    into: ResolveView,
    p: usize,
    q: usize,
    n: nat,
)
    requires
        n <= from.packages[p as int].documents.len(),
    ensures
        matched_documents(plan, from, into, p, q, n) matches Err(Stop::Differs(error))
            ==> blames_package(
            error,
            from,
            into,
            from.packages[p as int],
            into.packages[q as int],
        ),
    decreases n,
{
    if n > 0 {
        let m = (n - 1) as nat;
        let (a, b) = (from.packages[p as int], into.packages[q as int]);
        lemma_documents(plan, from, into, p, q, m);
        if let Ok(before) = matched_documents(plan, from, into, p, q, m) {
            let (name, id) = a.documents[m as int];
            assert(a.documents[m as int].0 == name);
            lemma_find(b.documents, name);
            if let Some(other) = lookup(b.documents, name) {
                assert(b.documents[find(b.documents, name).unwrap()].0 == name);
                lemma_document(before, from, into, id, other);
                if let Err(Stop::Differs(error)) = matched_document(before, from, into, id, other) {
                    let step = "failed to merge document `"@ + name + "` into existing copy"@;
                    let outer = ErrorView { context: error.context.push(step), ..error };
                    lemma_inner(error, outer, step);
                    assert(blames_package(outer, from, into, a, b));
                }
            }
        }
    }
}

proof fn lemma_packages(plan: Plan, from: ResolveView, into: ResolveView, n: nat)
    requires
        n <= from.packages.len() <= usize::MAX,
        into.packages.len() <= usize::MAX,
    ensures
        matched_packages(plan, from, into, n) matches Err(Stop::Differs(error)) ==> blames_resolve(
            error,
            from,
            into,
        ),
    decreases n,
{
    if n > 0 {
        let m = (n - 1) as nat;
        lemma_packages(plan, from, into, m);
        if let Ok(before) = matched_packages(plan, from, into, m) {
            let package = from.packages[m as int];
            lemma_find_package(into.packages, package, into.packages.len());
            if let Some(i) = find_package(into.packages, package, into.packages.len()) {
                let p = m as usize;
                let q = i as usize;
                assert(alike(from.packages[m as int], into.packages[i]));
                if let Ok(with) = before.with_package(p, q) {
                    lemma_documents(with, from, into, p, q, package.documents.len());
                }
                if let Err(Stop::Differs(error)) = matched_package(before, from, into, p, q) {
                    let step = "failed to merge package `"@ + package.name
                        + "` into existing copy"@;
                    let outer = ErrorView { context: error.context.push(step), ..error };
                    lemma_inner(error, outer, step);
                    assert(blames_resolve(outer, from, into));
                }
            }
        }
    }
}

proof fn lemma_duplicate(packages: Seq<PackageView>, n: nat)
    requires
        n <= packages.len(),
    ensures
        first_duplicate(packages, n) matches Some(q) ==> 0 <= q < n && exists|p: int|
            0 <= p < q && alike(#[trigger] packages[p], packages[q]),
    decreases n,
{
    if n > 0 {
        lemma_duplicate(packages, (n - 1) as nat);
        lemma_find_package(packages, packages[n - 1], (n - 1) as nat);
        if let Some(p) = find_package(packages, packages[n - 1], (n - 1) as nat) {
            assert(alike(packages[p], packages[n - 1]));
        }
    }
}

/// Resolves that cannot be merged are left as they are. The error says which two packages of the
/// first are alike, or in what the two resolves differ: in which package, document, and interface
/// or world, and what is missing there or does not match.
pub proof fn disagreements_are_reported(into: ResolveView, from: ResolveView)
    requires
        comparable(from, into),
    ensures
        merged(into, from) matches (after, Err(error)) ==> after == into && (blames_duplicate(
            error,
            into,
        ) || blames_resolve(error, from, into)),
{
    parented_resolves_merge(from, into);
    assert(into.fits() && from.fits());
    lemma_duplicate(into.packages, into.packages.len());
    if let Some(q) = first_duplicate(into.packages, into.packages.len()) {
        let p = choose|p: int|
            0 <= p < q && alike(#[trigger] into.packages[p], into.packages[q]);
        assert(alike(into.packages[p], into.packages[q]));
    } else {
        lemma_packages(Plan::start(), from, into, from.packages.len());
    }
}

} // verus!
