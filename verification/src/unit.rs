//! Merging with a resolve that holds nothing.
use vstd::prelude::*;

use crate::correspondence::packages_differ;
use crate::error::ErrorView;
use crate::matching::{
    find_package, first_duplicate, lemma_find_package, matched, matched_packages, same_package,
    Plan, Stop,
};
use crate::merge::{joined, merged, merged_map, unioned};
use crate::moving::{fresh, lemma_nothing_known};
use crate::remap::{
    function_within, functions_within, ids_within, item_within, items_within, kind_within,
    mapped_function, mapped_functions, mapped_ids, mapped_items, mapped_kind, ItemMap, RemapView,
};
use crate::resolve::ResolveView;
use crate::types::{FunctionView, ItemView, KindView, ResultsView};

verus! {

/// A resolve that holds nothing.
pub open spec fn nothing() -> ResolveView {
    ResolveView {
        worlds: Seq::empty(),
        interfaces: Seq::empty(),
        types: Seq::empty(),
        documents: Seq::empty(),
        packages: Seq::empty(),
    }
}

/// The mapping that leaves every id of a resolve as it is.
pub open spec fn same_ids(resolve: ResolveView) -> RemapView {
    RemapView {
        types: fresh(0, resolve.types.len()),
        interfaces: fresh(0, resolve.interfaces.len()),
        worlds: fresh(0, resolve.worlds.len()),
        documents: fresh(0, resolve.documents.len()),
        packages: fresh(0, resolve.packages.len()),
    }
}

/// An empty resolve has nothing in common with another one.
proof fn lemma_nothing_matched(from: ResolveView, n: nat)
    ensures
        matched_packages(Plan::start(), from, nothing(), n) == Ok::<Plan, Stop>(Plan::start()),
    decreases n,
{
    if n > 0 {
        lemma_nothing_matched(from, (n - 1) as nat);
    }
}

proof fn lemma_same_kind(kind: KindView, n: nat)
    requires
        kind_within(kind, n),
        n <= usize::MAX,
    ensures
        mapped_kind(fresh(0, n), kind) == kind,
{
    assert(mapped_kind(fresh(0, n), kind) =~~= kind);
}

proof fn lemma_same_function(func: FunctionView, n: nat)
    requires
        function_within(func, n),
        n <= usize::MAX,
    ensures
        mapped_function(fresh(0, n), func) == func,
{
    assert(mapped_function(fresh(0, n), func).params =~~= func.params);
    if let ResultsView::Named(named) = func.results {
        assert(mapped_function(fresh(0, n), func).results->Named_0 =~~= named);
    }
}

proof fn lemma_same_ids(entries: Seq<(Seq<char>, usize)>, n: nat)
    requires
        ids_within(entries, n),
        n <= usize::MAX,
    ensures
        mapped_ids(fresh(0, n), entries) == entries,
{
    assert(mapped_ids(fresh(0, n), entries) =~= entries);
}

proof fn lemma_same_functions(entries: Seq<(Seq<char>, FunctionView)>, n: nat)
    requires
        functions_within(entries, n),
        n <= usize::MAX,
    ensures
        mapped_functions(fresh(0, n), entries) == entries,
{
    assert forall|i: int| 0 <= i < entries.len() implies mapped_functions(
        fresh(0, n),
        entries,
    )[i] == entries[i] by {
        lemma_same_function(entries[i].1, n);
    }
    assert(mapped_functions(fresh(0, n), entries) =~= entries);
}

proof fn lemma_same_items(entries: Seq<(Seq<char>, ItemView)>, interfaces: nat, types: nat)
    requires
        items_within(entries, interfaces, types),
        interfaces <= usize::MAX,
        types <= usize::MAX,
    ensures
        mapped_items(
            ItemMap { types: fresh(0, types), interfaces: fresh(0, interfaces) },
            entries,
        ) == entries,
{
    let map = ItemMap { types: fresh(0, types), interfaces: fresh(0, interfaces) };
    assert forall|i: int| 0 <= i < entries.len() implies mapped_items(map, entries)[i]
        == entries[i] by {
        assert(item_within(entries[i].1, interfaces, types));
        if let ItemView::Function(f) = entries[i].1 {
            lemma_same_function(f, types);
        }
    }
    assert(mapped_items(map, entries) =~= entries);
}

/// Merging a resolve into one that holds nothing makes a copy of it, with the same ids.
pub proof fn merging_into_nothing(from: ResolveView)
    requires
        from.valid(),
    ensures
        merged(nothing(), from) == (from, Ok::<RemapView, ErrorView>(same_ids(from))),
{
    let into = nothing();
    let plan = Plan::start();
    lemma_nothing_matched(from, from.packages.len());
    lemma_nothing_known(0, 0, from.types.len() as int);
    lemma_nothing_known(0, 0, from.interfaces.len() as int);
    lemma_nothing_known(0, 0, from.worlds.len() as int);
    lemma_nothing_known(0, 0, from.documents.len() as int);
    lemma_nothing_known(0, 0, from.packages.len() as int);
    assert(merged_map(into, from, plan) == same_ids(from));
    let map = same_ids(from);
    let after = joined(into, from, plan);
    assert forall|i: int| 0 <= i < from.types.len() implies #[trigger] after.types[i]
        == from.types[i] by {
        assert(from.type_valid(i));
        lemma_same_kind(from.types[i].kind, from.types.len());
    }
    assert forall|i: int| 0 <= i < from.interfaces.len() implies #[trigger] after.interfaces[i]
        == from.interfaces[i] by {
        assert(from.interface_valid(i));
        lemma_same_ids(from.interfaces[i].types, from.types.len());
        lemma_same_functions(from.interfaces[i].functions, from.types.len());
    }
    assert forall|i: int| 0 <= i < from.worlds.len() implies #[trigger] after.worlds[i]
        == from.worlds[i] by {
        assert(from.world_valid(i));
        lemma_same_items(from.worlds[i].imports, from.interfaces.len(), from.types.len());
        lemma_same_items(from.worlds[i].exports, from.interfaces.len(), from.types.len());
    }
    assert forall|i: int| 0 <= i < from.documents.len() implies #[trigger] after.documents[i]
        == from.documents[i] by {
        assert(from.document_valid(i));
        lemma_same_ids(from.documents[i].interfaces, from.interfaces.len());
        lemma_same_ids(from.documents[i].worlds, from.worlds.len());
    }
    assert forall|i: int| 0 <= i < from.packages.len() implies #[trigger] after.packages[i]
        == from.packages[i] by {
        assert(from.package_valid(i));
        lemma_same_ids(from.packages[i].documents, from.documents.len());
    }
    assert(after.types =~= from.types);
    assert(after.interfaces =~= from.interfaces);
    assert(after.worlds =~= from.worlds);
    assert(after.documents =~= from.documents);
    assert(after.packages =~= from.packages);
}

/// Merging a resolve that holds nothing into another one changes nothing, unless two packages of
/// that one have the same name and URL.
pub proof fn merging_nothing(into: ResolveView)
    requires
        packages_differ(into),
    ensures
        merged(into, nothing()) == (into, Ok::<RemapView, ErrorView>(same_ids(nothing()))),
{
    lemma_no_duplicate(into, into.packages.len());
    let plan = Plan::start();
    assert(matched(nothing(), into) == Ok::<Plan, Stop>(plan));
    let after = unioned(into, nothing(), plan);
    assert(after.types =~= into.types);
    assert(after.interfaces =~= into.interfaces);
    assert(after.worlds =~= into.worlds);
    assert(after.documents =~= into.documents);
    assert(after.packages =~= into.packages);
    assert(merged_map(into, nothing(), plan) =~= same_ids(nothing()));
}

/// Packages that differ hold no duplicate.
pub proof fn lemma_no_duplicate(resolve: ResolveView, n: nat)
    requires
        packages_differ(resolve),
        n <= resolve.packages.len(),
    ensures
        first_duplicate(resolve.packages, n).is_none(),
    decreases n,
{
    if n > 0 {
        lemma_no_duplicate(resolve, (n - 1) as nat);
        lemma_find_package(resolve.packages, resolve.packages[n - 1], (n - 1) as nat);
        if let Some(i) = find_package(resolve.packages, resolve.packages[n - 1], (n - 1) as nat) {
            assert(same_package(resolve.packages[i], resolve.packages[n - 1]));
        }
    }
}

} // verus!
