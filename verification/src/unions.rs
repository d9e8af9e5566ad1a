//! When one world can be merged into another, and what comes of it.
use vstd::prelude::*;
use vstd::string::*;

use crate::names::{find, lemma_find};
use crate::references::{lacks, lemma_lacks};
use crate::resolve::ResolveView;
use crate::search::{first_where, lemma_first_where};
use crate::selection::says;
use crate::types::{ItemView, WorldId, WorldView};
use crate::worlds::{
    clashing_export, clashing_import, interfaces_once, lemma_missing, lemma_missing_all, missing,
    name_of_interface, renamed_import, repeated_export, stands_for, worlds_merged, ItemList,
};

verus! {

/// The interface at position `i` of one list stands at position `j` of another.
pub open spec fn shared(a: ItemList, b: ItemList, i: int, j: int) -> bool {
    &&& 0 <= i < a.len()
    &&& 0 <= j < b.len()
    &&& a[i].1 is Interface
    &&& a[i].1 == b[j].1
}

/// The import at position `i` is one of an interface that the other world imports under another
/// name.
pub open spec fn imported_otherwise(a: ItemList, b: ItemList, i: int, j: int) -> bool {
    shared(a, b, i, j) && a[i].0 != b[j].0
}

/// The import at position `i` has the name of one of the other world, and not both are the same
/// interface.
pub open spec fn import_taken(a: ItemList, b: ItemList, i: int, j: int) -> bool {
    &&& 0 <= i < a.len()
    &&& 0 <= j < b.len()
    &&& a[i].0 == b[j].0
    &&& !(a[i].1 is Interface && a[i].1 == b[j].1)
}

/// The export at position `i` has the name of one of the other world.
pub open spec fn export_taken(a: ItemList, b: ItemList, i: int, j: int) -> bool {
    0 <= i < a.len() && 0 <= j < b.len() && a[i].0 == b[j].0
}

/// Two worlds do not clash: an interface that both import has the same name in both, no interface
/// is exported by both, a name that both import is that of one interface, and no name is exported
/// by both.
pub open spec fn compatible(a: WorldView, b: WorldView) -> bool {
    &&& forall|i: int, j: int| !#[trigger] imported_otherwise(a.imports, b.imports, i, j)
    &&& forall|i: int, j: int| !#[trigger] shared(a.exports, b.exports, i, j)
    &&& forall|i: int, j: int| !#[trigger] import_taken(a.imports, b.imports, i, j)
    &&& forall|i: int, j: int| !#[trigger] export_taken(a.exports, b.exports, i, j)
}

/// A list starts with what one list holds, and goes on with those items of another one whose names
/// the first lacks, in the order in which they stand there.
pub open spec fn united(a: ItemList, b: ItemList, union: ItemList) -> bool {
    &&& b.is_prefix_of(union)
    &&& forall|s: int|
        b.len() <= s < union.len() ==> a.contains(#[trigger] union[s]) && lacks(b, union[s].0)
    &&& forall|i: int| 0 <= i < a.len() && lacks(b, (#[trigger] a[i]).0) ==> union.contains(a[i])
    &&& forall|s: int, t: int|
        #![trigger union[s], union[t]]
        b.len() <= s < t < union.len() ==> exists|i: int, j: int|
            0 <= i < j < a.len() && #[trigger] a[i] == union[s] && #[trigger] a[j] == union[t]
}

proof fn lemma_renamed(a: ItemList, b: ItemList, i: int)
    requires
        0 <= i < a.len(),
        interfaces_once(b),
    ensures
        renamed_import(a, b)(i) <==> exists|j: int| imported_otherwise(a, b, i, j),
        renamed_import(a, b)(i) ==> exists|j: int|
            #[trigger] imported_otherwise(a, b, i, j) && name_of_interface(
                b,
                a[i].1->Interface_0,
            ) == Some(b[j].0),
        repeated_export(a, b)(i) <==> exists|j: int| shared(a, b, i, j),
        repeated_export(a, b)(i) ==> exists|j: int|
            #[trigger] shared(a, b, i, j) && name_of_interface(b, a[i].1->Interface_0) == Some(
                b[j].0,
            ),
{
    if let ItemView::Interface(id) = a[i].1 {
        let stands = stands_for(b, id);
        lemma_first_where(b.len(), stands);
        if let Some(j) = first_where(b.len(), stands) {
            assert(stands(j));
            assert(shared(a, b, i, j));
            if a[i].0 != b[j].0 {
                assert(imported_otherwise(a, b, i, j));
            }
            assert forall|k: int| #[trigger] shared(a, b, i, k) implies k == j by {
                assert(b[k].1 == b[j].1);
            }
            if exists|k: int| imported_otherwise(a, b, i, k) {
                let k = choose|k: int| imported_otherwise(a, b, i, k);
                assert(shared(a, b, i, k));
            }
        } else {
            assert forall|k: int| !#[trigger] shared(a, b, i, k) by {
                if shared(a, b, i, k) {
                    assert(stands(k));
                }
            }
            assert forall|k: int| !#[trigger] imported_otherwise(a, b, i, k) by {
                assert(!shared(a, b, i, k));
            }
        }
    }
}

proof fn lemma_taken(a: ItemList, b: ItemList, i: int)
    requires
        0 <= i < a.len(),
        crate::names::distinct(b),
    ensures
        clashing_import(a, b)(i) <==> exists|j: int| import_taken(a, b, i, j),
        clashing_export(a, b)(i) <==> exists|j: int| export_taken(a, b, i, j),
{
    lemma_find(b, a[i].0);
    if let Some(j) = find(b, a[i].0) {
        assert(export_taken(a, b, i, j));
        if !(a[i].1 is Interface && a[i].1 == b[j].1) {
            assert(import_taken(a, b, i, j));
        }
        if exists|k: int| import_taken(a, b, i, k) {
            let k = choose|k: int| import_taken(a, b, i, k);
            assert(b[k].0 == b[j].0);
        }
    } else {
        if exists|k: int| import_taken(a, b, i, k) {
            let k = choose|k: int| import_taken(a, b, i, k);
            assert(b[k].0 == a[i].0);
        }
        if exists|k: int| export_taken(a, b, i, k) {
            let k = choose|k: int| export_taken(a, b, i, k);
            assert(b[k].0 == a[i].0);
        }
    }
}

/// One world can be merged into another if and only if the two do not clash. The errors tell the
/// four ways to clash apart, and name the first item that does: interfaces that are imported under
/// two names come first, then interfaces that both export, then names that both import, then names
/// that both export.
pub proof fn worlds_merge_unless_they_clash(resolve: ResolveView, from: WorldId, into: WorldId)
    requires
        resolve.usable(),
        from < resolve.worlds.len(),
        into < resolve.worlds.len(),
        interfaces_once(resolve.worlds[into as int].imports),
        interfaces_once(resolve.worlds[into as int].exports),
    ensures
        ({
            let (a, b) = (resolve.worlds[from as int], resolve.worlds[into as int]);
            let (after, result) = worlds_merged(resolve, from, into);
            &&& result.is_ok() <==> compatible(a, b)
            &&& result matches Err(error) ==> {
                &&& after == resolve
                &&& {
                    ||| exists|i: int, j: int|
                        #[trigger] imported_otherwise(a.imports, b.imports, i, j) && (forall|
                            k: int,
                            l: int,
                        |
                            k < i ==> !#[trigger] imported_otherwise(a.imports, b.imports, k, l))
                            && says(
                            error,
                            "import `"@ + a.imports[i].0 + "` conflicts with previous name of `"@
                                + b.imports[j].0 + "`"@,
                        )
                    ||| (forall|k: int, l: int|
                        !#[trigger] imported_otherwise(a.imports, b.imports, k, l)) && exists|
                        i: int,
                        j: int,
                    |
                        #[trigger] shared(a.exports, b.exports, i, j) && (forall|k: int, l: int|
                            k < i ==> !#[trigger] shared(a.exports, b.exports, k, l)) && says(
                            error,
                            "export `"@ + a.exports[i].0 + "` conflicts with previous name of `"@
                                + b.exports[j].0 + "`"@,
                        )
                    ||| (forall|k: int, l: int|
                        !#[trigger] imported_otherwise(a.imports, b.imports, k, l)) && (forall|
                        k: int,
                        l: int,
                    |
                        !#[trigger] shared(a.exports, b.exports, k, l)) && exists|i: int, j: int|
                        #[trigger] import_taken(a.imports, b.imports, i, j) && (forall|
                            k: int,
                            l: int,
                        |
                            k < i ==> !#[trigger] import_taken(a.imports, b.imports, k, l)) && says(
                            error,
                            "duplicate import found for interface `"@ + a.imports[i].0 + "`"@,
                        )
                    ||| (forall|k: int, l: int|
                        !#[trigger] imported_otherwise(a.imports, b.imports, k, l)) && (forall|
                        k: int,
                        l: int,
                    |
                        !#[trigger] shared(a.exports, b.exports, k, l)) && (forall|k: int, l: int|
                        !#[trigger] import_taken(a.imports, b.imports, k, l)) && exists|
                        i: int,
                        j: int,
                    |
                        #[trigger] export_taken(a.exports, b.exports, i, j) && (forall|
                            k: int,
                            l: int,
                        |
                            k < i ==> !#[trigger] export_taken(a.exports, b.exports, k, l)) && says(
                            error,
                            "duplicate export found for interface `"@ + a.exports[i].0 + "`"@,
                        )
                }
            }
        }),
{
    let (a, b) = (resolve.worlds[from as int], resolve.worlds[into as int]);
    assert(resolve.world_usable(into as int));
    let renamed = renamed_import(a.imports, b.imports);
    let repeated = repeated_export(a.exports, b.exports);
    let import_clash = clashing_import(a.imports, b.imports);
    let export_clash = clashing_export(a.exports, b.exports);
    lemma_first_where(a.imports.len(), renamed);
    lemma_first_where(a.exports.len(), repeated);
    lemma_first_where(a.imports.len(), import_clash);
    lemma_first_where(a.exports.len(), export_clash);
    assert forall|k: int, l: int| #[trigger]
        imported_otherwise(a.imports, b.imports, k, l) implies renamed(k) by {
        lemma_renamed(a.imports, b.imports, k);
    }
    assert forall|k: int, l: int| #[trigger] shared(a.exports, b.exports, k, l) implies repeated(
        k,
    ) by {
        lemma_renamed(a.exports, b.exports, k);
    }
    assert forall|k: int, l: int| #[trigger]
        import_taken(a.imports, b.imports, k, l) implies import_clash(k) by {
        lemma_taken(a.imports, b.imports, k);
    }
    assert forall|k: int, l: int| #[trigger]
        export_taken(a.exports, b.exports, k, l) implies export_clash(k) by {
        lemma_taken(a.exports, b.exports, k);
    }
    if let Some(i) = first_where(a.imports.len(), renamed) {
        lemma_renamed(a.imports, b.imports, i);
        assert(renamed(i));
    } else if let Some(i) = first_where(a.exports.len(), repeated) {
        lemma_renamed(a.exports, b.exports, i);
        assert(repeated(i));
    } else if let Some(i) = first_where(a.imports.len(), import_clash) {
        lemma_taken(a.imports, b.imports, i);
        assert(import_clash(i));
    } else if let Some(i) = first_where(a.exports.len(), export_clash) {
        lemma_taken(a.exports, b.exports, i);
        assert(export_clash(i));
    }
}

proof fn lemma_missing_order(a: ItemList, b: ItemList)
    ensures
        forall|s: int, t: int|
            #![trigger missing(a, b)[s], missing(a, b)[t]]
            0 <= s < t < missing(a, b).len() ==> exists|i: int, j: int|
                0 <= i < j < a.len() && #[trigger] a[i] == missing(a, b)[s] && #[trigger] a[j]
                    == missing(a, b)[t],
    decreases a.len(),
{
    reveal(Seq::filter);
    if a.len() > 0 {
        let front = a.drop_last();
        let before = missing(front, b);
        let rest = missing(a, b);
        lemma_missing_order(front, b);
        lemma_missing(front, b);
        assert forall|s: int, t: int|
            #![trigger rest[s], rest[t]]
            0 <= s < t < rest.len() implies exists|i: int, j: int|
            0 <= i < j < a.len() && #[trigger] a[i] == rest[s] && #[trigger] a[j] == rest[t] by {
            if t < before.len() {
                assert(rest[s] == before[s] && rest[t] == before[t]);
                let (i, j) = choose|i: int, j: int|
                    0 <= i < j < front.len() && #[trigger] front[i] == before[s]
                        && #[trigger] front[j] == before[t];
                assert(a[i] == rest[s] && a[j] == rest[t]);
            } else {
                assert(rest[s] == before[s]);
                let i = choose|i: int| 0 <= i < front.len() && front[i] == before[s];
                assert(a[i] == rest[s]);
                assert(a[a.len() - 1] == rest[t]);
            }
        }
    }
}

proof fn lemma_united(a: ItemList, b: ItemList)
    ensures
        united(a, b, b + missing(a, b)),
{
    let new = missing(a, b);
    let union = b + new;
    lemma_missing(a, b);
    lemma_missing_order(a, b);
    assert forall|s: int| b.len() <= s < union.len() implies a.contains(#[trigger] union[s]) && lacks(
        b,
        union[s].0,
    ) by {
        assert(union[s] == new[s - b.len()]);
        lemma_lacks(b, union[s].0);
        let k = choose|k: int| 0 <= k < a.len() && a[k] == new[s - b.len()];
        assert(a[k] == union[s]);
    }
    assert forall|i: int| 0 <= i < a.len() && lacks(b, (#[trigger] a[i]).0) implies union.contains(
        a[i],
    ) by {
        lemma_lacks(b, a[i].0);
        lemma_missing_all(a, b, i);
        let j = choose|j: int| 0 <= j < new.len() && new[j] == a[i];
        assert(union[b.len() + j] == a[i]);
    }
    assert forall|s: int, t: int|
        #![trigger union[s], union[t]]
        b.len() <= s < t < union.len() implies exists|i: int, j: int|
        0 <= i < j < a.len() && #[trigger] a[i] == union[s] && #[trigger] a[j] == union[t] by {
        assert(union[s] == new[s - b.len()] && union[t] == new[t - b.len()]);
    }
}

/// A world that another one was merged into keeps its name and its document, and what it imports
/// and exports is followed by what the other one has in addition, in order. Nothing else changes.
pub proof fn merged_worlds_are_unions(resolve: ResolveView, from: WorldId, into: WorldId)
    requires
        resolve.usable(),
        from < resolve.worlds.len(),
        into < resolve.worlds.len(),
    ensures
        worlds_merged(resolve, from, into) matches (after, Ok(_)) ==> {
            let (a, b) = (resolve.worlds[from as int], resolve.worlds[into as int]);
            let union = after.worlds[into as int];
            &&& union.name == b.name
            &&& union.document == b.document
            &&& united(a.imports, b.imports, union.imports)
            &&& united(a.exports, b.exports, union.exports)
            &&& after.worlds.len() == resolve.worlds.len()
            &&& forall|w: int|
                0 <= w < resolve.worlds.len() && w != into ==> #[trigger] after.worlds[w]
                    == resolve.worlds[w]
            &&& after.types == resolve.types
            &&& after.interfaces == resolve.interfaces
            &&& after.documents == resolve.documents
            &&& after.packages == resolve.packages
        },
{
    let (a, b) = (resolve.worlds[from as int], resolve.worlds[into as int]);
    lemma_united(a.imports, b.imports);
    lemma_united(a.exports, b.exports);
}

} // verus!
