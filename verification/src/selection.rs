//! Which world a name stands for.
use vstd::prelude::*;
use vstd::string::*;

use crate::error::ErrorView;
use crate::names::lookup;
use crate::references::{lacks, lemma_found, lemma_lacks, lemma_listed};
use crate::resolve::ResolveView;
use crate::search::{first_where, lemma_first_where};
use crate::select::{
    dots, has_default, names_split_at_first_dot, only_default, selected, split_name,
};
use crate::types::{DocumentId, PackageId, WorldId};

verus! {

/// The error that says something and nothing else.
pub open spec fn says(error: ErrorView, msg: Seq<char>) -> bool {
    error.span.is_none() && error.msg == msg && error.context.len() == 0
}

/// The name of a document, a dot and the name of a world select the world that the document of the
/// package lists under that name, and no other, whatever the default world is. If every item can be
/// traced back to its package then the world and its document have these names. If the package has
/// no document of that name, or the document no world, then that is the error.
pub proof fn worlds_are_selected_by_their_name(
    resolve: ResolveView,
    pkg: PackageId,
    doc: Seq<char>,
    world: Seq<char>,
    w: WorldId,
)
    requires
        resolve.usable(),
        pkg < resolve.packages.len(),
        !doc.contains('.'),
    ensures
        ({
            let documents = resolve.packages[pkg as int].documents;
            let result = selected(resolve, pkg, Some(doc.push('.') + world));
            &&& result == Ok::<WorldId, ErrorView>(w) <==> exists|d: DocumentId|
                    #[trigger] documents.contains((doc, d))
                        && resolve.documents[d as int].worlds.contains((world, w))
            &&& resolve.valid() && resolve.parented() ==> (result matches Ok(id) ==> {
                let home = resolve.documents[resolve.worlds[id as int].document as int];
                &&& resolve.worlds[id as int].name == world
                &&& home.name == doc
                &&& home.package == Some(pkg)
            })
            &&& result matches Err(error) ==> if lacks(documents, doc) {
                says(error, "no document named `"@ + doc + "` in package"@)
            } else {
                says(error, "no world named `"@ + world + "` in document"@)
            }
        }),
{
    let documents = resolve.packages[pkg as int].documents;
    let text = doc.push('.') + world;
    let result = selected(resolve, pkg, Some(text));
    names_split_at_first_dot(doc, world);
    assert(resolve.package_valid(pkg as int));
    lemma_listed(documents, doc);
    lemma_lacks(documents, doc);
    if let Some(d) = lookup(documents, doc) {
        let listed = resolve.documents[d as int].worlds;
        let k = choose|k: int| 0 <= k < documents.len() && documents[k] == (doc, d);
        assert(documents[k].1 < resolve.documents.len());
        assert(resolve.document_valid(d as int));
        lemma_listed(listed, world);
        if resolve.valid() && resolve.parented() && result.is_ok() {
            let id = result->Ok_0;
            assert(resolve.package_lists(pkg as int));
            assert(resolve.packages[pkg as int].documents[k].1 == d);
            assert(resolve.document_lists(d as int));
            let l = choose|l: int| 0 <= l < listed.len() && listed[l] == (world, id);
            assert(resolve.documents[d as int].worlds[l].1 == id);
        }
    }
    assert(result == Ok::<WorldId, ErrorView>(w) <==> exists|d: DocumentId|
            #[trigger] documents.contains((doc, d))
                && resolve.documents[d as int].worlds.contains((world, w))) by {
        if exists|d: DocumentId| #[trigger]
            documents.contains((doc, d)) && resolve.documents[d as int].worlds.contains(
                (world, w),
            ) {
            let d = choose|d: DocumentId| #[trigger]
                documents.contains((doc, d)) && resolve.documents[d as int].worlds.contains(
                    (world, w),
                );
            lemma_found(documents, doc, d);
            let k = choose|k: int| 0 <= k < documents.len() && documents[k] == (doc, d);
            assert(documents[k].1 < resolve.documents.len());
            assert(resolve.document_valid(d as int));
            lemma_found(resolve.documents[d as int].worlds, world, w);
        }
        if result == Ok::<WorldId, ErrorView>(w) {
            let d = lookup(documents, doc).unwrap();
            assert(documents.contains((doc, d)));
        }
    }
}

/// The name of a document alone selects the default world of that document, and no other. If the
/// package has no document of that name, or the document no default world, then that is the error.
pub proof fn documents_stand_for_their_default_world(
    resolve: ResolveView,
    pkg: PackageId,
    doc: Seq<char>,
    w: WorldId,
)
    requires
        resolve.usable(),
        pkg < resolve.packages.len(),
        !doc.contains('.'),
    ensures
        ({
            let documents = resolve.packages[pkg as int].documents;
            let result = selected(resolve, pkg, Some(doc));
            &&& result == Ok::<WorldId, ErrorView>(w) <==> exists|d: DocumentId|
                    #[trigger] documents.contains((doc, d))
                        && resolve.documents[d as int].default_world == Some(w)
            &&& result matches Err(error) ==> if lacks(documents, doc) {
                says(error, "no document named `"@ + doc + "` in package"@)
            } else {
                says(error, "no default world in document"@)
            }
        }),
{
    let documents = resolve.packages[pkg as int].documents;
    let result = selected(resolve, pkg, Some(doc));
    names_split_at_first_dot(doc, Seq::empty());
    assert(resolve.package_valid(pkg as int));
    lemma_listed(documents, doc);
    lemma_lacks(documents, doc);
    assert(result == Ok::<WorldId, ErrorView>(w) <==> exists|d: DocumentId|
            #[trigger] documents.contains((doc, d))
                && resolve.documents[d as int].default_world == Some(w)) by {
        if exists|d: DocumentId| #[trigger]
            documents.contains((doc, d)) && resolve.documents[d as int].default_world == Some(w) {
            let d = choose|d: DocumentId| #[trigger]
                documents.contains((doc, d)) && resolve.documents[d as int].default_world == Some(
                    w,
                );
            lemma_found(documents, doc, d);
        }
        if result == Ok::<WorldId, ErrorView>(w) {
            let d = lookup(documents, doc).unwrap();
            assert(documents.contains((doc, d)));
        }
    }
}

/// Every text is the name of a document, or that and a dot and the name of a world, in one way
/// only. What stands behind the first dot is the name of a world, whatever it holds.
pub proof fn texts_have_one_reading(text: Seq<char>)
    ensures
        !text.contains('.') || exists|doc: Seq<char>, world: Seq<char>|
            !doc.contains('.') && text == #[trigger] (doc.push('.') + world),
{
    if text.contains('.') {
        let (doc, world) = split_name(text);
        lemma_first_where(text.len(), dots(text));
        let k = choose|k: int| 0 <= k < text.len() && text[k] == '.';
        assert(dots(text)(k));
        let i = first_where(text.len(), dots(text)).unwrap();
        assert(dots(text)(i));
        assert(!doc.contains('.')) by {
            if doc.contains('.') {
                let j = choose|j: int| 0 <= j < doc.len() && doc[j] == '.';
                assert(dots(text)(j));
            }
        }
        assert(text =~= doc.push('.') + world.unwrap());
    }
}

/// Without a name, a world is selected if and only if it is the default world of a document of the
/// package and every document of the package that has a default world is that document. The errors
/// tell apart a package without documents, one without a default world and one with several.
pub proof fn the_one_default_world_is_selected(resolve: ResolveView, pkg: PackageId, w: WorldId)
    requires
        pkg < resolve.packages.len(),
    ensures
        ({
            let documents = resolve.packages[pkg as int].documents;
            let result = selected(resolve, pkg, None);
            &&& result == Ok::<WorldId, ErrorView>(w) <==> exists|j: int|
                    0 <= j < documents.len() && resolve.documents[(
                    #[trigger] documents[j]).1 as int].default_world == Some(w) && forall|k: int|
                        0 <= k < documents.len() && resolve.documents[(
                        #[trigger] documents[k]).1 as int].default_world.is_some()
                            ==> documents[k].1 == documents[j].1
            &&& result matches Err(error) ==> if documents.len() == 0 {
                says(error, "no documents found in package"@)
            } else if forall|k: int|
                0 <= k < documents.len() ==> resolve.documents[(
                #[trigger] documents[k]).1 as int].default_world.is_none() {
                says(error, "no default world in package"@)
            } else {
                says(error, "multiple default worlds found in package, one must be specified"@)
            }
        }),
{
    let documents = resolve.packages[pkg as int].documents;
    let result = selected(resolve, pkg, None);
    assert forall|d: DocumentId| #[trigger] has_default(resolve, documents, d) implies exists|
        k: int,
    |
        0 <= k < documents.len() && (#[trigger] documents[k]).1 == d
            && resolve.documents[d as int].default_world.is_some() by {}
    assert forall|k: int|
        0 <= k < documents.len() && resolve.documents[(
        #[trigger] documents[k]).1 as int].default_world.is_some() implies has_default(
        resolve,
        documents,
        documents[k].1,
    ) by {}
    assert(result == Ok::<WorldId, ErrorView>(w) <==> exists|j: int|
            0 <= j < documents.len() && resolve.documents[(
            #[trigger] documents[j]).1 as int].default_world == Some(w) && forall|k: int|
                0 <= k < documents.len() && resolve.documents[(
                #[trigger] documents[k]).1 as int].default_world.is_some() ==> documents[k].1
                    == documents[j].1) by {
        if result == Ok::<WorldId, ErrorView>(w) {
            let d = choose|d: DocumentId| #[trigger] only_default(resolve, documents, d);
            assert(has_default(resolve, documents, d));
            let j = choose|j: int| 0 <= j < documents.len() && (#[trigger] documents[j]).1 == d;
            assert(resolve.documents[documents[j].1 as int].default_world == Some(w));
        }
        if exists|j: int|
            0 <= j < documents.len() && resolve.documents[(
            #[trigger] documents[j]).1 as int].default_world == Some(w) && forall|k: int|
                0 <= k < documents.len() && resolve.documents[(
                #[trigger] documents[k]).1 as int].default_world.is_some() ==> documents[k].1
                    == documents[j].1 {
            let j = choose|j: int|
                0 <= j < documents.len() && resolve.documents[(
                #[trigger] documents[j]).1 as int].default_world == Some(w) && forall|k: int|
                    0 <= k < documents.len() && resolve.documents[(
                    #[trigger] documents[k]).1 as int].default_world.is_some() ==> documents[k].1
                        == documents[j].1;
            let d = documents[j].1;
            assert(has_default(resolve, documents, d));
            assert(only_default(resolve, documents, d));
            let e = choose|e: DocumentId| #[trigger] only_default(resolve, documents, e);
            assert(e == d);
        }
    }
}

} // verus!
