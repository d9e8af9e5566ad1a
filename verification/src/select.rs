//! Selection of a world by its name.
use vstd::prelude::*;
use vstd::string::*;

use crate::arena;
use crate::error::{failure, outcome, sentence, Error, ErrorView};
use crate::names::{self, lemma_find, lookup, Entries};
use crate::remap::ids_within;
use crate::resolve::{Resolve, ResolveView};
use crate::search::{first_where, lemma_first_where, lemma_first_where_stops};
use crate::types::{DocumentId, PackageId, WorldId};

verus! {

/// The positions of the dots in a text.
pub open spec fn dots(text: Seq<char>) -> spec_fn(int) -> bool {
    |i: int| text[i] == '.'
}

/// What stands before the first dot of a text and what stands behind it.
pub open spec fn split_name(text: Seq<char>) -> (Seq<char>, Option<Seq<char>>) {
    match first_where(text.len(), dots(text)) {
        Some(i) => (text.take(i), Some(text.skip(i + 1))),
        None => (text, None),
    }
}

/// A document is listed and has a default world.
pub open spec fn has_default(
    resolve: ResolveView,
    documents: Seq<(Seq<char>, DocumentId)>,
    d: DocumentId,
) -> bool {
    &&& resolve.documents[d as int].default_world.is_some()
    &&& exists|j: int| 0 <= j < documents.len() && (#[trigger] documents[j]).1 == d
}

/// A document is the only one of those listed that has a default world, under however many names
/// it is listed.
pub open spec fn only_default(
    resolve: ResolveView,
    documents: Seq<(Seq<char>, DocumentId)>,
    d: DocumentId,
) -> bool {
    &&& has_default(resolve, documents, d)
    &&& forall|e: DocumentId| #[trigger] has_default(resolve, documents, e) ==> e == d
}

/// The world of a package that a name stands for: of a document by its name, or its default one,
/// or the only default one of the package.
pub open spec fn selected(resolve: ResolveView, pkg: PackageId, world: Option<Seq<char>>) -> Result<
    WorldId,
    ErrorView,
> {
    let documents = resolve.packages[pkg as int].documents;
    match world {
        Some(world) => {
            let (doc, name) = split_name(world);
            match lookup(documents, doc) {
                None => Err(failure("no document named `"@ + doc + "` in package"@)),
                Some(id) => match name {
                    Some(name) => match lookup(resolve.documents[id as int].worlds, name) {
                        None => Err(failure("no world named `"@ + name + "` in document"@)),
                        Some(id) => Ok(id),
                    },
                    None => match resolve.documents[id as int].default_world {
                        None => Err(failure("no default world in document"@)),
                        Some(id) => Ok(id),
                    },
                },
            }
        },
        None => {
            if documents.len() == 0 {
                Err(failure("no documents found in package"@))
            } else if !exists|d: DocumentId| #[trigger] has_default(resolve, documents, d) {
                Err(failure("no default world in package"@))
            } else if exists|d: DocumentId| #[trigger] only_default(resolve, documents, d) {
                let doc = choose|d: DocumentId| #[trigger] only_default(resolve, documents, d);
                Ok(resolve.documents[doc as int].default_world.unwrap())
            } else {
                Err(
                    failure(
                        "multiple default worlds found in package, one must be specified"@,
                    ),
                )
            }
        },
    }
}

/// Splits a name at its first dot.
fn split(name: &str) -> (parts: (&str, Option<&str>))
    ensures
        parts.0@ == split_name(name@).0,
        match (parts.1, split_name(name@).1) {
            (Some(rest), Some(expected)) => rest@ == expected,
            (None, None) => true,
            _ => false,
        },
{
    let n: usize = name.unicode_len();
    for i in 0..n
        invariant
            n == name@.len(),
            first_where(i as nat, dots(name@)).is_none(),
    {
        proof {
            lemma_first_where_stops((i + 1) as nat, n as nat, dots(name@));
        }
        if name.get_char(i) == '.' {
            assert(dots(name@)(i as int));
            assert(name@.subrange(0, i as int) =~= name@.take(i as int));
            assert(name@.subrange(i + 1, n as int) =~= name@.skip(i + 1));
            return (name.substring_char(0, i), Some(name.substring_char(i + 1, n)));
        }
    }
    (name, None)
}

impl Resolve {
    /// Attempts to locate a default world for the `pkg` specified within this [`Resolve`].
    /// Optionally takes a string-based `world` "specifier" to resolve the world.
    ///
    /// This is intended for use by bindings generators and such as the default logic for locating a
    /// world within a package used for binding. The `world` argument is typically a user-specified
    /// argument (which again is optional and not required) where the `pkg` is determined ambiently
    /// by the integration.
    ///
    /// If `world` is `None` (e.g. not specified by a user) then the package must have exactly one
    /// `default world` within its documents, otherwise an error will be returned. If `world` is
    /// `Some` then it's a `.`-separated name where the first element is the name of the document
    /// and the second, optional, element is the name of the `world`. For example the name `foo`
    /// would mean the `default world` of the `foo` document. The name `foo.bar` would mean the
    /// world named `bar` in the `foo` document.
    pub fn select_world(&self, pkg: PackageId, world: Option<&str>) -> (result: Result<
        WorldId,
        Error,
    >)
        requires
            pkg < self@.packages.len(),
            self@.package_valid(pkg as int),
        ensures
            outcome(result) == selected(
                self@,
                pkg,
                match world {
                    Some(world) => Some(world@),
                    None => None,
                },
            ),
    {
        let package = arena::item(&self.packages, pkg);
        assert(package@ == self@.packages[pkg as int]);
        match world {
            Some(world) => {
                let (doc_name, world_name) = split(world);
                proof {
                    lemma_find(package@.documents, doc_name@);
                }
                let doc = match names::get(&package.documents, doc_name) {
                    Some(id) => arena::item(&self.documents, *id),
                    None => {
                        let msg = sentence("no document named `", doc_name, "` in package");
                        return Err(Error::new(msg));
                    },
                };
                match world_name {
                    Some(name) => match names::get(&doc.worlds, name) {
                        Some(id) => Ok(*id),
                        None => {
                            let msg = sentence("no world named `", name, "` in document");
                            Err(Error::new(msg))
                        },
                    },
                    None => match doc.default_world {
                        Some(id) => Ok(id),
                        None => Err(Error::new("no default world in document".to_owned())),
                    },
                }
            },
            None => {
                let n: usize = names::len(&package.documents);
                if n == 0 {
                    return Err(Error::new("no documents found in package".to_owned()));
                }
                let ghost documents = package@.documents;
                let mut unique_default_world: Option<(DocumentId, WorldId)> = None;
                for i in 0..n
                    invariant
                        n == documents.len(),
                        documents == package.documents.entries(),
                        documents == self@.packages[pkg as int].documents,
                        n > 0,
                        world.is_none(),
                        ids_within(documents, self@.documents.len()),
                        match unique_default_world {
                            None => forall|j: int|
                                0 <= j < i ==> self@.documents[(
                                #[trigger] documents[j]).1 as int].default_world.is_none(),
                            Some((doc, id)) => {
                                &&& has_default(self@, documents, doc)
                                &&& self@.documents[doc as int].default_world == Some(id)
                                &&& forall|j: int|
                                    0 <= j < i && self@.documents[(
                                    #[trigger] documents[j]).1 as int].default_world.is_some()
                                        ==> documents[j].1 == doc
                            },
                        },
                {
                    let (_, id) = names::entry(&package.documents, i);
                    let doc = arena::item(&self.documents, *id);
                    assert(self@.documents[*id as int] == doc@);
                    assert(documents[i as int].1 == *id);
                    if let Some(default_world) = doc.default_world {
                        assert(has_default(self@, documents, *id));
                        if let Some((other, _)) = unique_default_world {
                            if other != *id {
                                assert(!exists|d: DocumentId| #[trigger]
                                    only_default(self@, documents, d));
                                return Err(
                                    Error::new(
                                        "multiple default worlds found in package, one must be specified".to_owned(),
                                    ),
                                );
                            }
                        }
                        unique_default_world = Some((*id, default_world));
                    }
                }
                match unique_default_world {
                    Some((doc, id)) => {
                        assert(only_default(self@, documents, doc));
                        Ok(id)
                    },
                    None => Err(Error::new("no default world in package".to_owned())),
                }
            },
        }
    }
}

/// The name of a document, a dot and the name of a world stand for that world in that document,
/// whatever the name of the world holds. The name of a document alone stands for no world by name.
pub proof fn names_split_at_first_dot(doc: Seq<char>, world: Seq<char>)
    requires
        !doc.contains('.'),
    ensures
        split_name(doc) == (doc, None::<Seq<char>>),
        split_name(doc.push('.') + world) == (doc, Some(world)),
{
    let text = doc.push('.') + world;
    lemma_first_where(doc.len(), dots(doc));
    lemma_first_where(text.len(), dots(text));
    assert(dots(text)(doc.len() as int));
    if let Some(i) = first_where(text.len(), dots(text)) {
        if i < doc.len() {
            assert(doc[i] == '.');
        }
    }
    assert(text.take(doc.len() as int) =~= doc);
    assert(text.skip((doc.len() + 1) as int) =~= world);
}

/// A world that was selected is one of the resolve.
pub proof fn selected_worlds_exist(resolve: ResolveView, pkg: PackageId, world: Option<Seq<char>>)
    requires
        resolve.usable(),
        pkg < resolve.packages.len(),
    ensures
        selected(resolve, pkg, world) matches Ok(id) ==> id < resolve.worlds.len(),
{
    let documents = resolve.packages[pkg as int].documents;
    assert(resolve.package_valid(pkg as int));
    match world {
        Some(world) => {
            let (doc, name) = split_name(world);
            lemma_find(documents, doc);
            if let Some(id) = lookup(documents, doc) {
                assert(resolve.document_valid(id as int));
                if let Some(name) = name {
                    lemma_find(resolve.documents[id as int].worlds, name);
                }
            }
        },
        None => {
            if exists|d: DocumentId| #[trigger] only_default(resolve, documents, d) {
                let d = choose|d: DocumentId| #[trigger] only_default(resolve, documents, d);
                assert(resolve.document_valid(d as int));
            }
        },
    }
}

/// A world that was selected for a package is defined in a document of that package, if every item
/// can be traced back to its package.
pub proof fn selected_worlds_are_of_package(
    resolve: ResolveView,
    pkg: PackageId,
    world: Option<Seq<char>>,
)
    requires
        resolve.valid(),
        resolve.parented(),
        pkg < resolve.packages.len(),
    ensures
        selected(resolve, pkg, world) matches Ok(id)
            ==> resolve.documents[resolve.worlds[id as int].document as int].package == Some(pkg),
{
    let documents = resolve.packages[pkg as int].documents;
    assert(resolve.package_valid(pkg as int));
    assert(resolve.package_lists(pkg as int));
    match world {
        Some(world) => {
            let (doc, name) = split_name(world);
            lemma_find(documents, doc);
            if let Some(id) = lookup(documents, doc) {
                assert(resolve.document_lists(id as int));
                assert(resolve.document_defaults(id as int));
                if let Some(name) = name {
                    lemma_find(resolve.documents[id as int].worlds, name);
                }
            }
        },
        None => {
            if exists|d: DocumentId| #[trigger] only_default(resolve, documents, d) {
                let d = choose|d: DocumentId| #[trigger] only_default(resolve, documents, d);
                let j = choose|j: int| 0 <= j < documents.len() && (#[trigger] documents[j]).1 == d;
                assert(resolve.packages[pkg as int].documents[j].1 == d);
                assert(resolve.document_defaults(d as int));
            }
        },
    }
}

/// Without a name, the world `w` is selected if and only if exactly one document of the package has
/// a default world, and it is `w`. If none has, or two or more do, then there is an error.
pub proof fn only_default_world_is_selected(resolve: ResolveView, pkg: PackageId, w: WorldId)
    requires
        pkg < resolve.packages.len(),
    ensures
        ({
            let documents = resolve.packages[pkg as int].documents;
            selected(resolve, pkg, None) == Ok::<WorldId, ErrorView>(w) <==> exists|d: DocumentId|
                #[trigger] only_default(resolve, documents, d)
                    && resolve.documents[d as int].default_world == Some(w)
        }),
{
    let documents = resolve.packages[pkg as int].documents;
    if exists|d: DocumentId| #[trigger]
        only_default(resolve, documents, d) && resolve.documents[d as int].default_world == Some(
            w,
        ) {
        let d = choose|d: DocumentId| #[trigger]
            only_default(resolve, documents, d) && resolve.documents[d as int].default_world
                == Some(w);
        let e = choose|e: DocumentId| #[trigger] only_default(resolve, documents, e);
        assert(has_default(resolve, documents, d));
        assert(e == d);
    }
}

} // verus!
