//! The links between items and the items that list them.
use vstd::prelude::*;

use crate::names::{distinct, find, lemma_find, lookup};
use crate::package::UnresolvedView;
use crate::resolve::ResolveView;
use crate::types::{InterfaceId, ItemView, TypeOwner};
use crate::worlds::ItemList;

verus! {

impl ResolveView {
    /// The documents that a package lists say that they belong to it, under the same name.
    pub open spec fn package_lists(self, p: int) -> bool {
        forall|j: int|
            0 <= j < self.packages[p].documents.len() ==> {
                let (name, id) = #[trigger] self.packages[p].documents[j];
                &&& self.documents[id as int].package == Some(p as usize)
                &&& self.documents[id as int].name == name
            }
    }

    /// The package that a document belongs to lists it.
    pub open spec fn document_listed(self, d: int) -> bool {
        let doc = self.documents[d];
        doc.package matches Some(p) && lookup(self.packages[p as int].documents, doc.name) == Some(
            d as usize,
        )
    }

    /// The interfaces and worlds that a document lists say that they are defined in it, under the
    /// same name.
    pub open spec fn document_lists(self, d: int) -> bool {
        &&& forall|j: int|
            0 <= j < self.documents[d].interfaces.len() ==> {
                let (name, id) = #[trigger] self.documents[d].interfaces[j];
                &&& self.interfaces[id as int].document == d
                &&& self.interfaces[id as int].name == Some(name)
            }
        &&& forall|j: int|
            0 <= j < self.documents[d].worlds.len() ==> {
                let (name, id) = #[trigger] self.documents[d].worlds[j];
                &&& self.worlds[id as int].document == d
                &&& self.worlds[id as int].name == name
            }
    }

    /// The default interface of a document is defined in it and has a name. So is its default
    /// world.
    pub open spec fn document_defaults(self, d: int) -> bool {
        &&& self.documents[d].default_interface matches Some(id) ==> {
            &&& self.interfaces[id as int].document == d
            &&& self.interfaces[id as int].name.is_some()
        }
        &&& self.documents[d].default_world matches Some(id) ==> self.worlds[id as int].document
            == d
    }

    /// The document that an interface is defined in lists it, if it has a name.
    pub open spec fn interface_listed(self, i: int) -> bool {
        let iface = self.interfaces[i];
        iface.name matches Some(name) ==> lookup(
            self.documents[iface.document as int].interfaces,
            name,
        ) == Some(i as usize)
    }

    /// The document that a world is defined in lists it.
    pub open spec fn world_listed(self, w: int) -> bool {
        let world = self.worlds[w];
        lookup(self.documents[world.document as int].worlds, world.name) == Some(w as usize)
    }

    /// The types that an interface lists say that they belong to it, under the same name.
    pub open spec fn interface_lists(self, i: int) -> bool {
        forall|j: int|
            0 <= j < self.interfaces[i].types.len() ==> {
                let (name, id) = #[trigger] self.interfaces[i].types[j];
                &&& self.types[id as int].owner == TypeOwner::Interface(i as usize)
                &&& self.types[id as int].name == Some(name)
            }
    }

    /// The interface that a type belongs to lists it.
    pub open spec fn type_listed(self, t: int) -> bool {
        self.types[t].owner matches TypeOwner::Interface(i) ==> (
        self.types[t].name matches Some(name) && lookup(self.interfaces[i as int].types, name)
            == Some(t as usize))
    }

    /// What a world imports or exports.
    pub open spec fn world_items(self, w: int, import: bool) -> ItemList {
        if import {
            self.worlds[w].imports
        } else {
            self.worlds[w].exports
        }
    }

    /// The types that a world imports say that they belong to it, under the same name, and it
    /// exports none. An interface without a name is defined in the document of the world.
    pub open spec fn world_lists(self, w: int) -> bool {
        &&& forall|j: int|
            0 <= j < self.worlds[w].imports.len() ==> match #[trigger] self.worlds[w].imports[j] {
                (name, ItemView::Type(id)) => {
                    &&& self.types[id as int].owner == TypeOwner::World(w as usize)
                    &&& self.types[id as int].name == Some(name)
                },
                (_, ItemView::Interface(id)) => self.interfaces[id as int].name.is_none()
                    ==> self.interfaces[id as int].document == self.worlds[w].document,
                _ => true,
            }
        &&& forall|j: int|
            0 <= j < self.worlds[w].exports.len() ==> match #[trigger] self.worlds[w].exports[j] {
                (_, ItemView::Type(_)) => false,
                (_, ItemView::Interface(id)) => self.interfaces[id as int].name.is_none()
                    ==> self.interfaces[id as int].document == self.worlds[w].document,
                _ => true,
            }
    }

    /// An interface stands at a place of a world.
    pub open spec fn stands_at(self, id: InterfaceId, w: int, import: bool, j: int) -> bool {
        &&& 0 <= w < self.worlds.len()
        &&& 0 <= j < self.world_items(w, import).len()
        &&& self.world_items(w, import)[j].1 == ItemView::Interface(id)
    }

    /// An interface without a name stands at one place only.
    pub open spec fn unnamed_once(self) -> bool {
        forall|id: InterfaceId, v: int, a: bool, i: int, w: int, b: bool, j: int|
            #![trigger self.stands_at(id, v, a, i), self.stands_at(id, w, b, j)]
            self.stands_at(id, v, a, i) && self.stands_at(id, w, b, j) && id
                < self.interfaces.len() && self.interfaces[id as int].name.is_none() ==> v == w && a
                == b && i == j
    }

    /// Every item can be traced back to its package: what an item lists says that it belongs to
    /// that item, and what belongs to an item is listed there.
    pub open spec fn parented(self) -> bool {
        &&& forall|i: int| 0 <= i < self.packages.len() ==> #[trigger] self.package_lists(i)
        &&& forall|i: int|
            0 <= i < self.documents.len() ==> #[trigger] self.document_listed(i)
        &&& forall|i: int| 0 <= i < self.documents.len() ==> #[trigger] self.document_lists(i)
        &&& forall|i: int|
            0 <= i < self.documents.len() ==> #[trigger] self.document_defaults(i)
        &&& forall|i: int|
            0 <= i < self.interfaces.len() ==> #[trigger] self.interface_listed(i)
        &&& forall|i: int| 0 <= i < self.interfaces.len() ==> #[trigger] self.interface_lists(i)
        &&& forall|i: int| 0 <= i < self.worlds.len() ==> #[trigger] self.world_listed(i)
        &&& forall|i: int| 0 <= i < self.worlds.len() ==> #[trigger] self.world_lists(i)
        &&& forall|i: int| 0 <= i < self.types.len() ==> #[trigger] self.type_listed(i)
        &&& self.unnamed_once()
    }
}

impl UnresolvedView {
    /// What a document of the package lists is defined in it, under the same name.
    pub open spec fn document_lists(self, d: int) -> bool {
        &&& forall|j: int|
            0 <= j < self.documents[d].interfaces.len() ==> {
                let (name, id) = #[trigger] self.documents[d].interfaces[j];
                &&& self.foreign_interfaces() <= id
                &&& self.interfaces[id as int].document == d
                &&& self.interfaces[id as int].name == Some(name)
            }
        &&& forall|j: int|
            0 <= j < self.documents[d].worlds.len() ==> {
                let (name, id) = #[trigger] self.documents[d].worlds[j];
                &&& self.worlds[id as int].document == d
                &&& self.worlds[id as int].name == name
            }
        &&& self.documents[d].default_interface matches Some(id) ==> {
            &&& self.foreign_interfaces() <= id
            &&& self.interfaces[id as int].document == d
            &&& self.interfaces[id as int].name.is_some()
        }
        &&& self.documents[d].default_world matches Some(id) ==> self.worlds[id as int].document
            == d
    }

    /// An interface of the package lists types that belong to it, and is listed itself if it has a
    /// name.
    pub open spec fn interface_lists(self, i: int) -> bool {
        let iface = self.interfaces[i];
        &&& iface.name matches Some(name) ==> (lookup(
            self.documents[iface.document as int].interfaces,
            name,
        ) matches Some(id) && id == i)
        &&& forall|j: int|
            0 <= j < iface.types.len() ==> {
                let (name, id) = #[trigger] self.interfaces[i].types[j];
                &&& self.foreign_types() <= id
                &&& self.types[id as int].owner matches TypeOwner::Interface(owner) && owner == i
                &&& self.types[id as int].name == Some(name)
            }
    }

    /// A type of the package that belongs to an interface is listed there.
    pub open spec fn type_listed(self, t: int) -> bool {
        self.types[t].owner matches TypeOwner::Interface(i) ==> {
            &&& self.foreign_interfaces() <= i
            &&& self.types[t].name matches Some(name) && (lookup(
                self.interfaces[i as int].types,
                name,
            ) matches Some(id) && id == t)
        }
    }

    /// What a world imports or exports.
    pub open spec fn world_items(self, w: int, import: bool) -> ItemList {
        if import {
            self.worlds[w].imports
        } else {
            self.worlds[w].exports
        }
    }

    /// A world is listed, imports types that belong to it, and interfaces of the package without a
    /// name that are defined in its document.
    pub open spec fn world_lists(self, w: int) -> bool {
        let world = self.worlds[w];
        &&& self.foreign_documents() <= world.document
        &&& lookup(self.documents[world.document as int].worlds, world.name) matches Some(id) && id
            == w
        &&& forall|j: int|
            0 <= j < world.imports.len() ==> match #[trigger] self.worlds[w].imports[j] {
                (name, ItemView::Type(id)) => {
                    &&& self.foreign_types() <= id
                    &&& self.types[id as int].owner matches TypeOwner::World(owner) && owner == w
                    &&& self.types[id as int].name == Some(name)
                },
                _ => true,
            }
        &&& forall|import: bool, j: int|
            0 <= j < self.world_items(w, import).len() ==> ((
            #[trigger] self.world_items(w, import)[j]).1 matches ItemView::Interface(id)
                ==> self.foreign_interfaces() <= id && self.interfaces[id as int].name.is_none()
                ==> self.interfaces[id as int].document == world.document)
    }

    /// An interface stands at a place of a world.
    pub open spec fn stands_at(self, id: InterfaceId, w: int, import: bool, j: int) -> bool {
        &&& 0 <= w < self.worlds.len()
        &&& 0 <= j < self.world_items(w, import).len()
        &&& self.world_items(w, import)[j].1 == ItemView::Interface(id)
    }

    /// An interface of the package without a name stands at one place only.
    pub open spec fn unnamed_once(self) -> bool {
        forall|id: InterfaceId, v: int, a: bool, i: int, w: int, b: bool, j: int|
            #![trigger self.stands_at(id, v, a, i), self.stands_at(id, w, b, j)]
            self.stands_at(id, v, a, i) && self.stands_at(id, w, b, j) && self.foreign_interfaces()
                <= id && self.interfaces[id as int].name.is_none() ==> v == w && a == b && i == j
    }

    /// Every item of the package can be traced back to it.
    pub open spec fn parented(self) -> bool {
        &&& forall|i: int|
            self.foreign_documents() <= i < self.documents.len()
                ==> #[trigger] self.document_lists(i)
        &&& forall|i: int|
            self.foreign_interfaces() <= i < self.interfaces.len()
                ==> #[trigger] self.interface_lists(i)
        &&& forall|i: int|
            self.foreign_types() <= i < self.types.len() ==> #[trigger] self.type_listed(i)
        &&& forall|i: int| 0 <= i < self.worlds.len() ==> #[trigger] self.world_lists(i)
        &&& self.unnamed_once()
    }
}

/// A name that stands at a position of a list is found there.
pub proof fn lemma_lookup_at<V>(entries: Seq<(Seq<char>, V)>, j: int)
    requires
        distinct(entries),
        0 <= j < entries.len(),
    ensures
        find(entries, entries[j].0) == Some(j),
        lookup(entries, entries[j].0) == Some(entries[j].1),
{
    lemma_find(entries, entries[j].0);
    if let Some(i) = find(entries, entries[j].0) {
        assert(entries[i].0 == entries[j].0);
    }
}

} // verus!
