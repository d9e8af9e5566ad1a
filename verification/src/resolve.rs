//! Resolved sets of packages.
use id_arena::Arena;
use vstd::prelude::*;

use crate::arena::{self, Items};
use crate::names::distinct;
use crate::remap::{functions_within, ids_within, items_within, kind_within};
use crate::types::{
    views, Document, DocumentView, Interface, InterfaceView, KindView, Package, PackageView,
    TypeDef, TypeDefView, TypeOwner, World, WorldView,
};

verus! {

/// Representation of a fully resolved set of WIT packages.
///
/// This structure contains a graph of WIT packages and all of their contents merged together into
/// the contained arenas. All items are sorted topologically and everything here is fully resolved,
/// so with a `Resolve` no name lookups are necessary and instead everything is index-based.
///
/// Working with a WIT package requires inserting it into a `Resolve` to ensure that all of its
/// dependencies are satisfied. This will give the full picture of that package's types and such.
///
/// Each item in a `Resolve` has a parent link to trace it back to the original package as
/// necessary.
pub struct Resolve {
    pub worlds: Arena<World>,
    pub interfaces: Arena<Interface>,
    pub types: Arena<TypeDef>,
    pub documents: Arena<Document>,
    pub packages: Arena<Package>,
}

/// View of a [`Resolve`].
#[verifier::ext_equal]
pub struct ResolveView {
    pub worlds: Seq<WorldView>,
    pub interfaces: Seq<InterfaceView>,
    pub types: Seq<TypeDefView>,
    pub documents: Seq<DocumentView>,
    pub packages: Seq<PackageView>,
}

impl View for Resolve {
    type V = ResolveView;

    open spec fn view(&self) -> ResolveView {
        ResolveView {
            worlds: views(self.worlds.items()),
            interfaces: views(self.interfaces.items()),
            types: views(self.types.items()),
            documents: views(self.documents.items()),
            packages: views(self.packages.items()),
        }
    }
}

pub open spec fn owner_within(owner: TypeOwner, interfaces: nat, worlds: nat) -> bool {
    match owner {
        TypeOwner::Interface(id) => id < interfaces,
        TypeOwner::World(id) => id < worlds,
        TypeOwner::Unowned => true,
    }
}

/// What an interface holds is there, and its names are different.
pub open spec fn interface_holds(iface: InterfaceView, types: nat) -> bool {
    &&& ids_within(iface.types, types)
    &&& functions_within(iface.functions, types)
    &&& distinct(iface.types)
    &&& distinct(iface.functions)
}

pub open spec fn interface_within(iface: InterfaceView, types: nat, documents: nat) -> bool {
    &&& interface_holds(iface, types)
    &&& iface.document < documents
}

/// What a world imports and exports is there, under different names.
pub open spec fn world_holds(world: WorldView, interfaces: nat, types: nat) -> bool {
    &&& items_within(world.imports, interfaces, types)
    &&& items_within(world.exports, interfaces, types)
    &&& distinct(world.imports)
    &&& distinct(world.exports)
}

pub open spec fn world_within(
    world: WorldView,
    interfaces: nat,
    types: nat,
    documents: nat,
) -> bool {
    &&& world_holds(world, interfaces, types)
    &&& world.document < documents
}

pub open spec fn document_within(doc: DocumentView, interfaces: nat, worlds: nat) -> bool {
    &&& ids_within(doc.interfaces, interfaces)
    &&& ids_within(doc.worlds, worlds)
    &&& doc.default_interface matches Some(id) ==> id < interfaces
    &&& doc.default_world matches Some(id) ==> id < worlds
    &&& distinct(doc.interfaces)
    &&& distinct(doc.worlds)
}

impl ResolveView {
    /// The type at position `i` is known, and refers to types that stand before it only.
    pub open spec fn type_known(self, i: int) -> bool {
        &&& self.types[i].kind != KindView::Unknown
        &&& kind_within(self.types[i].kind, i as nat)
    }

    /// All types are known, and they are sorted topologically.
    pub open spec fn types_known(self) -> bool {
        forall|i: int| 0 <= i < self.types.len() ==> #[trigger] self.type_known(i)
    }

    pub open spec fn type_valid(self, i: int) -> bool {
        &&& self.type_known(i)
        &&& owner_within(self.types[i].owner, self.interfaces.len(), self.worlds.len())
    }

    /// The type at position `i` is known, refers to types that stand before it only, and is not of
    /// an interface that is not there.
    pub open spec fn type_usable(self, i: int) -> bool {
        &&& self.type_known(i)
        &&& self.types[i].owner matches TypeOwner::Interface(id) ==> id < self.interfaces.len()
    }

    pub open spec fn interface_usable(self, i: int) -> bool {
        interface_holds(self.interfaces[i], self.types.len())
    }

    pub open spec fn world_usable(self, i: int) -> bool {
        world_holds(self.worlds[i], self.interfaces.len(), self.types.len())
    }

    pub open spec fn interface_valid(self, i: int) -> bool {
        interface_within(self.interfaces[i], self.types.len(), self.documents.len())
    }

    pub open spec fn world_valid(self, i: int) -> bool {
        world_within(
            self.worlds[i],
            self.interfaces.len(),
            self.types.len(),
            self.documents.len(),
        )
    }

    pub open spec fn document_valid(self, i: int) -> bool {
        &&& document_within(self.documents[i], self.interfaces.len(), self.worlds.len())
        &&& self.documents[i].package matches Some(id) ==> id < self.packages.len()
    }

    pub open spec fn package_valid(self, i: int) -> bool {
        &&& ids_within(self.packages[i].documents, self.documents.len())
        &&& distinct(self.packages[i].documents)
    }

    /// Every item has a position.
    pub open spec fn fits(self) -> bool {
        &&& self.types.len() <= usize::MAX
        &&& self.interfaces.len() <= usize::MAX
        &&& self.worlds.len() <= usize::MAX
        &&& self.documents.len() <= usize::MAX
        &&& self.packages.len() <= usize::MAX
    }

    /// Every item refers to items that are there, and types are sorted topologically. The document
    /// that an interface or a world says that it is defined in may be missing, and so may the world
    /// that a type says that it belongs to.
    pub open spec fn usable(self) -> bool {
        &&& self.fits()
        &&& forall|i: int| 0 <= i < self.types.len() ==> #[trigger] self.type_usable(i)
        &&& forall|i: int| 0 <= i < self.interfaces.len() ==> #[trigger] self.interface_usable(i)
        &&& forall|i: int| 0 <= i < self.worlds.len() ==> #[trigger] self.world_usable(i)
        &&& forall|i: int| 0 <= i < self.documents.len() ==> #[trigger] self.document_valid(i)
        &&& forall|i: int| 0 <= i < self.packages.len() ==> #[trigger] self.package_valid(i)
    }

    /// Every reference is to an item that is there, and types are sorted topologically.
    pub open spec fn valid(self) -> bool {
        &&& self.usable()
        &&& forall|i: int| 0 <= i < self.types.len() ==> #[trigger] self.type_valid(i)
        &&& forall|i: int| 0 <= i < self.interfaces.len() ==> #[trigger] self.interface_valid(i)
        &&& forall|i: int| 0 <= i < self.worlds.len() ==> #[trigger] self.world_valid(i)
    }
}

/// The types of a resolve that is usable are known.
pub proof fn usable_types_are_known(resolve: ResolveView)
    requires
        resolve.usable(),
    ensures
        resolve.types_known(),
{
    assert forall|i: int| 0 <= i < resolve.types.len() implies #[trigger] resolve.type_known(i) by {
        assert(resolve.type_usable(i));
    }
}

impl Resolve {
    /// Creates a new [`Resolve`] with no packages/items inside of it.
    pub fn new() -> (resolve: Resolve)
        ensures
            resolve@ == (ResolveView {
                worlds: Seq::empty(),
                interfaces: Seq::empty(),
                types: Seq::empty(),
                documents: Seq::empty(),
                packages: Seq::empty(),
            }),
            resolve@.valid(),
            resolve@.parented(),
    {
        let resolve = Resolve {
            worlds: arena::new_worlds(),
            interfaces: arena::new_interfaces(),
            types: arena::new_types(),
            documents: arena::new_documents(),
            packages: arena::new_packages(),
        };
        assert(resolve@ =~= ResolveView {
            worlds: Seq::empty(),
            interfaces: Seq::empty(),
            types: Seq::empty(),
            documents: Seq::empty(),
            packages: Seq::empty(),
        });
        resolve
    }
}

impl Default for Resolve {
    fn default() -> (resolve: Resolve)
        ensures
            resolve@ == (ResolveView {
                worlds: Seq::empty(),
                interfaces: Seq::empty(),
                types: Seq::empty(),
                documents: Seq::empty(),
                packages: Seq::empty(),
            }),
            resolve@.valid(),
            resolve@.parented(),
    {
        Resolve::new()
    }
}

} // verus!
