//! Copies of resolved packages and of what they hold.
use vstd::prelude::*;

use crate::arena;
use crate::names;
use crate::resolve::Resolve;
use crate::types::{
    Case, Document, Enum, Field, Flags, Function, Interface, Package, Param, Record, Results, Tuple,
    TypeDef, TypeDefKind, Union, Variant, World, WorldItem,
};

verus! {

impl Clone for Field {
    fn clone(&self) -> (copy: Self)
        ensures
            copy@ == self@,
    {
        Field { name: self.name.clone(), ty: self.ty }
    }
}

impl Clone for Case {
    fn clone(&self) -> (copy: Self)
        ensures
            copy@ == self@,
    {
        Case { name: self.name.clone(), ty: self.ty }
    }
}

impl Clone for TypeDefKind {
    fn clone(&self) -> (copy: Self)
        ensures
            copy@ == self@,
    {
        let copy = match self {
            TypeDefKind::Record(r) => TypeDefKind::Record(Record { fields: r.fields.clone() }),
            TypeDefKind::Flags(f) => TypeDefKind::Flags(Flags { flags: f.flags.clone() }),
            TypeDefKind::Tuple(t) => TypeDefKind::Tuple(Tuple { types: t.types.clone() }),
            TypeDefKind::Variant(v) => TypeDefKind::Variant(Variant { cases: v.cases.clone() }),
            TypeDefKind::Enum(e) => TypeDefKind::Enum(Enum { cases: e.cases.clone() }),
            TypeDefKind::Option(t) => TypeDefKind::Option(*t),
            TypeDefKind::Result(r) => TypeDefKind::Result(*r),
            TypeDefKind::Union(u) => TypeDefKind::Union(Union { cases: u.cases.clone() }),
            TypeDefKind::List(t) => TypeDefKind::List(*t),
            TypeDefKind::Future(t) => TypeDefKind::Future(*t),
            TypeDefKind::Stream(s) => TypeDefKind::Stream(*s),
            TypeDefKind::Type(t) => TypeDefKind::Type(*t),
            TypeDefKind::Unknown => TypeDefKind::Unknown,
        };
        assert(copy@ =~~= self@);
        copy
    }
}

impl Clone for TypeDef {
    fn clone(&self) -> (copy: Self)
        ensures
            copy@ == self@,
    {
        TypeDef { name: self.name.clone(), kind: self.kind.clone(), owner: self.owner }
    }
}

impl Clone for Param {
    fn clone(&self) -> (copy: Self)
        ensures
            copy@ == self@,
    {
        Param { name: self.name.clone(), ty: self.ty }
    }
}

impl Clone for Results {
    fn clone(&self) -> (copy: Self)
        ensures
            copy@ == self@,
    {
        let copy = match self {
            Results::Named(named) => Results::Named(named.clone()),
            Results::Anon(ty) => Results::Anon(*ty),
        };
        assert(copy@ =~~= self@);
        copy
    }
}

impl Clone for Function {
    fn clone(&self) -> (copy: Self)
        ensures
            copy@ == self@,
    {
        let copy = Function {
            name: self.name.clone(),
            params: self.params.clone(),
            results: self.results.clone(),
        };
        assert(copy@ =~~= self@);
        copy
    }
}

impl Clone for WorldItem {
    fn clone(&self) -> (copy: Self)
        ensures
            copy@ == self@,
    {
        match self {
            WorldItem::Interface(id) => WorldItem::Interface(*id),
            WorldItem::Function(f) => WorldItem::Function(f.clone()),
            WorldItem::Type(id) => WorldItem::Type(*id),
        }
    }
}

impl Clone for Interface {
    fn clone(&self) -> (copy: Self)
        ensures
            copy@ == self@,
    {
        let copy = Interface {
            name: self.name.clone(),
            types: names::copy(&self.types),
            functions: names::copy(&self.functions),
            document: self.document,
        };
        assert(copy@ =~~= self@);
        copy
    }
}

impl Clone for World {
    fn clone(&self) -> (copy: Self)
        ensures
            copy@ == self@,
    {
        let copy = World {
            name: self.name.clone(),
            imports: names::copy(&self.imports),
            exports: names::copy(&self.exports),
            document: self.document,
        };
        assert(copy@ =~~= self@);
        copy
    }
}

impl Clone for Document {
    fn clone(&self) -> (copy: Self)
        ensures
            copy@ == self@,
    {
        let copy = Document {
            name: self.name.clone(),
            interfaces: names::copy(&self.interfaces),
            worlds: names::copy(&self.worlds),
            default_interface: self.default_interface,
            default_world: self.default_world,
            package: self.package,
        };
        assert(copy@ =~~= self@);
        copy
    }
}

impl Clone for Package {
    fn clone(&self) -> (copy: Self)
        ensures
            copy@ == self@,
    {
        let copy = Package {
            name: self.name.clone(),
            url: self.url.clone(),
            documents: names::copy(&self.documents),
        };
        assert(copy@ =~~= self@);
        copy
    }
}

impl Clone for Resolve {
    fn clone(&self) -> (copy: Self)
        ensures
            copy@ == self@,
    {
        let copy = Resolve {
            worlds: arena::copy(&self.worlds),
            interfaces: arena::copy(&self.interfaces),
            types: arena::copy(&self.types),
            documents: arena::copy(&self.documents),
            packages: arena::copy(&self.packages),
        };
        assert(copy@ =~~= self@);
        copy
    }
}

} // verus!
