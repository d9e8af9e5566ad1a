//! Types all of whose bit patterns are values.
use vstd::pervasive::unreached;
use vstd::prelude::*;

use crate::arena;
use crate::remap::type_within;
use crate::resolve::{Resolve, ResolveView};
use crate::types::{views, KindView, Type, TypeDefKind, TypeDefView, TypeId};

verus! {

/// A measure of types: what a type refers to is of a lower rank.
pub open spec fn rank(ty: Type) -> nat {
    match ty {
        Type::Id(id) => id as nat + 1,
        _ => 0,
    }
}

/// Every bit pattern is a value of a type: a number, or a record or a tuple of nothing but such
/// types.
pub open spec fn all_bits(types: Seq<TypeDefView>, ty: Type) -> bool
    decreases rank(ty),
{
    match ty {
        Type::U8
        | Type::S8
        | Type::U16
        | Type::S16
        | Type::U32
        | Type::S32
        | Type::U64
        | Type::S64
        | Type::Float32
        | Type::Float64 => true,
        Type::Bool | Type::Char | Type::String => false,
        Type::Id(id) => match types[id as int].kind {
            KindView::Type(t) => type_within(t, id as nat) && all_bits(types, t),
            KindView::Record(fields) => forall|i: int|
                0 <= i < fields.len() ==> type_within((#[trigger] fields[i]).1, id as nat)
                    && all_bits(types, fields[i].1),
            KindView::Tuple(parts) => forall|i: int|
                0 <= i < parts.len() ==> type_within(#[trigger] parts[i], id as nat) && all_bits(
                    types,
                    parts[i],
                ),
            _ => false,
        },
    }
}

impl Resolve {
    pub fn all_bits_valid(&self, ty: &Type) -> (valid: bool)
        requires
            self@.types_known(),
            type_within(*ty, self@.types.len()),
        ensures
            valid == all_bits(self@.types, *ty),
        decreases rank(*ty),
    {
        match ty {
            Type::U8
            | Type::S8
            | Type::U16
            | Type::S16
            | Type::U32
            | Type::S32
            | Type::U64
            | Type::S64
            | Type::Float32
            | Type::Float64 => true,
            Type::Bool | Type::Char | Type::String => false,
            Type::Id(id) => {
                let def = arena::item(&self.types, *id);
                assert(def@ == self@.types[*id as int]);
                assert(self@.type_known(*id as int));
                match &def.kind {
                    TypeDefKind::Type(t) => self.all_bits_valid(t),
                    TypeDefKind::Record(r) => {
                        let ghost fields = views(r.fields@);
                        for i in 0..r.fields.len()
                            invariant
                                self@.types_known(),
                                *ty == Type::Id(*id),
                                *id < self@.types.len(),
                                self@.types[*id as int].kind == KindView::Record(fields),
                                fields == views(r.fields@),
                                self@.type_known(*id as int),
                                forall|j: int|
                                    0 <= j < i ==> all_bits(
                                        self@.types,
                                        (#[trigger] fields[j]).1,
                                    ),
                        {
                            assert(fields[i as int].1 == r.fields@[i as int].ty);
                            if !self.all_bits_valid(&r.fields[i].ty) {
                                return false;
                            }
                        }
                        true
                    },
                    TypeDefKind::Tuple(t) => {
                        for i in 0..t.types.len()
                            invariant
                                self@.types_known(),
                                *ty == Type::Id(*id),
                                *id < self@.types.len(),
                                self@.types[*id as int].kind == KindView::Tuple(t.types@),
                                self@.type_known(*id as int),
                                forall|j: int|
                                    0 <= j < i ==> all_bits(self@.types, #[trigger] t.types@[j]),
                        {
                            assert(self@.types[*id as int].kind->Tuple_0 == t.types@);
                            if !self.all_bits_valid(&t.types[i]) {
                                return false;
                            }
                        }
                        true
                    },
                    TypeDefKind::Flags(_)
                    | TypeDefKind::List(_)
                    | TypeDefKind::Variant(_)
                    | TypeDefKind::Enum(_)
                    | TypeDefKind::Option(_)
                    | TypeDefKind::Result(_)
                    | TypeDefKind::Future(_)
                    | TypeDefKind::Stream(_)
                    | TypeDefKind::Union(_) => false,
                    TypeDefKind::Unknown => unreached(),
                }
            },
        }
    }
}

/// Whether every bit pattern is a value of a type does not depend on types that stand behind it.
pub proof fn later_types_do_not_matter(
    types: Seq<TypeDefView>,
    more: Seq<TypeDefView>,
    ty: Type,
)
    requires
        types.is_prefix_of(more),
        type_within(ty, types.len()),
    ensures
        all_bits(types, ty) == all_bits(more, ty),
    decreases rank(ty),
{
    if let Type::Id(id) = ty {
        assert(types[id as int] == more[id as int]);
        match types[id as int].kind {
            KindView::Type(t) => {
                if type_within(t, id as nat) {
                    later_types_do_not_matter(types, more, t);
                }
            },
            KindView::Record(fields) => {
                assert forall|i: int|
                    0 <= i < fields.len() && type_within(
                        (#[trigger] fields[i]).1,
                        id as nat,
                    ) implies all_bits(types, fields[i].1) == all_bits(more, fields[i].1) by {
                    later_types_do_not_matter(types, more, fields[i].1);
                }
            },
            KindView::Tuple(parts) => {
                assert forall|i: int|
                    0 <= i < parts.len() && type_within(
                        #[trigger] parts[i],
                        id as nat,
                    ) implies all_bits(types, parts[i]) == all_bits(more, parts[i]) by {
                    later_types_do_not_matter(types, more, parts[i]);
                }
            },
            _ => {},
        }
    }
}

/// Every bit pattern is a value of any number, and none of the other types that are built in has
/// that property. Another name for a type has it if and only if the type does. A record has it if
/// and only if all of its fields do, and a tuple if and only if all of its parts do. No other type
/// has it.
pub proof fn numbers_and_what_is_made_of_them_have_all_bits(resolve: ResolveView, id: TypeId)
    requires
        resolve.types_known(),
        id < resolve.types.len(),
    ensures
        forall|ty: Type|
            !(ty is Id) ==> (#[trigger] all_bits(resolve.types, ty) <==> !(ty is Bool || ty is Char
                || ty is String)),
        match resolve.types[id as int].kind {
            KindView::Type(ty) => all_bits(resolve.types, Type::Id(id)) == all_bits(
                resolve.types,
                ty,
            ),
            KindView::Record(fields) => all_bits(resolve.types, Type::Id(id)) <==> forall|i: int|
                0 <= i < fields.len() ==> all_bits(resolve.types, (#[trigger] fields[i]).1),
            KindView::Tuple(parts) => all_bits(resolve.types, Type::Id(id)) <==> forall|i: int|
                0 <= i < parts.len() ==> all_bits(resolve.types, #[trigger] parts[i]),
            _ => !all_bits(resolve.types, Type::Id(id)),
        },
{
    assert(resolve.type_known(id as int));
    match resolve.types[id as int].kind {
        KindView::Record(fields) => {
            assert forall|i: int| 0 <= i < fields.len() implies type_within(
                (#[trigger] fields[i]).1,
                id as nat,
            ) by {}
        },
        KindView::Tuple(parts) => {
            assert forall|i: int| 0 <= i < parts.len() implies type_within(
                #[trigger] parts[i],
                id as nat,
            ) by {}
        },
        _ => {},
    }
}

} // verus!
