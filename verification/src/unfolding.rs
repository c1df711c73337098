//! Unfolding a recursive type one level.
use std::sync::Arc;

use vstd::pervasive::unreached;
use vstd::prelude::*;

use crate::names::share;
use crate::types::{
    models, open_models, rec_ty, rec_type, share_name, AggregateKind, ArrayType, DefTy, EnumRef, EnumTy, EnumType,
    FieldTy, FunctionType, Open, OpenAggregate, OpenEnum, OpenEnumType, OpenStruct, OpenStructType, OpenType,
    PointerType, RecGroup, RecTypeRef, StructField, StructRef, StructTy, StructType, Ty, Type, Variant, VariantTy,
};

verus! {

// BACK-REFERENCES
// ================================================================================================

/// Every back-reference selects one of `n` definitions.
pub open spec fn vars_below(body: Open, n: nat) -> bool
    decreases body,
{
    match body {
        Open::Closed(_) => true,
        Open::Var(slot) => slot < n,
        Open::Ptr(_, inner) => vars_below(*inner, n),
        Open::Array(inner, _) => vars_below(*inner, n),
        Open::List(inner) => vars_below(*inner, n),
        Open::Function(_, params, results) => {
            &&& forall|i: int| 0 <= i < params.len() ==> vars_below(#[trigger] params[i], n)
            &&& forall|i: int| 0 <= i < results.len() ==> vars_below(#[trigger] results[i], n)
        },
        Open::Struct(body) => forall|i: int|
            0 <= i < body.fields.len() ==> vars_below((#[trigger] body.fields[i]).ty, n),
        Open::Enum(body) => forall|i: int|
            0 <= i < body.variants.len() ==> match (#[trigger] body.variants[i]).value {
                Some(value) => vars_below(value, n),
                None => true,
            },
    }
}

/// The bodies of the definitions refer to definitions of the group, and are what their kind says.
pub open spec fn well_bound(defs: Seq<DefTy>) -> bool {
    forall|i: int|
        0 <= i < defs.len() ==> vars_below((#[trigger] defs[i]).body, defs.len()) && match defs[i].kind {
            AggregateKind::Struct => defs[i].body is Struct,
            AggregateKind::Enum => defs[i].body is Enum,
        }
}

// UNFOLDING
// ================================================================================================

/// The closed type that an open one denotes in a group: every back-reference is replaced by the
/// recursive type that it selects.
pub open spec fn unfold(body: Open, defs: Seq<DefTy>) -> Ty
    decreases body,
{
    match body {
        Open::Closed(ty) => ty,
        Open::Var(slot) => rec_ty(defs, slot),
        Open::Ptr(addrspace, inner) => Ty::Ptr(addrspace, Box::new(unfold(*inner, defs))),
        Open::Array(inner, len) => Ty::Array(Box::new(unfold(*inner, defs)), len),
        Open::List(inner) => Ty::List(Box::new(unfold(*inner, defs))),
        Open::Function(abi, params, results) => Ty::Function(
            abi,
            Seq::new(
                params.len(),
                |i: int|
                    if 0 <= i < params.len() {
                        unfold(params[i], defs)
                    } else {
                        arbitrary()
                    },
            ),
            Seq::new(
                results.len(),
                |i: int|
                    if 0 <= i < results.len() {
                        unfold(results[i], defs)
                    } else {
                        arbitrary()
                    },
            ),
        ),
        Open::Struct(body) => Ty::Struct(unfold_struct(body, defs)),
        Open::Enum(body) => Ty::Enum(unfold_enum(body, defs)),
    }
}

/// The struct that an open one denotes in a group. Its layout is kept as it is.
pub open spec fn unfold_struct(body: OpenStruct, defs: Seq<DefTy>) -> StructTy
    decreases body,
{
    StructTy {
        name: body.name,
        repr: body.repr,
        size: body.size,
        fields: Seq::new(
            body.fields.len(),
            |i: int|
                if 0 <= i < body.fields.len() {
                    FieldTy {
                        name: body.fields[i].name,
                        index: body.fields[i].index,
                        align: body.fields[i].align,
                        offset: body.fields[i].offset,
                        ty: unfold(body.fields[i].ty, defs),
                    }
                } else {
                    arbitrary()
                },
        ),
    }
}

/// The enum that an open one denotes in a group. Its layout is kept as it is.
pub open spec fn unfold_enum(body: OpenEnum, defs: Seq<DefTy>) -> EnumTy
    decreases body,
{
    EnumTy {
        name: body.name,
        discriminant: body.discriminant,
        variants: Seq::new(
            body.variants.len(),
            |i: int|
                if 0 <= i < body.variants.len() {
                    VariantTy {
                        name: body.variants[i].name,
                        value: match body.variants[i].value {
                            Some(value) => Some(unfold(value, defs)),
                            None => None,
                        },
                        discriminant_value: body.variants[i].discriminant_value,
                    }
                } else {
                    arbitrary()
                },
        ),
        offsets: body.offsets,
        size: body.size,
        align: body.align,
    }
}

impl OpenType {
    /// Substitutes every back-reference with a completed recursive type.
    pub(crate) fn close(&self, group: &Arc<RecGroup>) -> (ty: Type)
        requires
            vars_below(self.model(), group.model().len()),
        ensures
            ty.model() == unfold(self.model(), group.model()),
        decreases self, 0nat,
    {
        match self {
            OpenType::Closed(ty) => ty.clone(),
            OpenType::Var(index) => rec_type(share(group), *index),
            OpenType::Ptr(addrspace, pointee) => Type::Ptr(
                Arc::new(PointerType { addrspace: *addrspace, pointee: pointee.close(group) }),
            ),
            OpenType::Array(element, len) => Type::Array(Arc::new(ArrayType { ty: element.close(group), len: *len })),
            OpenType::List(element) => Type::List(Arc::new(element.close(group))),
            OpenType::Function(function) => {
                proof {
                    assert(self.model()->Function_1 =~= open_models(function.params@));
                    assert(self.model()->Function_2 =~= open_models(function.results@));
                }
                let params = close_list(&function.params, group);
                let results = close_list(&function.results, group);
                let ghost (p, r) = (models(params@), models(results@));
                let ty = Type::Function(Arc::new(FunctionType { abi: function.abi, params, results }));
                proof {
                    assert(ty.model()->Function_1 =~= p);
                    assert(ty.model()->Function_2 =~= r);
                    let expected = unfold(self.model(), group.model());
                    assert(expected->Function_1 =~= p);
                    assert(expected->Function_2 =~= r);
                }
                ty
            },
            OpenType::Struct(body) => Type::Struct(StructRef::Plain(Arc::new(body.close(group)))),
            OpenType::Enum(body) => Type::Enum(EnumRef::Plain(Arc::new(body.close(group)))),
        }
    }
}

fn close_list(opens: &Vec<OpenType>, group: &Arc<RecGroup>) -> (tys: Vec<Type>)
    requires
        forall|i: int|
            0 <= i < opens@.len() ==> vars_below(#[trigger] open_models(opens@)[i], group.model().len()),
    ensures
        models(tys@) == Seq::new(opens@.len(), |i: int| unfold(open_models(opens@)[i], group.model())),
    decreases opens, 0nat,
{
    let ghost all = open_models(opens@);
    let mut tys: Vec<Type> = Vec::new();
    let mut i: usize = 0;
    while i < opens.len()
        invariant
            i <= opens@.len(),
            all == open_models(opens@),
            forall|k: int| 0 <= k < all.len() ==> vars_below(#[trigger] all[k], group.model().len()),
            tys@.len() == i,
            forall|k: int| 0 <= k < i ==> (#[trigger] tys@[k]).model() == unfold(all[k], group.model()),
        decreases opens@.len() - i,
    {
        proof {
            assert(decreases_to!(*opens => opens@[i as int]));
            assert(vars_below(all[i as int], group.model().len()));
        }
        tys.push(opens[i].close(group));
        i += 1;
    }
    assert(models(tys@) =~= Seq::new(all.len(), |k: int| unfold(all[k], group.model())));
    tys
}

impl OpenStructType {
    /// Rebuilds this body as a real struct, reusing the stored layout rather than recomputing it.
    pub(crate) fn close(&self, group: &Arc<RecGroup>) -> (body: StructType)
        requires
            vars_below(Open::Struct(self.model()), group.model().len()),
        ensures
            body.model() == unfold_struct(self.model(), group.model()),
        decreases self, 0nat,
    {
        let ghost all = self.model().fields;
        let ghost expected = unfold_struct(self.model(), group.model()).fields;
        let mut fields: Vec<StructField> = Vec::new();
        let mut i: usize = 0;
        while i < self.fields.len()
            invariant
                i <= self.fields@.len(),
                all == self.model().fields,
                expected == unfold_struct(self.model(), group.model()).fields,
                forall|k: int| 0 <= k < all.len() ==> vars_below((#[trigger] all[k]).ty, group.model().len()),
                fields@.len() == i,
                forall|k: int| 0 <= k < i ==> (#[trigger] fields@[k]).model() == expected[k],
            decreases self.fields@.len() - i,
        {
            let field = &self.fields[i];
            proof {
                assert(decreases_to!(self.fields => self.fields@[i as int]));
                assert(all[i as int] == field.model());
            }
            fields.push(
                StructField {
                    name: share_name(&field.name),
                    index: field.index,
                    align: field.align,
                    offset: field.offset,
                    ty: field.ty.close(group),
                },
            );
            i += 1;
        }
        let body = StructType { name: share_name(&self.name), repr: self.repr, size: self.size, fields };
        assert(body.model().fields =~= expected);
        body
    }
}

impl OpenEnumType {
    /// Rebuilds this body as a real enum, reusing the stored layout rather than recomputing it.
    pub(crate) fn close(&self, group: &Arc<RecGroup>) -> (body: EnumType)
        requires
            vars_below(Open::Enum(self.model()), group.model().len()),
        ensures
            body.model() == unfold_enum(self.model(), group.model()),
        decreases self, 0nat,
    {
        let ghost all = self.model().variants;
        let ghost expected = unfold_enum(self.model(), group.model()).variants;
        let mut variants: Vec<Variant> = Vec::new();
        let mut i: usize = 0;
        while i < self.variants.len()
            invariant
                i <= self.variants@.len(),
                all == self.model().variants,
                expected == unfold_enum(self.model(), group.model()).variants,
                forall|k: int|
                    0 <= k < all.len() ==> match (#[trigger] all[k]).value {
                        Some(value) => vars_below(value, group.model().len()),
                        None => true,
                    },
                variants@.len() == i,
                forall|k: int| 0 <= k < i ==> (#[trigger] variants@[k]).model() == expected[k],
            decreases self.variants@.len() - i,
        {
            let variant = &self.variants[i];
            proof {
                assert(decreases_to!(self.variants => self.variants@[i as int]));
                assert(all[i as int] == variant.model());
            }
            let value = match &variant.value {
                Some(value) => Some(value.close(group)),
                None => None,
            };
            variants.push(
                Variant { name: share(&variant.name), value, discriminant_value: variant.discriminant_value },
            );
            i += 1;
        }
        let mut offsets: Vec<u32> = Vec::new();
        let mut j: usize = 0;
        while j < self.offsets.len()
            invariant
                j <= self.offsets@.len(),
                offsets@ == self.offsets@.take(j as int),
            decreases self.offsets@.len() - j,
        {
            offsets.push(self.offsets[j]);
            j += 1;
            assert(self.offsets@.take(j as int) =~= self.offsets@.take(j - 1).push(self.offsets@[j - 1]));
        }
        assert(self.offsets@.take(j as int) =~= self.offsets@);
        let body = EnumType {
            name: share(&self.name),
            discriminant: self.discriminant.clone(),
            variants,
            offsets,
            size: self.size,
            align: self.align,
        };
        assert(body.model().variants =~= expected);
        body
    }
}

/// The definition that a reference selects.
pub open spec fn selected(reference: RecTypeRef) -> DefTy {
    reference.defs()[reference.slot() as int]
}

impl RecTypeRef {
    /// Unfolds this reference one level into the struct it denotes.
    pub(crate) fn unfold_struct(&self) -> (body: StructType)
        requires
            selected(*self).kind is Struct,
        ensures
            body.model() == unfold_struct(selected(*self).body->Struct_0, self.defs()),
    {
        let def = self.def();
        match &def.body {
            OpenAggregate::Struct(body) => body.close(self.group()),
            OpenAggregate::Enum(_) => unreached(),
        }
    }

    /// Unfolds this reference one level into the enum it denotes.
    pub(crate) fn unfold_enum(&self) -> (body: EnumType)
        requires
            selected(*self).kind is Enum,
        ensures
            body.model() == unfold_enum(selected(*self).body->Enum_0, self.defs()),
    {
        let def = self.def();
        match &def.body {
            OpenAggregate::Enum(body) => body.close(self.group()),
            OpenAggregate::Struct(_) => unreached(),
        }
    }
}

/// The struct that a reference denotes, one level deep.
pub open spec fn struct_of(reference: StructRef) -> StructTy {
    match reference {
        StructRef::Plain(body) => body.model(),
        StructRef::Rec(reference) => unfold_struct(selected(reference).body->Struct_0, reference.defs()),
    }
}

/// The enum that a reference denotes, one level deep.
pub open spec fn enum_of(reference: EnumRef) -> EnumTy {
    match reference {
        EnumRef::Plain(body) => body.model(),
        EnumRef::Rec(reference) => unfold_enum(selected(reference).body->Enum_0, reference.defs()),
    }
}

impl StructRef {
    /// A recursive reference selects a struct.
    pub open spec fn wf(self) -> bool {
        self matches StructRef::Rec(reference) ==> selected(reference).kind is Struct
    }

    /// The definition of this struct. For a recursive one it is the unfolding of the definition
    /// by one level, of which every field type is an ordinary, closed type.
    pub fn get(&self) -> (body: Arc<StructType>)
        requires
            self.wf(),
        ensures
            body.model() == struct_of(*self),
    {
        match self {
            StructRef::Plain(body) => share(body),
            StructRef::Rec(reference) => Arc::new(reference.unfold_struct()),
        }
    }
}

impl EnumRef {
    /// A recursive reference selects an enum.
    pub open spec fn wf(self) -> bool {
        self matches EnumRef::Rec(reference) ==> selected(reference).kind is Enum
    }

    /// The definition of this enum. For a recursive one it is the unfolding of the definition by
    /// one level, of which every payload type is an ordinary, closed type.
    pub fn get(&self) -> (body: Arc<EnumType>)
        requires
            self.wf(),
        ensures
            body.model() == enum_of(*self),
    {
        match self {
            EnumRef::Plain(body) => share(body),
            EnumRef::Rec(reference) => Arc::new(reference.unfold_enum()),
        }
    }
}

} // verus!
