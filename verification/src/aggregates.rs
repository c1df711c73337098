//! Construction of structs and enums, with their layout.
use std::sync::Arc;

use vstd::prelude::*;

use crate::layout::{
    align_of, align_up, bits_of, bytes_of, check_alignment, is_alignment, largest, padded_size, struct_align,
};
use crate::names::{same_text, share};
use crate::types::{
    numbers, optional_text, share_name, variant_models, EnumTy, EnumType, FieldTy, Scalar, StructField, StructTy,
    StructType, Ty, Type, TypeRepr, Variant, VariantTy,
};

verus! {

// STRUCTS
// ================================================================================================

/// A type that may have a name.
#[derive(Debug, Clone)]
pub struct NameAndType {
    pub name: Option<Arc<str>>,
    pub ty: Type,
}

/// What a [`NameAndType`] stands for.
#[verifier::ext_equal]
pub struct PartTy {
    pub name: Option<Seq<char>>,
    pub ty: Ty,
}

impl NameAndType {
    pub open spec fn model(self) -> PartTy {
        PartTy { name: optional_text(self.name), ty: self.ty.model() }
    }
}

/// What a list of parts stands for.
pub open spec fn part_models(parts: Seq<NameAndType>) -> Seq<PartTy> {
    Seq::new(parts.len(), |i: int| parts[i].model())
}

/// The alignments that a representation names are powers of two.
pub open spec fn repr_valid(repr: TypeRepr) -> bool {
    match repr {
        TypeRepr::Align(align) => is_alignment(align as nat),
        TypeRepr::Packed(align) => is_alignment(align as nat),
        _ => true,
    }
}

/// The alignment of a field of type `ty`.
pub open spec fn field_align(repr: TypeRepr, ty: Ty) -> nat {
    match repr {
        TypeRepr::Transparent => if bytes_of(ty) == 0 {
            1
        } else {
            align_of(ty)
        },
        TypeRepr::Packed(align) => if (align as nat) < align_of(ty) {
            align as nat
        } else {
            align_of(ty)
        },
        _ => align_of(ty),
    }
}

/// Where the `i`-th field starts: at its alignment, behind the fields before it.
pub open spec fn field_offset(repr: TypeRepr, parts: Seq<PartTy>, i: nat) -> nat
    decreases i, 1nat,
{
    match repr {
        TypeRepr::Transparent => fields_end(repr, parts, i),
        _ => align_up(fields_end(repr, parts, i), field_align(repr, parts[i as int].ty)),
    }
}

/// Where the first `n` fields end.
pub open spec fn fields_end(repr: TypeRepr, parts: Seq<PartTy>, n: nat) -> nat
    decreases n, 0nat,
{
    if n == 0 {
        0
    } else {
        field_offset(repr, parts, (n - 1) as nat) + bytes_of(parts[n - 1].ty)
    }
}

/// The alignments of the types of some parts.
pub open spec fn part_aligns(parts: Seq<PartTy>) -> Seq<nat> {
    parts.map_values(|part: PartTy| align_of(part.ty))
}

/// The alignment that the size of a struct is rounded up to.
pub open spec fn whole_align(repr: TypeRepr, parts: Seq<PartTy>) -> nat {
    let natural = largest(part_aligns(parts));
    match repr {
        TypeRepr::Align(align) => if natural < align as nat {
            align as nat
        } else {
            natural
        },
        TypeRepr::Packed(align) => if (align as nat) < natural {
            align as nat
        } else {
            natural
        },
        _ => natural,
    }
}

/// The size of a struct, including alignment padding.
pub open spec fn struct_size(repr: TypeRepr, parts: Seq<PartTy>) -> nat {
    let end = fields_end(repr, parts, parts.len());
    match repr {
        TypeRepr::Transparent => end,
        _ => align_up(end, whole_align(repr, parts)),
    }
}

/// A struct can be made of the parts: there are at most 255, each has a size and an alignment,
/// a transparent struct has no more than one that takes memory, and the size is in range.
pub open spec fn struct_valid(repr: TypeRepr, parts: Seq<PartTy>) -> bool {
    &&& parts.len() <= 255
    &&& repr_valid(repr)
    &&& forall|i: int|
        0 <= i < parts.len() ==> bits_of((#[trigger] parts[i]).ty) is Some && is_alignment(align_of(parts[i].ty))
    &&& repr is Transparent ==> forall|i: int, j: int|
        0 <= i < j < parts.len() ==> bytes_of((#[trigger] parts[i]).ty) == 0 || bytes_of(
            (#[trigger] parts[j]).ty,
        ) == 0
    &&& struct_size(repr, parts) <= u32::MAX
}

/// The `i`-th field of a struct.
pub open spec fn field_at(repr: TypeRepr, parts: Seq<PartTy>, i: int) -> FieldTy {
    FieldTy {
        name: parts[i].name,
        index: i as nat,
        align: field_align(repr, parts[i].ty),
        offset: field_offset(repr, parts, i as nat),
        ty: parts[i].ty,
    }
}

/// The struct made of the parts, if there is one.
pub open spec fn make_struct(name: Option<Seq<char>>, repr: TypeRepr, parts: Seq<PartTy>) -> Option<StructTy> {
    if struct_valid(repr, parts) {
        Some(
            StructTy {
                name,
                repr,
                size: struct_size(repr, parts),
                fields: Seq::new(parts.len(), |i: int| field_at(repr, parts, i)),
            },
        )
    } else {
        None
    }
}

proof fn align_up_grows(x: nat, a: nat)
    ensures
        align_up(x, a) >= x,
        align_up(x, a) <= x + a,
{
    if a > 0 {
        assert(0 <= x % a < a);
    }
}

proof fn fields_end_grows(repr: TypeRepr, parts: Seq<PartTy>, n: nat, m: nat)
    requires
        n <= m,
    ensures
        fields_end(repr, parts, n) <= fields_end(repr, parts, m),
    decreases m,
{
    if n < m {
        fields_end_grows(repr, parts, n, (m - 1) as nat);
        align_up_grows(fields_end(repr, parts, (m - 1) as nat), field_align(repr, parts[m - 1].ty));
    }
}

fn round_up(x: u64, a: u64) -> (up: u64)
    requires
        x <= u32::MAX,
        a <= u32::MAX,
    ensures
        up == align_up(x as nat, a as nat),
{
    if a == 0 || x % a == 0 {
        x
    } else {
        x + (a - x % a)
    }
}

impl StructType {
    /// A struct with the given name, representation and fields, if they make one.
    pub fn from_parts(name: Option<Arc<str>>, repr: TypeRepr, parts: &Vec<NameAndType>) -> (result: Option<StructType>)
        ensures
            match result {
                Some(body) => make_struct(optional_text(name), repr, part_models(parts@)) == Some(body.model()),
                None => make_struct(optional_text(name), repr, part_models(parts@)) is None,
            },
    {
        let ghost models = part_models(parts@);
        if parts.len() > 255 {
            return None;
        }
        match repr {
            TypeRepr::Align(align) | TypeRepr::Packed(align) => {
                if !check_alignment(align as u64) {
                    return None;
                }
            },
            _ => {},
        }
        let transparent = matches!(repr, TypeRepr::Transparent);
        let mut natural: u64 = 1;
        let mut end: u64 = 0;
        let mut fields: Vec<StructField> = Vec::new();
        let mut i: usize = 0;
        assert(part_aligns(models).take(0) =~= Seq::<nat>::empty());
        while i < parts.len()
            invariant
                i <= parts@.len() <= 255,
                models == part_models(parts@),
                repr_valid(repr),
                transparent == (repr is Transparent),
                end == fields_end(repr, models, i as nat),
                end <= u32::MAX,
                natural == largest(part_aligns(models).take(i as int)),
                natural <= 32768,
                transparent ==> forall|j: int, k: int|
                    0 <= j < k < i ==> bytes_of((#[trigger] models[j]).ty) == 0 || bytes_of(
                        (#[trigger] models[k]).ty,
                    ) == 0,
                forall|j: int|
                    0 <= j < i ==> bits_of((#[trigger] models[j]).ty) is Some && is_alignment(align_of(models[j].ty)),
                fields@.len() == i,
                forall|j: int| 0 <= j < i ==> (#[trigger] fields@[j]).model() == field_at(repr, models, j),
            decreases parts@.len() - i,
        {
            let part = &parts[i];
            assert(models[i as int] == part.model());
            let size: u64 = match part.ty.checked_size() {
                None => {
                    assert(bits_of(models[i as int].ty) is None);
                    return None;
                },
                Some(size) => size,
            };
            let own: u64 = part.ty.min_alignment();
            if !check_alignment(own) {
                assert(!is_alignment(align_of(models[i as int].ty)));
                return None;
            }
            let align: u64 = match repr {
                TypeRepr::Transparent => if size == 0 {
                    1
                } else {
                    own
                },
                TypeRepr::Packed(align) => if (align as u64) < own {
                    align as u64
                } else {
                    own
                },
                _ => own,
            };
            let offset: u64 = if transparent {
                end
            } else {
                round_up(end, align)
            };
            proof {
                align_up_grows(end as nat, align as nat);
            }
            if transparent && size > 0 && end > 0 {
                proof {
                    // Some field before this one takes memory.
                    let k = earlier_field(repr, models, i as nat);
                    assert(bytes_of(models[k].ty) > 0 && bytes_of(models[i as int].ty) > 0);
                }
                return None;
            }
            proof {
                if transparent && size > 0 {
                    assert forall|j: int| 0 <= j < i implies bytes_of((#[trigger] models[j]).ty) == 0 by {
                        fields_end_grows(repr, models, (j + 1) as nat, i as nat);
                    }
                }
                assert(part_aligns(models).take(i + 1).drop_last() =~= part_aligns(models).take(i as int));
                fields_end_grows(repr, models, (i + 1) as nat, models.len());
                align_up_grows(fields_end(repr, models, models.len()), whole_align(repr, models));
                assert(fields_end(repr, models, (i + 1) as nat) == offset + size);
            }
            if offset + size > u32::MAX as u64 {
                return None;
            }
            fields.push(
                StructField {
                    name: share_name(&part.name),
                    index: i as u8,
                    align: align as u16,
                    offset: offset as u32,
                    ty: part.ty.clone(),
                },
            );
            assert(fields@[i as int].model() == field_at(repr, models, i as int));
            if natural < own {
                natural = own;
            }
            end = offset + size;
            i += 1;
        }
        proof {
            assert(part_aligns(models).take(i as int) =~= part_aligns(models));
            align_up_grows(end as nat, whole_align(repr, models));
        }
        let size: u64 = match repr {
            TypeRepr::Transparent => end,
            TypeRepr::Align(align) => round_up(end, if natural < align as u64 { align as u64 } else { natural }),
            TypeRepr::Packed(align) => round_up(end, if (align as u64) < natural { align as u64 } else { natural }),
            TypeRepr::Default => round_up(end, natural),
        };
        if size > u32::MAX as u64 {
            return None;
        }
        let body = StructType { name, repr, size: size as u32, fields };
        proof {
            assert(struct_valid(repr, models));
            assert(body.model().fields =~= Seq::new(models.len(), |j: int| field_at(repr, models, j)));
        }
        Some(body)
    }
}

/// Fields that end behind the start are not all empty.
proof fn earlier_field(repr: TypeRepr, parts: Seq<PartTy>, n: nat) -> (k: int)
    requires
        repr is Transparent,
        fields_end(repr, parts, n) > 0,
    ensures
        0 <= k < n,
        bytes_of(parts[k].ty) > 0,
    decreases n,
{
    if bytes_of(parts[n - 1].ty) > 0 {
        n - 1
    } else {
        earlier_field(repr, parts, (n - 1) as nat)
    }
}

// ENUMS
// ================================================================================================

/// Why an enum cannot be made of its variants.
#[derive(Debug, Clone, PartialEq, Eq)]
pub enum InvalidEnumTypeError {
    /// The discriminant type is not an integer of up to 128 bits.
    InvalidDiscriminantType(Type),
    /// The discriminant value that follows from the preceding variant is out of range.
    InvalidImplicitDiscriminantValue {
        variant: Arc<str>,
        discriminant_ty: Type,
        value_of_preceding_variant: u128,
    },
    /// The discriminant value given is out of range.
    InvalidDiscriminantValue { variant: Arc<str>, discriminant_ty: Type, value: u128 },
    /// The variant is defined twice.
    DuplicateVariant { variant: Arc<str> },
    /// The discriminant value is given for another variant too.
    DuplicateDiscriminantValue { variant: Arc<str>, value: u128 },
}

/// What an [`InvalidEnumTypeError`] stands for.
pub enum EnumFault {
    DiscriminantType(Ty),
    ImplicitValue(Seq<char>, Ty, u128),
    Value(Seq<char>, Ty, u128),
    DuplicateVariant(Seq<char>),
    DuplicateValue(Seq<char>, u128),
}

impl InvalidEnumTypeError {
    pub open spec fn model(self) -> EnumFault {
        match self {
            InvalidEnumTypeError::InvalidDiscriminantType(ty) => EnumFault::DiscriminantType(ty.model()),
            InvalidEnumTypeError::InvalidImplicitDiscriminantValue {
                variant,
                discriminant_ty,
                value_of_preceding_variant,
            } => EnumFault::ImplicitValue((*variant)@, discriminant_ty.model(), value_of_preceding_variant),
            InvalidEnumTypeError::InvalidDiscriminantValue { variant, discriminant_ty, value } => EnumFault::Value(
                (*variant)@,
                discriminant_ty.model(),
                value,
            ),
            InvalidEnumTypeError::DuplicateVariant { variant } => EnumFault::DuplicateVariant((*variant)@),
            InvalidEnumTypeError::DuplicateDiscriminantValue { variant, value } => EnumFault::DuplicateValue(
                (*variant)@,
                value,
            ),
        }
    }
}

/// Why an aggregate cannot be made.
#[derive(Debug, Clone, PartialEq, Eq)]
pub enum InvalidDefinition {
    /// The variants make no enum.
    Enum(InvalidEnumTypeError),
    /// A size, an alignment or the number of fields is out of range, or a transparent struct has
    /// two fields that take memory.
    Layout,
    /// The kind of a definition does not match its computed layout.
    KindMismatch,
    /// A template does not match its computed layout.
    TemplateMismatch,
}

/// What an [`InvalidDefinition`] stands for.
pub enum Fault {
    Enum(EnumFault),
    Layout,
    KindMismatch,
    TemplateMismatch,
}

impl InvalidDefinition {
    pub open spec fn model(self) -> Fault {
        match self {
            InvalidDefinition::Enum(error) => Fault::Enum(error.model()),
            InvalidDefinition::Layout => Fault::Layout,
            InvalidDefinition::KindMismatch => Fault::KindMismatch,
            InvalidDefinition::TemplateMismatch => Fault::TemplateMismatch,
        }
    }
}

/// The largest value that a discriminant of type `ty` can hold, if `ty` can be the type of one.
pub open spec fn discriminant_max(ty: Ty) -> Option<u128> {
    match ty {
        Ty::Scalar(Scalar::I1) => Some(1),
        Ty::Scalar(Scalar::I8) | Ty::Scalar(Scalar::U8) => Some(0xff),
        Ty::Scalar(Scalar::I16) | Ty::Scalar(Scalar::U16) => Some(0xffff),
        Ty::Scalar(Scalar::I32) | Ty::Scalar(Scalar::U32) | Ty::Scalar(Scalar::Felt) => Some(0xffff_ffff),
        Ty::Scalar(Scalar::I64) | Ty::Scalar(Scalar::U64) => Some(0xffff_ffff_ffff_ffff),
        Ty::Scalar(Scalar::I128) | Ty::Scalar(Scalar::U128) => Some(u128::MAX),
        _ => None,
    }
}

/// The variant at `i` is defined again behind it.
pub open spec fn defined_again(variants: Seq<VariantTy>, i: int) -> bool {
    exists|j: int| i < j < variants.len() && (#[trigger] variants[j]).name == variants[i].name
}

/// The first variant, from `i` on, that is defined again.
pub open spec fn duplicate_variant(variants: Seq<VariantTy>, i: nat) -> Option<Seq<char>>
    decreases variants.len() - i,
{
    if i >= variants.len() {
        None
    } else if defined_again(variants, i as int) {
        Some(variants[i as int].name)
    } else {
        duplicate_variant(variants, i + 1)
    }
}

/// `value` is given for a variant other than the one at `i`.
pub open spec fn claimed(variants: Seq<VariantTy>, i: int, value: u128) -> bool {
    exists|j: int| 0 <= j < variants.len() && j != i && (#[trigger] variants[j]).discriminant_value == Some(value)
}

/// The discriminant values of the first `n` variants: those given, and for the others one more than
/// the value before. A value is out of range where the discriminant type cannot hold it.
pub open spec fn discriminants(ty: Ty, variants: Seq<VariantTy>, n: nat) -> Result<Seq<u128>, EnumFault>
    decreases n,
{
    if n == 0 {
        Ok(Seq::empty())
    } else {
        let max = discriminant_max(ty)->0;
        let variant = variants[n - 1];
        match discriminants(ty, variants, (n - 1) as nat) {
            Err(fault) => Err(fault),
            Ok(values) => match variant.discriminant_value {
                Some(value) => if value > max {
                    Err(EnumFault::Value(variant.name, ty, value))
                } else if claimed(variants, n - 1, value) {
                    Err(EnumFault::DuplicateValue(variant.name, value))
                } else {
                    Ok(values.push(value))
                },
                None => {
                    let last = if n == 1 {
                        0
                    } else {
                        values.last()
                    };
                    let value = if n == 1 {
                        0
                    } else {
                        values.last() + 1
                    };
                    if value > max {
                        Err(EnumFault::ImplicitValue(variant.name, ty, last))
                    } else if claimed(variants, n - 1, value as u128) {
                        Err(EnumFault::DuplicateValue(variant.name, value as u128))
                    } else {
                        Ok(values.push(value as u128))
                    }
                },
            },
        }
    }
}

/// A discriminant, with a payload behind it.
pub open spec fn tagged(discriminant: Ty, payload: Ty) -> Option<StructTy> {
    make_struct(
        None,
        TypeRepr::Default,
        seq![PartTy { name: None, ty: discriminant }, PartTy { name: None, ty: payload }],
    )
}

/// Where the payloads of the first `n` variants start.
pub open spec fn payload_offsets(discriminant: Ty, variants: Seq<VariantTy>, n: nat) -> Option<Seq<nat>>
    decreases n,
{
    if n == 0 {
        Some(Seq::empty())
    } else {
        match payload_offsets(discriminant, variants, (n - 1) as nat) {
            None => None,
            Some(offsets) => match variants[n - 1].value {
                None => Some(offsets.push(0)),
                Some(payload) => match tagged(discriminant, payload) {
                    None => None,
                    Some(body) => Some(offsets.push(body.fields[1].offset)),
                },
            },
        }
    }
}

/// The first of the largest payloads of the first `n` variants.
pub open spec fn largest_payload(variants: Seq<VariantTy>, n: nat) -> Option<Ty>
    decreases n,
{
    if n == 0 {
        None
    } else {
        let before = largest_payload(variants, (n - 1) as nat);
        match variants[n - 1].value {
            None => before,
            Some(payload) => match before {
                None => Some(payload),
                Some(large) => if padded_size(payload) > padded_size(large) {
                    Some(payload)
                } else {
                    before
                },
            },
        }
    }
}

/// The size and alignment of an enum: those of its discriminant and largest payload.
pub open spec fn enum_extent(discriminant: Ty, variants: Seq<VariantTy>) -> Option<(nat, nat)> {
    match largest_payload(variants, variants.len()) {
        None => Some((bytes_of(discriminant), align_of(discriminant))),
        Some(payload) => match tagged(discriminant, payload) {
            None => None,
            Some(body) => Some((body.size, struct_align(body))),
        },
    }
}

/// The enum made of the variants, or why there is none.
pub open spec fn make_enum(name: Seq<char>, discriminant: Ty, variants: Seq<VariantTy>) -> Result<EnumTy, Fault> {
    if duplicate_variant(variants, 0) is Some {
        Err(Fault::Enum(EnumFault::DuplicateVariant(duplicate_variant(variants, 0)->0)))
    } else if discriminant_max(discriminant) is None {
        Err(Fault::Enum(EnumFault::DiscriminantType(discriminant)))
    } else if variants.len() == 0 {
        Ok(
            EnumTy {
                name,
                discriminant: Box::new(discriminant),
                variants,
                offsets: Seq::empty(),
                size: 0,
                align: 1,
            },
        )
    } else {
        match discriminants(discriminant, variants, variants.len()) {
            Err(fault) => Err(Fault::Enum(fault)),
            Ok(_) => match payload_offsets(discriminant, variants, variants.len()) {
                None => Err(Fault::Layout),
                Some(offsets) => match enum_extent(discriminant, variants) {
                    None => Err(Fault::Layout),
                    Some((size, align)) => Ok(
                        EnumTy { name, discriminant: Box::new(discriminant), variants, offsets, size, align },
                    ),
                },
            },
        }
    }
}

fn max_discriminant(ty: &Type) -> (max: Option<u128>)
    ensures
        max == discriminant_max(ty.model()),
{
    match ty.scalar() {
        Some(Scalar::I1) => Some(1),
        Some(Scalar::I8) | Some(Scalar::U8) => Some(0xff),
        Some(Scalar::I16) | Some(Scalar::U16) => Some(0xffff),
        Some(Scalar::I32) | Some(Scalar::U32) | Some(Scalar::Felt) => Some(0xffff_ffff),
        Some(Scalar::I64) | Some(Scalar::U64) => Some(0xffff_ffff_ffff_ffff),
        Some(Scalar::I128) | Some(Scalar::U128) => Some(u128::MAX),
        _ => None,
    }
}

fn find_duplicate(variants: &Vec<Variant>) -> (found: Option<usize>)
    ensures
        match found {
            Some(i) => i < variants@.len() && duplicate_variant(variant_models(variants@), 0) == Some(
                (*variants@[i as int].name)@,
            ),
            None => duplicate_variant(variant_models(variants@), 0) is None,
        },
{
    let ghost models = variant_models(variants@);
    let mut i: usize = 0;
    while i < variants.len()
        invariant
            i <= variants@.len(),
            models == variant_models(variants@),
            duplicate_variant(models, 0) == duplicate_variant(models, i as nat),
        decreases variants@.len() - i,
    {
        let mut j: usize = i + 1;
        while j < variants.len()
            invariant
                i < j <= variants@.len(),
                models == variant_models(variants@),
                forall|k: int| i < k < j ==> (#[trigger] models[k]).name != models[i as int].name,
                duplicate_variant(models, 0) == duplicate_variant(models, i as nat),
            decreases variants@.len() - j,
        {
            assert(models[j as int].name == (*variants@[j as int].name)@);
            assert(models[i as int].name == (*variants@[i as int].name)@);
            if same_text(&variants[i].name, &variants[j].name) {
                assert(defined_again(models, i as int));
                return Some(i);
            }
            j += 1;
        }
        assert(!defined_again(models, i as int));
        i += 1;
    }
    None
}

fn is_claimed(variants: &Vec<Variant>, i: usize, value: u128) -> (result: bool)
    ensures
        result == claimed(variant_models(variants@), i as int, value),
{
    let ghost models = variant_models(variants@);
    let mut j: usize = 0;
    while j < variants.len()
        invariant
            j <= variants@.len(),
            models == variant_models(variants@),
            forall|k: int|
                0 <= k < j && k != i ==> (#[trigger] models[k]).discriminant_value != Some(value),
        decreases variants@.len() - j,
    {
        assert(models[j as int].discriminant_value == variants@[j as int].discriminant_value);
        if j != i {
            if let Some(other) = variants[j].discriminant_value {
                if other == value {
                    return true;
                }
            }
        }
        j += 1;
    }
    false
}

/// Checks the discriminant values of the variants.
fn check_discriminants(ty: &Type, max: u128, variants: &Vec<Variant>) -> (result: Result<(), InvalidEnumTypeError>)
    requires
        discriminant_max(ty.model()) == Some(max),
    ensures
        match (result, discriminants(ty.model(), variant_models(variants@), variants@.len())) {
            (Ok(_), Ok(_)) => true,
            (Err(error), Err(fault)) => error.model() == fault,
            _ => false,
        },
{
    let ghost models = variant_models(variants@);
    let mut last: Option<u128> = None;
    let mut i: usize = 0;
    while i < variants.len()
        invariant
            i <= variants@.len(),
            models == variant_models(variants@),
            discriminant_max(ty.model()) == Some(max),
            discriminants(ty.model(), models, i as nat) is Ok,
            discriminants(ty.model(), models, i as nat)->Ok_0.len() == i,
            last == if i == 0 {
                None
            } else {
                Some(discriminants(ty.model(), models, i as nat)->Ok_0.last())
            },
        decreases variants@.len() - i,
    {
        let variant = &variants[i];
        assert(models[i as int] == variant.model());
        proof {
            if discriminants(ty.model(), models, (i + 1) as nat) is Err {
                discriminants_stay_wrong(ty.model(), models, (i + 1) as nat, models.len());
            }
        }
        let value: u128 = match variant.discriminant_value {
            Some(value) => {
                if value > max {
                    return Err(
                        InvalidEnumTypeError::InvalidDiscriminantValue {
                            variant: share(&variant.name),
                            discriminant_ty: ty.clone(),
                            value,
                        },
                    );
                }
                value
            },
            None => {
                let next: Option<u128> = match last {
                    None => Some(0),
                    Some(value) => value.checked_add(1),
                };
                match next {
                    Some(value) if value <= max => value,
                    _ => {
                        return Err(
                            InvalidEnumTypeError::InvalidImplicitDiscriminantValue {
                                variant: share(&variant.name),
                                discriminant_ty: ty.clone(),
                                value_of_preceding_variant: match last {
                                    None => 0,
                                    Some(value) => value,
                                },
                            },
                        );
                    },
                }
            },
        };
        if is_claimed(variants, i, value) {
            return Err(
                InvalidEnumTypeError::DuplicateDiscriminantValue { variant: share(&variant.name), value },
            );
        }
        last = Some(value);
        i += 1;
    }
    Ok(())
}

proof fn discriminants_stay_wrong(ty: Ty, variants: Seq<VariantTy>, n: nat, m: nat)
    requires
        n <= m,
        discriminants(ty, variants, n) is Err,
    ensures
        discriminants(ty, variants, m) == discriminants(ty, variants, n),
    decreases m,
{
    if n < m {
        discriminants_stay_wrong(ty, variants, n, (m - 1) as nat);
    }
}

proof fn payload_offsets_stay_wrong(discriminant: Ty, variants: Seq<VariantTy>, n: nat, m: nat)
    requires
        n <= m,
        payload_offsets(discriminant, variants, n) is None,
    ensures
        payload_offsets(discriminant, variants, m) is None,
    decreases m,
{
    if n < m {
        payload_offsets_stay_wrong(discriminant, variants, n, (m - 1) as nat);
    }
}

/// Lays out a payload behind a discriminant.
fn make_tagged(discriminant: &Type, payload: &Type) -> (body: Option<StructType>)
    ensures
        match body {
            Some(body) => tagged(discriminant.model(), payload.model()) == Some(body.model()),
            None => tagged(discriminant.model(), payload.model()) is None,
        },
{
    let mut parts: Vec<NameAndType> = Vec::new();
    parts.push(NameAndType { name: None, ty: discriminant.clone() });
    parts.push(NameAndType { name: None, ty: payload.clone() });
    assert(part_models(parts@) =~= seq![
        PartTy { name: None, ty: discriminant.model() },
        PartTy { name: None, ty: payload.model() },
    ]);
    StructType::from_parts(None, TypeRepr::Default, &parts)
}

/// The size of a type that can stand in a struct, padded for its alignment.
fn pad(ty: &Type) -> (size: u64)
    requires
        bits_of(ty.model()) is Some,
    ensures
        size == padded_size(ty.model()),
{
    let size: u64 = match ty.checked_size() {
        None => 0,
        Some(size) => size,
    };
    if size == 0 {
        0
    } else {
        size + ty.min_alignment()
    }
}

impl EnumType {
    /// An enum with the given name, discriminant type and variants, if they make one.
    pub fn new(name: Arc<str>, discriminant: Type, variants: Vec<Variant>) -> (result: Result<
        EnumType,
        InvalidDefinition,
    >)
        ensures
            match (result, make_enum((*name)@, discriminant.model(), variant_models(variants@))) {
                (Ok(body), Ok(expected)) => body.model() == expected,
                (Err(error), Err(fault)) => error.model() == fault,
                _ => false,
            },
    {
        let ghost models = variant_models(variants@);
        let ghost tag = discriminant.model();
        if let Some(i) = find_duplicate(&variants) {
            return Err(
                InvalidDefinition::Enum(
                    InvalidEnumTypeError::DuplicateVariant { variant: share(&variants[i].name) },
                ),
            );
        }
        let max: u128 = match max_discriminant(&discriminant) {
            None => {
                return Err(InvalidDefinition::Enum(InvalidEnumTypeError::InvalidDiscriminantType(discriminant)));
            },
            Some(max) => max,
        };
        if variants.len() == 0 {
            let body = EnumType { name, discriminant, variants, offsets: Vec::new(), size: 0, align: 1 };
            assert(body.model().variants =~= models);
            assert(body.model().offsets =~= Seq::<nat>::empty());
            return Ok(body);
        }
        if let Err(error) = check_discriminants(&discriminant, max, &variants) {
            return Err(InvalidDefinition::Enum(error));
        }
        let mut offsets: Vec<u32> = Vec::new();
        let mut large: Option<Type> = None;
        let mut i: usize = 0;
        assert(numbers(offsets@) =~= Seq::<nat>::empty());
        while i < variants.len()
            invariant
                i <= variants@.len(),
                models == variant_models(variants@),
                tag == discriminant.model(),
                models.len() > 0,
                duplicate_variant(models, 0) is None,
                discriminant_max(tag) is Some,
                discriminants(tag, models, models.len()) is Ok,
                payload_offsets(tag, models, i as nat) == Some(numbers(offsets@)),
                match (large, largest_payload(models, i as nat)) {
                    (None, None) => true,
                    (Some(ty), Some(expected)) => ty.model() == expected && bits_of(expected) is Some,
                    _ => false,
                },
            decreases variants@.len() - i,
        {
            assert(models[i as int] == variants@[i as int].model());
            let ghost before = numbers(offsets@);
            match &variants[i].value {
                None => {
                    offsets.push(0);
                    assert(numbers(offsets@) =~= before.push(0));
                },
                Some(payload) => {
                    match make_tagged(&discriminant, payload) {
                        None => {
                            proof {
                                payload_offsets_stay_wrong(tag, models, (i + 1) as nat, models.len());
                            }
                            return Err(InvalidDefinition::Layout);
                        },
                        Some(body) => {
                            proof {
                                let parts = seq![
                                    PartTy { name: None, ty: tag },
                                    PartTy { name: None, ty: payload.model() },
                                ];
                                assert(body.model().fields.len() == 2);
                                assert(body.fields@.len() == 2);
                                assert(bits_of(parts[1].ty) is Some);
                                assert(body.model().fields[1] == body.fields@[1].model());
                            }
                            offsets.push(body.fields[1].offset);
                            assert(numbers(offsets@) =~= before.push(body.model().fields[1].offset));
                        },
                    }
                    large = match large {
                        None => Some(payload.clone()),
                        Some(ty) => if pad(payload) > pad(&ty) {
                            Some(payload.clone())
                        } else {
                            Some(ty)
                        },
                    };
                },
            }
            i += 1;
        }
        let (size, align): (u32, u32) = match large {
            None => {
                let size: u32 = match discriminant.checked_size() {
                    None => 0,
                    Some(size) => size as u32,
                };
                (size, discriminant.min_alignment() as u32)
            },
            Some(payload) => match make_tagged(&discriminant, &payload) {
                None => {
                    return Err(InvalidDefinition::Layout);
                },
                Some(body) => (body.size, body.min_alignment() as u32),
            },
        };
        let body = EnumType { name, discriminant, variants, offsets, size, align };
        assert(body.model().variants =~= models);
        Ok(body)
    }
}

} // verus!
