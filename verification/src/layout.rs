//! Sizes and alignments, and the layout of structs and enums.

use vstd::prelude::*;

use crate::types::{EnumRef, EnumType, FieldTy, Scalar, StructRef, StructTy, StructType, Ty, Type, TypeLayout, TypeRepr};

verus! {

// ALIGNMENT
// ================================================================================================

/// Alignments are powers of two of sixteen bits.
pub open spec fn is_alignment(a: nat) -> bool {
    a == 1 || a == 2 || a == 4 || a == 8 || a == 16 || a == 32 || a == 64 || a == 128 || a == 256 || a == 512 || a
        == 1024 || a == 2048 || a == 4096 || a == 8192 || a == 16384 || a == 32768
}

/// The least multiple of `a` that is not below `x`.
pub open spec fn align_up(x: nat, a: nat) -> nat {
    if a == 0 || x % a == 0 {
        x
    } else {
        (x + (a - x % a)) as nat
    }
}

/// The largest of some alignments, or 1 where there is none.
pub open spec fn largest(aligns: Seq<nat>) -> nat
    decreases aligns.len(),
{
    if aligns.len() == 0 {
        1
    } else {
        let rest = largest(aligns.drop_last());
        if rest < aligns.last() {
            aligns.last()
        } else {
            rest
        }
    }
}

pub open spec fn scalar_align(scalar: Scalar) -> nat {
    match scalar {
        Scalar::Unknown | Scalar::Never | Scalar::Variadic => 1,
        Scalar::I1 | Scalar::I8 | Scalar::U8 => 1,
        Scalar::I16 | Scalar::U16 => 2,
        Scalar::I32 | Scalar::U32 | Scalar::Felt => 4,
        Scalar::I64 | Scalar::U64 | Scalar::F64 => 4,
        Scalar::I128 | Scalar::U128 | Scalar::U256 => 16,
    }
}

pub open spec fn scalar_bits(scalar: Scalar) -> nat {
    match scalar {
        Scalar::Unknown | Scalar::Never | Scalar::Variadic => 0,
        Scalar::I1 => 1,
        Scalar::I8 | Scalar::U8 => 8,
        Scalar::I16 | Scalar::U16 => 16,
        Scalar::I32 | Scalar::U32 | Scalar::Felt => 32,
        Scalar::I64 | Scalar::U64 | Scalar::F64 => 64,
        Scalar::I128 | Scalar::U128 => 128,
        Scalar::U256 => 256,
    }
}

/// The alignments of some fields.
pub open spec fn field_aligns(fields: Seq<FieldTy>) -> Seq<nat> {
    fields.map_values(|field: FieldTy| field.align)
}

/// The alignment of a struct: that of its representation, or the largest of its fields.
pub open spec fn struct_align(body: StructTy) -> nat {
    match body.repr {
        TypeRepr::Align(align) => align as nat,
        TypeRepr::Packed(align) => align as nat,
        _ => largest(field_aligns(body.fields)),
    }
}

/// The minimum alignment of a type, in bytes.
pub open spec fn align_of(ty: Ty) -> nat
    decreases ty,
{
    match ty {
        Ty::Scalar(scalar) => scalar_align(scalar),
        Ty::Ptr(_, _) | Ty::List(_) | Ty::Function(_, _, _) => 4,
        Ty::Array(element, _) => align_of(*element),
        Ty::Struct(body) => struct_align(body),
        Ty::Enum(body) => body.align,
        Ty::RecStruct(defs, slot) => defs[slot as int].layout.min_alignment as nat,
        Ty::RecEnum(defs, slot) => defs[slot as int].layout.min_alignment as nat,
    }
}

/// The size of an array in bits, from the size and the alignment of its elements: there is padding
/// between elements, and none behind the last.
pub open spec fn array_bits(bits: nat, align: nat, len: nat) -> nat {
    if len == 0 {
        0
    } else {
        bits + align_up(bits, align * 8) * ((len - 1) as nat)
    }
}

/// The size of a type in bits, without alignment padding. `None` where it is out of range.
pub open spec fn bits_of(ty: Ty) -> Option<nat>
    decreases ty,
{
    match ty {
        Ty::Scalar(scalar) => Some(scalar_bits(scalar)),
        Ty::Ptr(_, _) | Ty::Function(_, _, _) => Some(32),
        Ty::List(_) => Some(64),
        Ty::Struct(body) => Some(body.size * 8),
        Ty::Enum(body) => Some(body.size * 8),
        Ty::RecStruct(defs, slot) => Some(defs[slot as int].layout.size_in_bytes as nat * 8),
        Ty::RecEnum(defs, slot) => Some(defs[slot as int].layout.size_in_bytes as nat * 8),
        Ty::Array(element, len) => if len == 0 {
            Some(0)
        } else {
            match bits_of(*element) {
                None => None,
                Some(bits) => {
                    let all = array_bits(bits, align_of(*element), len);
                    if all <= u64::MAX {
                        Some(all)
                    } else {
                        None
                    }
                },
            }
        },
    }
}

/// The size of a type in bytes, where it is in range.
pub open spec fn bytes_of(ty: Ty) -> nat {
    match bits_of(ty) {
        None => 0,
        Some(bits) => (bits + 7) / 8,
    }
}

/// The type takes no memory and has no alignment to keep.
pub open spec fn is_zero_sized(ty: Ty) -> bool
    decreases ty,
{
    match ty {
        Ty::Scalar(scalar) => scalar is Never,
        Ty::Array(element, len) => len == 0 || is_zero_sized(*element),
        Ty::Struct(body) => forall|i: int|
            0 <= i < body.fields.len() ==> is_zero_sized((#[trigger] body.fields[i]).ty),
        Ty::Enum(body) => body.variants.len() == 0,
        Ty::RecStruct(defs, slot) => defs[slot as int].layout.is_zst,
        Ty::RecEnum(defs, slot) => defs[slot as int].layout.is_zst,
        Ty::Ptr(_, _) | Ty::List(_) | Ty::Function(_, _, _) => false,
    }
}

/// The size of a type in bytes, with enough padding to place a value at its alignment anywhere.
pub open spec fn padded_size(ty: Ty) -> nat {
    if bytes_of(ty) == 0 {
        0
    } else {
        bytes_of(ty) + align_of(ty)
    }
}

/// Whether `a` is an alignment.
pub(crate) fn check_alignment(a: u64) -> (ok: bool)
    ensures
        ok == is_alignment(a as nat),
{
    a == 1 || a == 2 || a == 4 || a == 8 || a == 16 || a == 32 || a == 64 || a == 128 || a == 256 || a == 512 || a
        == 1024 || a == 2048 || a == 4096 || a == 8192 || a == 16384 || a == 32768
}

/// The least multiple of `a` that is not below `x`, if it is in range.
fn checked_align_up(x: u64, a: u64) -> (up: Option<u64>)
    ensures
        match up {
            Some(up) => up == align_up(x as nat, a as nat),
            None => align_up(x as nat, a as nat) > u64::MAX,
        },
{
    if a == 0 || x % a == 0 {
        Some(x)
    } else {
        x.checked_add(a - x % a)
    }
}

impl Scalar {
    /// The alignment of a scalar, in bytes.
    pub fn min_alignment(&self) -> (align: u64)
        ensures
            align == scalar_align(*self),
    {
        match self {
            Scalar::Unknown | Scalar::Never | Scalar::Variadic => 1,
            Scalar::I1 | Scalar::I8 | Scalar::U8 => 1,
            Scalar::I16 | Scalar::U16 => 2,
            Scalar::I32 | Scalar::U32 | Scalar::Felt => 4,
            Scalar::I64 | Scalar::U64 | Scalar::F64 => 4,
            Scalar::I128 | Scalar::U128 | Scalar::U256 => 16,
        }
    }

    /// The size of a scalar, in bits.
    pub fn size_in_bits(&self) -> (bits: u64)
        ensures
            bits == scalar_bits(*self),
    {
        match self {
            Scalar::Unknown | Scalar::Never | Scalar::Variadic => 0,
            Scalar::I1 => 1,
            Scalar::I8 | Scalar::U8 => 8,
            Scalar::I16 | Scalar::U16 => 16,
            Scalar::I32 | Scalar::U32 | Scalar::Felt => 32,
            Scalar::I64 | Scalar::U64 | Scalar::F64 => 64,
            Scalar::I128 | Scalar::U128 => 128,
            Scalar::U256 => 256,
        }
    }
}

impl StructType {
    /// The minimum alignment of this struct, in bytes.
    pub fn min_alignment(&self) -> (align: u64)
        ensures
            align == struct_align(self.model()),
            align <= u16::MAX,
    {
        match self.repr {
            TypeRepr::Align(align) => align as u64,
            TypeRepr::Packed(align) => align as u64,
            _ => {
                let ghost aligns = field_aligns(self.model().fields);
                let mut align: u64 = 1;
                let mut i: usize = 0;
                assert(aligns.take(0) =~= Seq::<nat>::empty());
                while i < self.fields.len()
                    invariant
                        i <= self.fields@.len(),
                        aligns == field_aligns(self.model().fields),
                        align == largest(aligns.take(i as int)),
                        align <= u16::MAX,
                    decreases self.fields@.len() - i,
                {
                    assert(aligns.take(i + 1).drop_last() =~= aligns.take(i as int));
                    assert(self.model().fields[i as int] == self.fields@[i as int].model());
                    let own: u64 = self.fields[i].align as u64;
                    if align < own {
                        align = own;
                    }
                    i += 1;
                }
                assert(aligns.take(i as int) =~= aligns);
                align
            },
        }
    }
}

impl EnumType {
    /// The minimum alignment of this enum, in bytes.
    pub fn min_alignment(&self) -> (align: u64)
        ensures
            align == self.model().align,
            align <= u32::MAX,
    {
        self.align as u64
    }

    /// The size of this enum, in bytes.
    pub fn size(&self) -> (size: u64)
        ensures
            size == self.model().size,
            size <= u32::MAX,
    {
        self.size as u64
    }

    /// Whether this enum has no variant, and so no value.
    pub fn is_phantom(&self) -> (phantom: bool)
        ensures
            phantom == (self.model().variants.len() == 0),
    {
        self.variants.len() == 0
    }
}

impl StructType {
    /// The size of this struct in bytes, including alignment padding.
    pub fn size(&self) -> (size: u64)
        ensures
            size == self.model().size,
            size <= u32::MAX,
    {
        self.size as u64
    }

    /// Whether every field is zero-sized.
    pub fn is_zst(&self) -> (zst: bool)
        ensures
            zst == is_zero_sized(Ty::Struct(self.model())),
        decreases self,
    {
        let ghost fields = self.model().fields;
        let mut i: usize = 0;
        while i < self.fields.len()
            invariant
                i <= self.fields@.len(),
                fields == self.model().fields,
                forall|j: int| 0 <= j < i ==> is_zero_sized((#[trigger] fields[j]).ty),
            decreases self.fields@.len() - i,
        {
            assert(decreases_to!(self.fields => self.fields@[i as int]));
            assert(fields[i as int].ty == self.fields@[i as int].ty.model());
            if !self.fields[i].ty.is_zst() {
                return false;
            }
            i += 1;
        }
        true
    }
}

impl Type {
    /// The minimum alignment of this type, in bytes.
    pub fn min_alignment(&self) -> (align: u64)
        ensures
            align == align_of(self.model()),
            align <= u32::MAX,
        decreases self,
    {
        if let Some(scalar) = self.scalar() {
            return scalar.min_alignment();
        }
        match self {
            Type::Array(array) => array.ty.min_alignment(),
            Type::Struct(StructRef::Plain(body)) => body.min_alignment(),
            Type::Enum(EnumRef::Plain(body)) => body.min_alignment(),
            Type::Struct(StructRef::Rec(reference)) => reference.layout().min_alignment as u64,
            Type::Enum(EnumRef::Rec(reference)) => reference.layout().min_alignment as u64,
            _ => 4,
        }
    }

    /// The size of this type in bits, without alignment padding, if it is in range.
    pub fn size_in_bits(&self) -> (bits: Option<u64>)
        ensures
            match bits {
                Some(bits) => bits_of(self.model()) == Some(bits as nat),
                None => bits_of(self.model()) is None,
            },
        decreases self,
    {
        if let Some(scalar) = self.scalar() {
            return Some(scalar.size_in_bits());
        }
        match self {
            Type::List(_) => Some(64),
            Type::Struct(StructRef::Plain(body)) => Some(body.size() * 8),
            Type::Enum(EnumRef::Plain(body)) => Some(body.size() * 8),
            Type::Struct(StructRef::Rec(reference)) => Some(reference.layout().size_in_bytes as u64 * 8),
            Type::Enum(EnumRef::Rec(reference)) => Some(reference.layout().size_in_bytes as u64 * 8),
            Type::Array(array) => {
                if array.len == 0 {
                    return Some(0);
                }
                let bits: u64 = match array.ty.size_in_bits() {
                    None => {
                        return None;
                    },
                    Some(bits) => bits,
                };
                let align: u64 = array.ty.min_alignment();
                checked_array_bits(bits, align, array.len as u64)
            },
            _ => Some(32),
        }
    }

    /// The minimum number of bytes required to store a value of this type.
    pub fn size_in_bytes(&self) -> (bytes: usize)
        requires
            bits_of(self.model()) is Some,
            bytes_of(self.model()) <= usize::MAX,
        ensures
            bytes == bytes_of(self.model()),
    {
        match self.checked_size() {
            Some(bytes) => bytes as usize,
            None => 0,
        }
    }

    /// The minimum number of bytes required to store a value of this type, if it is in range.
    pub fn checked_size(&self) -> (bytes: Option<u64>)
        ensures
            match bytes {
                Some(bytes) => bits_of(self.model()) is Some && bytes == bytes_of(self.model()) && bytes
                    <= 0x2000_0000_0000_0000,
                None => bits_of(self.model()) is None,
            },
    {
        match self.size_in_bits() {
            None => None,
            Some(bits) => Some(bits / 8 + if bits % 8 == 0 { 0 } else { 1 }),
        }
    }

    /// Whether this type takes no memory and has no alignment to keep.
    pub fn is_zst(&self) -> (zst: bool)
        ensures
            zst == is_zero_sized(self.model()),
        decreases self,
    {
        if let Some(scalar) = self.scalar() {
            return matches!(scalar, Scalar::Never);
        }
        match self {
            Type::Array(array) => array.len == 0 || array.ty.is_zst(),
            Type::Enum(EnumRef::Plain(body)) => body.is_phantom(),
            Type::Struct(StructRef::Rec(reference)) => reference.layout().is_zst,
            Type::Enum(EnumRef::Rec(reference)) => reference.layout().is_zst,
            Type::Struct(StructRef::Plain(body)) => body.is_zst(),
            _ => false,
        }
    }

    /// The layout of this type, if it is in range.
    pub fn layout(&self) -> (layout: Option<TypeLayout>)
        ensures
            layout == layout_of(self.model()),
    {
        let size: u64 = match self.checked_size() {
            None => {
                return None;
            },
            Some(size) => size,
        };
        let align: u64 = self.min_alignment();
        if size > u32::MAX as u64 || align > u16::MAX as u64 || align == 0 {
            return None;
        }
        Some(TypeLayout { size_in_bytes: size as u32, min_alignment: align as u16, is_zst: self.is_zst() })
    }
}

/// The layout of a type. `None` where it is out of range.
pub open spec fn layout_of(ty: Ty) -> Option<TypeLayout> {
    if bits_of(ty) is Some && bytes_of(ty) <= u32::MAX && 0 < align_of(ty) <= u16::MAX {
        Some(
            TypeLayout {
                size_in_bytes: bytes_of(ty) as u32,
                min_alignment: align_of(ty) as u16,
                is_zst: is_zero_sized(ty),
            },
        )
    } else {
        None
    }
}

/// The size of an array in bits, if it is in range.
fn checked_array_bits(bits: u64, align: u64, len: u64) -> (all: Option<u64>)
    requires
        len > 0,
        align <= u32::MAX,
    ensures
        match all {
            Some(all) => all == array_bits(bits as nat, align as nat, len as nat),
            None => array_bits(bits as nat, align as nat, len as nat) > u64::MAX,
        },
{
    let ghost up = align_up(bits as nat, (align * 8) as nat);
    if len == 1 {
        assert(up * 0 == 0);
        return Some(bits);
    }
    proof {
        assert(up * ((len - 1) as nat) >= up) by (nonlinear_arith)
            requires
                len >= 2,
        ;
    }
    match checked_align_up(bits, align * 8) {
        None => None,
        Some(padded) => match padded.checked_mul(len - 1) {
            None => None,
            Some(tail) => bits.checked_add(tail),
        },
    }
}

} // verus!
