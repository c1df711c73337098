//! Structural hashes of types and of recursive groups.
//!
//! A hash is the 64-bit FNV-1a hash of a byte encoding. A reference to a recursive definition is
//! encoded by its index and by the hash of its group, which the group caches, so that hashing one
//! does not walk the group.
use std::hash::{Hash, Hasher};
use std::sync::Arc;

use vstd::prelude::*;
use vstd::utf8::encode_utf8;

use crate::bytes::le_bytes;
use crate::types::{
    def_models, feed_u64, models, numbers, open_models, optional_text, AddressSpace, AggregateKind, CallConv, DefTy,
    EnumRef, EnumType, FieldTy, FunctionType, Open, OpenAggregate, OpenEnumType, OpenField, OpenStructField,
    OpenStructType, OpenType, OpenVariant, OpenVariantTy, RecDef, RecTypeRef, Scalar, StructField, StructRef,
    StructType, Ty, Type, TypeLayout, TypeRepr, Variant, VariantTy,
};

verus! {

// FNV-1A
// ================================================================================================

/// The hash of nothing.
pub const OFFSET_BASIS: u64 = 0xcbf2_9ce4_8422_2325;

/// What the state is multiplied by for each byte.
pub const PRIME: u64 = 0x0000_0100_0000_01b3;

/// The state after one more byte.
pub open spec fn fnv_byte(state: u64, byte: u8) -> u64 {
    (state ^ (byte as u64)).wrapping_mul(PRIME)
}

/// The state after some more bytes.
pub open spec fn fnv(state: u64, bytes: Seq<u8>) -> u64
    decreases bytes.len(),
{
    if bytes.len() == 0 {
        state
    } else {
        fnv(fnv_byte(state, bytes[0]), bytes.skip(1))
    }
}

broadcast proof fn fnv_concat(state: u64, a: Seq<u8>, b: Seq<u8>)
    ensures
        #[trigger] fnv(state, a + b) == fnv(fnv(state, a), b),
    decreases a.len(),
{
    if a.len() == 0 {
        assert(a + b =~= b);
    } else {
        assert((a + b).skip(1) =~= a.skip(1) + b);
        fnv_concat(fnv_byte(state, a[0]), a.skip(1), b);
    }
}

fn feed_byte(state: u64, byte: u8) -> (next: u64)
    ensures
        next == fnv(state, seq![byte]),
{
    proof {
        let one = seq![byte];
        reveal_with_fuel(fnv, 2);
        assert(one.skip(1) =~= Seq::<u8>::empty());
    }
    (state ^ (byte as u64)).wrapping_mul(PRIME)
}

fn feed_bytes(state: u64, bytes: &[u8]) -> (next: u64)
    ensures
        next == fnv(state, bytes@),
{
    let mut next: u64 = state;
    let mut i: usize = 0;
    proof {
        assert(bytes@.take(0) =~= Seq::<u8>::empty());
    }
    while i < bytes.len()
        invariant
            i <= bytes@.len(),
            next == fnv(state, bytes@.take(i as int)),
        decreases bytes@.len() - i,
    {
        proof {
            assert(bytes@.take(i + 1) =~= bytes@.take(i as int) + seq![bytes@[i as int]]);
            fnv_concat(state, bytes@.take(i as int), seq![bytes@[i as int]]);
        }
        next = feed_byte(next, bytes[i]);
        i += 1;
    }
    proof {
        assert(bytes@.take(i as int) =~= bytes@);
    }
    next
}

fn feed_number(state: u64, n: u128, count: usize) -> (next: u64)
    requires
        count <= 16,
    ensures
        next == fnv(state, le_bytes(n as nat, count as nat)),
    decreases count,
{
    if count == 0 {
        state
    } else {
        let byte: u8 = (n % 256) as u8;
        proof {
            fnv_concat(state, seq![byte], le_bytes((n / 256) as nat, (count - 1) as nat));
        }
        feed_number(feed_byte(state, byte), n / 256, count - 1)
    }
}

// ENCODINGS
// ================================================================================================

pub open spec fn scalar_code(scalar: Scalar) -> u8 {
    match scalar {
        Scalar::Unknown => 0,
        Scalar::Never => 1,
        Scalar::Variadic => 2,
        Scalar::I1 => 3,
        Scalar::I8 => 4,
        Scalar::U8 => 5,
        Scalar::I16 => 6,
        Scalar::U16 => 7,
        Scalar::I32 => 8,
        Scalar::U32 => 9,
        Scalar::I64 => 10,
        Scalar::U64 => 11,
        Scalar::I128 => 12,
        Scalar::U128 => 13,
        Scalar::U256 => 14,
        Scalar::F64 => 15,
        Scalar::Felt => 16,
    }
}

pub open spec fn space_code(space: AddressSpace) -> u8 {
    match space {
        AddressSpace::Byte => 0,
        AddressSpace::Element => 1,
    }
}

pub open spec fn abi_code(abi: CallConv) -> u8 {
    match abi {
        CallConv::Fast => 0,
        CallConv::C => 1,
        CallConv::Wasm => 2,
        CallConv::ComponentModel => 3,
    }
}

pub open spec fn kind_code(kind: AggregateKind) -> u8 {
    match kind {
        AggregateKind::Struct => 0,
        AggregateKind::Enum => 1,
    }
}

/// Numbers take eight bytes.
pub open spec fn encode_number(n: nat) -> Seq<u8> {
    le_bytes(n, 8)
}

pub open spec fn encode_text(text: Seq<char>) -> Seq<u8> {
    encode_number(encode_utf8(text).len()) + encode_utf8(text)
}

pub open spec fn encode_name(name: Option<Seq<char>>) -> Seq<u8> {
    match name {
        None => seq![0u8],
        Some(text) => seq![1u8] + encode_text(text),
    }
}

pub open spec fn encode_repr(repr: TypeRepr) -> Seq<u8> {
    match repr {
        TypeRepr::Default => seq![0u8],
        TypeRepr::Align(align) => seq![1u8] + encode_number(align as nat),
        TypeRepr::Packed(align) => seq![2u8] + encode_number(align as nat),
        TypeRepr::Transparent => seq![3u8],
    }
}

pub open spec fn encode_layout(layout: TypeLayout) -> Seq<u8> {
    encode_number(layout.size_in_bytes as nat) + encode_number(layout.min_alignment as nat) + seq![
        if layout.is_zst {
            1u8
        } else {
            0u8
        },
    ]
}

/// Discriminant values take sixteen bytes.
pub open spec fn encode_value(value: Option<u128>) -> Seq<u8> {
    match value {
        None => seq![0u8],
        Some(value) => seq![1u8] + le_bytes(value as nat, 16),
    }
}

pub open spec fn encode_offsets(offsets: Seq<nat>, n: nat) -> Seq<u8>
    decreases n,
{
    if n == 0 {
        encode_number(offsets.len())
    } else {
        encode_offsets(offsets, (n - 1) as nat) + encode_number(offsets[n - 1])
    }
}

pub open spec fn encode_ty(ty: Ty) -> Seq<u8>
    decreases ty, 0nat,
{
    match ty {
        Ty::Scalar(scalar) => seq![0u8] + seq![scalar_code(scalar)],
        Ty::Ptr(space, pointee) => seq![1u8] + seq![space_code(space)] + encode_ty(*pointee),
        Ty::Array(element, len) => seq![2u8] + encode_number(len) + encode_ty(*element),
        Ty::List(element) => seq![3u8] + encode_ty(*element),
        Ty::Function(abi, params, results) => seq![4u8] + seq![abi_code(abi)] + encode_tys(params, params.len())
            + encode_tys(results, results.len()),
        Ty::Struct(body) => seq![5u8] + encode_name(body.name) + encode_repr(body.repr) + encode_number(body.size)
            + encode_fields(body.fields, body.fields.len()),
        Ty::Enum(body) => seq![6u8] + encode_text(body.name) + encode_ty(*body.discriminant) + encode_variants(
            body.variants,
            body.variants.len(),
        ) + encode_offsets(body.offsets, body.offsets.len()) + encode_number(body.size) + encode_number(body.align),
        Ty::RecStruct(defs, slot) => seq![7u8] + encode_number(slot) + encode_number(
            fnv(OFFSET_BASIS, encode_defs(defs, defs.len())) as nat,
        ),
        Ty::RecEnum(defs, slot) => seq![8u8] + encode_number(slot) + encode_number(
            fnv(OFFSET_BASIS, encode_defs(defs, defs.len())) as nat,
        ),
    }
}

pub open spec fn encode_tys(tys: Seq<Ty>, n: nat) -> Seq<u8>
    decreases tys, n,
{
    if n == 0 || n > tys.len() {
        encode_number(tys.len())
    } else {
        encode_tys(tys, (n - 1) as nat) + encode_ty(tys[n - 1])
    }
}

pub open spec fn encode_fields(fields: Seq<FieldTy>, n: nat) -> Seq<u8>
    decreases fields, n,
{
    if n == 0 || n > fields.len() {
        encode_number(fields.len())
    } else {
        let field = fields[n - 1];
        encode_fields(fields, (n - 1) as nat) + (encode_name(field.name) + encode_number(field.index)
            + encode_number(field.align) + encode_number(field.offset) + encode_ty(field.ty))
    }
}

pub open spec fn encode_variants(variants: Seq<VariantTy>, n: nat) -> Seq<u8>
    decreases variants, n,
{
    if n == 0 || n > variants.len() {
        encode_number(variants.len())
    } else {
        let variant = variants[n - 1];
        encode_variants(variants, (n - 1) as nat) + (encode_text(variant.name) + encode_value(
            variant.discriminant_value,
        ) + match variant.value {
            None => seq![0u8],
            Some(value) => seq![1u8] + encode_ty(value),
        })
    }
}

pub open spec fn encode_open(open: Open) -> Seq<u8>
    decreases open, 0nat,
{
    match open {
        Open::Closed(ty) => seq![0u8] + encode_ty(ty),
        Open::Var(slot) => seq![1u8] + encode_number(slot),
        Open::Ptr(space, pointee) => seq![2u8] + seq![space_code(space)] + encode_open(*pointee),
        Open::Array(element, len) => seq![3u8] + encode_number(len) + encode_open(*element),
        Open::List(element) => seq![4u8] + encode_open(*element),
        Open::Function(abi, params, results) => seq![5u8] + seq![abi_code(abi)] + encode_opens(params, params.len())
            + encode_opens(results, results.len()),
        Open::Struct(body) => seq![6u8] + encode_name(body.name) + encode_repr(body.repr) + encode_number(body.size)
            + encode_open_fields(body.fields, body.fields.len()),
        Open::Enum(body) => seq![7u8] + encode_text(body.name) + encode_ty(*body.discriminant)
            + encode_open_variants(body.variants, body.variants.len()) + encode_offsets(
            body.offsets,
            body.offsets.len(),
        ) + encode_number(body.size) + encode_number(body.align),
    }
}

pub open spec fn encode_opens(opens: Seq<Open>, n: nat) -> Seq<u8>
    decreases opens, n,
{
    if n == 0 || n > opens.len() {
        encode_number(opens.len())
    } else {
        encode_opens(opens, (n - 1) as nat) + encode_open(opens[n - 1])
    }
}

pub open spec fn encode_open_fields(fields: Seq<OpenField>, n: nat) -> Seq<u8>
    decreases fields, n,
{
    if n == 0 || n > fields.len() {
        encode_number(fields.len())
    } else {
        let field = fields[n - 1];
        encode_open_fields(fields, (n - 1) as nat) + (encode_name(field.name) + encode_number(field.index)
            + encode_number(field.align) + encode_number(field.offset) + encode_open(field.ty))
    }
}

pub open spec fn encode_open_variants(variants: Seq<OpenVariantTy>, n: nat) -> Seq<u8>
    decreases variants, n,
{
    if n == 0 || n > variants.len() {
        encode_number(variants.len())
    } else {
        let variant = variants[n - 1];
        encode_open_variants(variants, (n - 1) as nat) + (encode_text(variant.name) + encode_value(
            variant.discriminant_value,
        ) + match variant.value {
            None => seq![0u8],
            Some(value) => seq![1u8] + encode_open(value),
        })
    }
}

pub open spec fn encode_defs(defs: Seq<DefTy>, n: nat) -> Seq<u8>
    decreases defs, n,
{
    if n == 0 || n > defs.len() {
        encode_number(defs.len())
    } else {
        let def = defs[n - 1];
        encode_defs(defs, (n - 1) as nat) + (encode_text(def.name) + seq![kind_code(def.kind)] + encode_open(
            def.body,
        ) + encode_layout(def.layout))
    }
}

/// The hash of a group of definitions.
#[verifier::opaque]
pub open spec fn fnv_defs(defs: Seq<DefTy>) -> u64 {
    fnv(OFFSET_BASIS, encode_defs(defs, defs.len()))
}

/// The hash of a type.
pub open spec fn fnv_ty(ty: Ty) -> u64 {
    fnv(OFFSET_BASIS, encode_ty(ty))
}

fn feed_text(state: u64, text: &str) -> (next: u64)
    ensures
        next == fnv(state, encode_text(text@)),
{
    broadcast use fnv_concat;

    let bytes = text.as_bytes();
    feed_bytes(feed_number(state, bytes.len() as u128, 8), bytes)
}

fn feed_name(state: u64, name: &Option<Arc<str>>) -> (next: u64)
    ensures
        next == fnv(state, encode_name(optional_text(*name))),
{
    broadcast use fnv_concat;

    match name {
        None => feed_byte(state, 0),
        Some(text) => feed_text(feed_byte(state, 1), text),
    }
}

fn feed_repr(state: u64, repr: TypeRepr) -> (next: u64)
    ensures
        next == fnv(state, encode_repr(repr)),
{
    broadcast use fnv_concat;

    match repr {
        TypeRepr::Default => feed_byte(state, 0),
        TypeRepr::Align(align) => feed_number(feed_byte(state, 1), align as u128, 8),
        TypeRepr::Packed(align) => feed_number(feed_byte(state, 2), align as u128, 8),
        TypeRepr::Transparent => feed_byte(state, 3),
    }
}

fn feed_layout(state: u64, layout: TypeLayout) -> (next: u64)
    ensures
        next == fnv(state, encode_layout(layout)),
{
    broadcast use fnv_concat;

    let size: u64 = feed_number(state, layout.size_in_bytes as u128, 8);
    let align: u64 = feed_number(size, layout.min_alignment as u128, 8);
    feed_byte(align, if layout.is_zst { 1 } else { 0 })
}

fn feed_value(state: u64, value: Option<u128>) -> (next: u64)
    ensures
        next == fnv(state, encode_value(value)),
{
    broadcast use fnv_concat;

    match value {
        None => feed_byte(state, 0),
        Some(value) => feed_number(feed_byte(state, 1), value, 16),
    }
}

fn feed_offsets(state: u64, offsets: &Vec<u32>) -> (next: u64)
    ensures
        next == fnv(state, encode_offsets(numbers(offsets@), offsets@.len())),
{
    broadcast use fnv_concat;

    let mut next: u64 = feed_number(state, offsets.len() as u128, 8);
    let mut i: usize = 0;
    while i < offsets.len()
        invariant
            i <= offsets@.len(),
            next == fnv(state, encode_offsets(numbers(offsets@), i as nat)),
        decreases offsets@.len() - i,
    {
        proof {
            fnv_concat(
                state,
                encode_offsets(numbers(offsets@), i as nat),
                encode_number(offsets@[i as int] as nat),
            );
        }
        next = feed_number(next, offsets[i] as u128, 8);
        i += 1;
    }
    next
}

fn scalar_byte(scalar: Scalar) -> (code: u8)
    ensures
        code == scalar_code(scalar),
{
    match scalar {
        Scalar::Unknown => 0,
        Scalar::Never => 1,
        Scalar::Variadic => 2,
        Scalar::I1 => 3,
        Scalar::I8 => 4,
        Scalar::U8 => 5,
        Scalar::I16 => 6,
        Scalar::U16 => 7,
        Scalar::I32 => 8,
        Scalar::U32 => 9,
        Scalar::I64 => 10,
        Scalar::U64 => 11,
        Scalar::I128 => 12,
        Scalar::U128 => 13,
        Scalar::U256 => 14,
        Scalar::F64 => 15,
        Scalar::Felt => 16,
    }
}

fn space_byte(space: AddressSpace) -> (code: u8)
    ensures
        code == space_code(space),
{
    match space {
        AddressSpace::Byte => 0,
        AddressSpace::Element => 1,
    }
}

fn abi_byte(abi: CallConv) -> (code: u8)
    ensures
        code == abi_code(abi),
{
    match abi {
        CallConv::Fast => 0,
        CallConv::C => 1,
        CallConv::Wasm => 2,
        CallConv::ComponentModel => 3,
    }
}

/// Feeds a reference to a definition of a group into a hash: its index, and the hash of the group.
fn feed_reference(state: u64, tag: u8, reference: &RecTypeRef) -> (next: u64)
    ensures
        next == fnv(
            state,
            seq![tag] + encode_number(reference.slot()) + encode_number(
                fnv(OFFSET_BASIS, encode_defs(reference.defs(), reference.defs().len())) as nat,
            ),
        ),
{
    broadcast use fnv_concat;

    reveal(fnv_defs);
    let head: u64 = feed_number(feed_byte(state, tag), reference.index() as u128, 8);
    feed_number(head, reference.group_hash() as u128, 8)
}

/// Feeds a function type into a hash.
fn feed_function(state: u64, function: &FunctionType) -> (next: u64)
    ensures
        next == fnv(
            state,
            seq![4u8] + seq![abi_code(function.abi)] + encode_tys(models(function.params@), function.params@.len())
                + encode_tys(models(function.results@), function.results@.len()),
        ),
    decreases function, 0nat,
{
    broadcast use fnv_concat;

    let head: u64 = feed_byte(feed_byte(state, 4), abi_byte(function.abi));
    let params: u64 = feed_types(head, &function.params);
    feed_types(params, &function.results)
}

/// Feeds a type into a hash.
#[verifier::rlimit(40)]
fn feed_type(state: u64, ty: &Type) -> (next: u64)
    ensures
        next == fnv(state, encode_ty(ty.model())),
    decreases ty, 0nat,
{
    broadcast use fnv_concat;

    if let Some(scalar) = ty.scalar() {
        return feed_byte(feed_byte(state, 0), scalar_byte(scalar));
    }
    match ty {
        Type::Ptr(pointer) => {
            let head: u64 = feed_byte(feed_byte(state, 1), space_byte(pointer.addrspace));
            feed_type(head, &pointer.pointee)
        },
        Type::Array(array) => feed_type(feed_number(feed_byte(state, 2), array.len as u128, 8), &array.ty),
        Type::List(element) => feed_type(feed_byte(state, 3), element),
        Type::Function(function) => {
            let next: u64 = feed_function(state, function);
            proof {
                let (p, r) = (ty.model()->Function_1, ty.model()->Function_2);
                assert(p =~= models(function.params@));
                assert(r =~= models(function.results@));
            }
            next
        },
        Type::Struct(StructRef::Plain(body)) => feed_struct(feed_byte(state, 5), body),
        Type::Enum(EnumRef::Plain(body)) => feed_enum(feed_byte(state, 6), body),
        Type::Struct(StructRef::Rec(reference)) => feed_reference(state, 7, reference),
        Type::Enum(EnumRef::Rec(reference)) => feed_reference(state, 8, reference),
        _ => state,
    }
}

fn feed_types(state: u64, tys: &Vec<Type>) -> (next: u64)
    ensures
        next == fnv(state, encode_tys(models(tys@), tys@.len())),
    decreases tys, 0nat,
{
    broadcast use fnv_concat;

    let mut next: u64 = feed_number(state, tys.len() as u128, 8);
    let mut i: usize = 0;
    while i < tys.len()
        invariant
            i <= tys@.len(),
            next == fnv(state, encode_tys(models(tys@), i as nat)),
        decreases tys@.len() - i,
    {
        proof {
            assert(decreases_to!(*tys => tys@[i as int]));
            fnv_concat(state, encode_tys(models(tys@), i as nat), encode_ty(tys@[i as int].model()));
        }
        next = feed_type(next, &tys[i]);
        i += 1;
    }
    next
}

fn feed_struct(state: u64, body: &StructType) -> (next: u64)
    ensures
        next == fnv(
            state,
            encode_name(body.model().name) + encode_repr(body.repr) + encode_number(body.size as nat)
                + encode_fields(body.model().fields, body.fields@.len()),
        ),
    decreases body, 0nat,
{
    broadcast use fnv_concat;

    let head: u64 = feed_number(feed_repr(feed_name(state, &body.name), body.repr), body.size as u128, 8);
    let ghost fields = body.model().fields;
    let mut next: u64 = feed_number(head, body.fields.len() as u128, 8);
    let mut i: usize = 0;
    while i < body.fields.len()
        invariant
            i <= body.fields@.len(),
            fields == body.model().fields,
            next == fnv(head, encode_fields(fields, i as nat)),
        decreases body.fields@.len() - i,
    {
        let ghost before = next;
        proof {
            assert(decreases_to!(body.fields => body.fields@[i as int]));
            let f = fields[i as int];
            fnv_concat(
                head,
                encode_fields(fields, i as nat),
                encode_name(f.name) + encode_number(f.index) + encode_number(f.align) + encode_number(f.offset)
                    + encode_ty(f.ty),
            );
        }
        next = feed_field(next, &body.fields[i]);
        i += 1;
    }
    next
}

fn feed_field(state: u64, field: &StructField) -> (next: u64)
    ensures
        next == fnv(
            state,
            encode_name(field.model().name) + encode_number(field.index as nat) + encode_number(field.align as nat)
                + encode_number(field.offset as nat) + encode_ty(field.ty.model()),
        ),
    decreases field, 0nat,
{
    broadcast use fnv_concat;

    let name: u64 = feed_name(state, &field.name);
    let index: u64 = feed_number(name, field.index as u128, 8);
    let align: u64 = feed_number(index, field.align as u128, 8);
    let offset: u64 = feed_number(align, field.offset as u128, 8);
    feed_type(offset, &field.ty)
}

fn feed_enum(state: u64, body: &EnumType) -> (next: u64)
    ensures
        next == fnv(
            state,
            encode_text((*body.name)@) + encode_ty(body.discriminant.model()) + encode_variants(
                body.model().variants,
                body.variants@.len(),
            ) + encode_offsets(numbers(body.offsets@), body.offsets@.len()) + encode_number(body.size as nat)
                + encode_number(body.align as nat),
        ),
    decreases body, 0nat,
{
    broadcast use fnv_concat;

    let head: u64 = feed_type(feed_text(state, &body.name), &body.discriminant);
    let ghost variants = body.model().variants;
    let mut next: u64 = feed_number(head, body.variants.len() as u128, 8);
    let mut i: usize = 0;
    while i < body.variants.len()
        invariant
            i <= body.variants@.len(),
            variants == body.model().variants,
            next == fnv(head, encode_variants(variants, i as nat)),
        decreases body.variants@.len() - i,
    {
        proof {
            assert(decreases_to!(body.variants => body.variants@[i as int]));
            let v = variants[i as int];
            fnv_concat(
                head,
                encode_variants(variants, i as nat),
                encode_text(v.name) + encode_value(v.discriminant_value) + match v.value {
                    None => seq![0u8],
                    Some(value) => seq![1u8] + encode_ty(value),
                },
            );
        }
        next = feed_variant(next, &body.variants[i]);
        i += 1;
    }
    let offsets: u64 = feed_offsets(next, &body.offsets);
    feed_number(feed_number(offsets, body.size as u128, 8), body.align as u128, 8)
}

fn feed_variant(state: u64, variant: &Variant) -> (next: u64)
    ensures
        next == fnv(
            state,
            encode_text((*variant.name)@) + encode_value(variant.discriminant_value) + match variant.model().value {
                None => seq![0u8],
                Some(value) => seq![1u8] + encode_ty(value),
            },
        ),
    decreases variant, 0nat,
{
    broadcast use fnv_concat;

    let head: u64 = feed_value(feed_text(state, &variant.name), variant.discriminant_value);
    match &variant.value {
        None => feed_byte(head, 0),
        Some(value) => feed_type(feed_byte(head, 1), value),
    }
}

/// Feeds an open type into a hash.
fn feed_open(state: u64, open: &OpenType) -> (next: u64)
    ensures
        next == fnv(state, encode_open(open.model())),
    decreases open, 0nat,
{
    broadcast use fnv_concat;

    match open {
        OpenType::Closed(ty) => feed_type(feed_byte(state, 0), ty),
        OpenType::Var(index) => feed_number(feed_byte(state, 1), *index as u128, 8),
        OpenType::Ptr(addrspace, pointee) => {
            let head: u64 = feed_byte(feed_byte(state, 2), space_byte(*addrspace));
            feed_open(head, pointee)
        },
        OpenType::Array(element, len) => feed_open(feed_number(feed_byte(state, 3), *len as u128, 8), element),
        OpenType::List(element) => feed_open(feed_byte(state, 4), element),
        OpenType::Function(function) => {
            let head: u64 = feed_byte(feed_byte(state, 5), abi_byte(function.abi));
            let params: u64 = feed_opens(head, &function.params);
            let next: u64 = feed_opens(params, &function.results);
            proof {
                let (p, r) = (open.model()->Function_1, open.model()->Function_2);
                assert(p =~= open_models(function.params@));
                assert(r =~= open_models(function.results@));
            }
            next
        },
        OpenType::Struct(body) => feed_open_struct(feed_byte(state, 6), body),
        OpenType::Enum(body) => feed_open_enum(feed_byte(state, 7), body),
    }
}

fn feed_aggregate(state: u64, body: &OpenAggregate) -> (next: u64)
    ensures
        next == fnv(state, encode_open(body.model())),
    decreases body, 0nat,
{
    broadcast use fnv_concat;

    match body {
        OpenAggregate::Struct(body) => feed_open_struct(feed_byte(state, 6), body),
        OpenAggregate::Enum(body) => feed_open_enum(feed_byte(state, 7), body),
    }
}

fn feed_opens(state: u64, opens: &Vec<OpenType>) -> (next: u64)
    ensures
        next == fnv(state, encode_opens(open_models(opens@), opens@.len())),
    decreases opens, 0nat,
{
    let mut next: u64 = feed_number(state, opens.len() as u128, 8);
    let mut i: usize = 0;
    while i < opens.len()
        invariant
            i <= opens@.len(),
            next == fnv(state, encode_opens(open_models(opens@), i as nat)),
        decreases opens@.len() - i,
    {
        proof {
            assert(decreases_to!(*opens => opens@[i as int]));
            fnv_concat(state, encode_opens(open_models(opens@), i as nat), encode_open(opens@[i as int].model()));
        }
        next = feed_open(next, &opens[i]);
        i += 1;
    }
    next
}

fn feed_open_struct(state: u64, body: &OpenStructType) -> (next: u64)
    ensures
        next == fnv(
            state,
            encode_name(body.model().name) + encode_repr(body.repr) + encode_number(body.size as nat)
                + encode_open_fields(body.model().fields, body.fields@.len()),
        ),
    decreases body, 0nat,
{
    broadcast use fnv_concat;

    let head: u64 = feed_number(feed_repr(feed_name(state, &body.name), body.repr), body.size as u128, 8);
    let ghost fields = body.model().fields;
    let mut next: u64 = feed_number(head, body.fields.len() as u128, 8);
    let mut i: usize = 0;
    while i < body.fields.len()
        invariant
            i <= body.fields@.len(),
            fields == body.model().fields,
            next == fnv(head, encode_open_fields(fields, i as nat)),
        decreases body.fields@.len() - i,
    {
        proof {
            assert(decreases_to!(body.fields => body.fields@[i as int]));
            let f = fields[i as int];
            fnv_concat(
                head,
                encode_open_fields(fields, i as nat),
                encode_name(f.name) + encode_number(f.index) + encode_number(f.align) + encode_number(f.offset)
                    + encode_open(f.ty),
            );
        }
        next = feed_open_field(next, &body.fields[i]);
        i += 1;
    }
    next
}

fn feed_open_field(state: u64, field: &OpenStructField) -> (next: u64)
    ensures
        next == fnv(
            state,
            encode_name(field.model().name) + encode_number(field.index as nat) + encode_number(field.align as nat)
                + encode_number(field.offset as nat) + encode_open(field.ty.model()),
        ),
    decreases field, 0nat,
{
    broadcast use fnv_concat;

    let name: u64 = feed_name(state, &field.name);
    let index: u64 = feed_number(name, field.index as u128, 8);
    let align: u64 = feed_number(index, field.align as u128, 8);
    let offset: u64 = feed_number(align, field.offset as u128, 8);
    feed_open(offset, &field.ty)
}

fn feed_open_enum(state: u64, body: &OpenEnumType) -> (next: u64)
    ensures
        next == fnv(
            state,
            encode_text((*body.name)@) + encode_ty(body.discriminant.model()) + encode_open_variants(
                body.model().variants,
                body.variants@.len(),
            ) + encode_offsets(numbers(body.offsets@), body.offsets@.len()) + encode_number(body.size as nat)
                + encode_number(body.align as nat),
        ),
    decreases body, 0nat,
{
    broadcast use fnv_concat;

    let head: u64 = feed_type(feed_text(state, &body.name), &body.discriminant);
    let ghost variants = body.model().variants;
    let mut next: u64 = feed_number(head, body.variants.len() as u128, 8);
    let mut i: usize = 0;
    while i < body.variants.len()
        invariant
            i <= body.variants@.len(),
            variants == body.model().variants,
            next == fnv(head, encode_open_variants(variants, i as nat)),
        decreases body.variants@.len() - i,
    {
        proof {
            assert(decreases_to!(body.variants => body.variants@[i as int]));
            let v = variants[i as int];
            fnv_concat(
                head,
                encode_open_variants(variants, i as nat),
                encode_text(v.name) + encode_value(v.discriminant_value) + match v.value {
                    None => seq![0u8],
                    Some(value) => seq![1u8] + encode_open(value),
                },
            );
        }
        next = feed_open_variant(next, &body.variants[i]);
        i += 1;
    }
    let offsets: u64 = feed_offsets(next, &body.offsets);
    feed_number(feed_number(offsets, body.size as u128, 8), body.align as u128, 8)
}

fn feed_open_variant(state: u64, variant: &OpenVariant) -> (next: u64)
    ensures
        next == fnv(
            state,
            encode_text((*variant.name)@) + encode_value(variant.discriminant_value) + match variant.model().value {
                None => seq![0u8],
                Some(value) => seq![1u8] + encode_open(value),
            },
        ),
    decreases variant, 0nat,
{
    broadcast use fnv_concat;

    let head: u64 = feed_value(feed_text(state, &variant.name), variant.discriminant_value);
    match &variant.value {
        None => feed_byte(head, 0),
        Some(value) => feed_open(feed_byte(head, 1), value),
    }
}

fn feed_def(state: u64, def: &RecDef) -> (next: u64)
    ensures
        next == fnv(
            state,
            encode_text((*def.name)@) + seq![kind_code(def.kind)] + encode_open(def.body.model()) + encode_layout(
                def.layout,
            ),
        ),
{
    broadcast use fnv_concat;

    let name: u64 = feed_text(state, &def.name);
    let kind: u64 = match def.kind {
        AggregateKind::Struct => feed_byte(name, 0),
        AggregateKind::Enum => feed_byte(name, 1),
    };
    feed_layout(feed_aggregate(kind, &def.body), def.layout)
}

/// The hash of a group of definitions.
pub fn hash_defs(defs: &Vec<RecDef>) -> (hash: u64)
    ensures
        hash == fnv_defs(def_models(defs@)),
{
    reveal(fnv_defs);
    let ghost all = def_models(defs@);
    let mut next: u64 = feed_number(OFFSET_BASIS, defs.len() as u128, 8);
    let mut i: usize = 0;
    while i < defs.len()
        invariant
            i <= defs@.len(),
            all == def_models(defs@),
            next == fnv(OFFSET_BASIS, encode_defs(all, i as nat)),
        decreases defs@.len() - i,
    {
        proof {
            let d = all[i as int];
            fnv_concat(
                OFFSET_BASIS,
                encode_defs(all, i as nat),
                encode_text(d.name) + seq![kind_code(d.kind)] + encode_open(d.body) + encode_layout(d.layout),
            );
        }
        next = feed_def(next, &defs[i]);
        i += 1;
    }
    next
}

/// The hash of a type, which is all that a type feeds to a hasher.
pub fn hash_type(ty: &Type) -> (hash: u64)
    ensures
        hash == fnv_ty(ty.model()),
{
    feed_type(OFFSET_BASIS, ty)
}

impl Hash for Type {
    /// Feeds the hash of this type, a single number, whatever the hasher.
    fn hash<H: Hasher>(&self, state: &mut H) {
        feed_u64(state, hash_type(self))
    }
}

} // verus!
