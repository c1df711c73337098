//! Cutting types into parts of a given size, as they are represented on the operand stack.
use std::sync::Arc;

use vstd::prelude::*;

use crate::aggregates::{
    field_offset, fields_end, make_struct, part_models, struct_size, struct_valid, whole_align, NameAndType, PartTy,
};
use crate::closing::close;
use crate::layout::{align_of, align_up, array_bits, bits_of, bytes_of, is_alignment, is_zero_sized, struct_align};
use crate::order_laws::built_types_are_their_definitions;
use crate::recursive::{build_outcome, DefTpl};
use crate::types::{
    field_models, models, share_name, AggregateKind, ArrayType, DefTy, EnumRef, FieldTy, Scalar, StructField, StructRef,
    StructTy, StructType, Ty, Type, TypeRepr,
};
use crate::unfolding::unfold_struct;

verus! {

// PIECES
// ================================================================================================

/// How deep aggregates may be nested to be cut: as deep as can be counted.
pub const MAX_DEPTH: usize = usize::MAX;

/// The size of a part on the operand stack, in bytes.
pub const PART_SIZE: usize = 4;

/// Some bytes.
pub open spec fn bytes_ty(n: nat) -> Ty {
    if n == 1 {
        Ty::Scalar(Scalar::U8)
    } else {
        Ty::Array(Box::new(Ty::Scalar(Scalar::U8)), n)
    }
}

/// Something of `size` bytes, cut into bytes. There are no more in the second part than can be
/// counted.
pub open spec fn cut_bytes(size: nat, n: nat) -> (Ty, Option<Ty>) {
    let left = minus(size, n);
    (
        bytes_ty(n),
        Some(
            bytes_ty(
                if left > usize::MAX {
                    usize::MAX as nat
                } else {
                    left
                },
            ),
        ),
    )
}

/// Some elements of an array.
pub open spec fn run_ty(element: Ty, n: nat) -> Ty {
    if n == 1 {
        element
    } else {
        Ty::Array(Box::new(element), n)
    }
}

/// What is left of `a` when `b` is taken away.
pub open spec fn minus(a: nat, b: nat) -> nat {
    if b <= a {
        (a - b) as nat
    } else {
        0
    }
}

/// Two types, one directly behind the other.
pub open spec fn pair_ty(first: Ty, second: Ty) -> Option<StructTy> {
    make_struct(None, TypeRepr::Packed(1), seq![PartTy { name: None, ty: first }, PartTy { name: None, ty: second }])
}

/// The number of bytes from one element of an array to the next.
pub open spec fn stride_of(element: Ty) -> nat {
    match bits_of(element) {
        None => 0,
        Some(bits) => (align_up(bits, align_of(element) * 8) + 7) / 8,
    }
}

/// The largest alignment that is not above `n`.
pub open spec fn alignment_below(n: nat) -> u16 {
    if n >= 32768 {
        32768
    } else if n >= 16384 {
        16384
    } else if n >= 8192 {
        8192
    } else if n >= 4096 {
        4096
    } else if n >= 2048 {
        2048
    } else if n >= 1024 {
        1024
    } else if n >= 512 {
        512
    } else if n >= 256 {
        256
    } else if n >= 128 {
        128
    } else if n >= 64 {
        64
    } else if n >= 32 {
        32
    } else if n >= 16 {
        16
    } else if n >= 8 {
        8
    } else if n >= 4 {
        4
    } else if n >= 2 {
        2
    } else {
        1
    }
}

/// The type made of some fields: none where there are none, that of the field where there is one,
/// and a struct of the given size where there are more.
pub open spec fn gathered(repr: TypeRepr, size: nat, fields: Seq<FieldTy>) -> Option<Ty> {
    if fields.len() == 0 {
        None
    } else if fields.len() == 1 {
        Some(fields[0].ty)
    } else {
        Some(Ty::Struct(StructTy { name: None, repr, size, fields }))
    }
}

/// The fields behind the first `n` bytes, as they stand once these are cut off. They are numbered
/// from `first` on.
pub open spec fn moved(fields: Seq<FieldTy>, n: nat, first: nat) -> Seq<FieldTy> {
    Seq::new(
        fields.len(),
        |i: int| FieldTy { index: (first + i) as nat % 256, offset: minus(fields[i].offset, n), ..fields[i] },
    )
}

/// The representation of what is left where padding comes first: one with the alignment of that
/// padding.
pub open spec fn padded_repr(padding: nat, fields: Seq<FieldTy>) -> TypeRepr {
    let effective = alignment_below(padding);
    let natural = struct_align(StructTy { name: None, repr: TypeRepr::Default, size: 0, fields });
    if natural == effective {
        TypeRepr::Default
    } else if natural > effective {
        TypeRepr::Packed(effective)
    } else {
        TypeRepr::Align(effective)
    }
}

/// Where a field ends.
pub open spec fn end_of(field: FieldTy) -> nat {
    field.offset + bytes_of(field.ty)
}

/// The first field from `i` on that ends at `n` or behind it, or the number of fields.
pub open spec fn cut_at(fields: Seq<FieldTy>, n: nat, i: nat) -> nat
    decreases fields.len() - i,
{
    if i >= fields.len() {
        fields.len()
    } else if end_of(fields[i as int]) >= n {
        i
    } else {
        cut_at(fields, n, i + 1)
    }
}

/// The first field from `i` on that is not zero-sized, or the number of fields.
pub open spec fn first_sized(fields: Seq<FieldTy>, i: nat) -> nat
    decreases fields.len() - i,
{
    if i >= fields.len() {
        fields.len()
    } else if !is_zero_sized(fields[i as int].ty) {
        i
    } else {
        first_sized(fields, i + 1)
    }
}

/// The struct that a type is, if it is one. A recursive one is unfolded.
pub open spec fn body_of(ty: Ty) -> Option<StructTy> {
    match ty {
        Ty::Struct(body) => Some(body),
        Ty::RecStruct(defs, slot) => if defs[slot as int].kind is Struct {
            Some(unfold_struct(defs[slot as int].body->Struct_0, defs))
        } else {
            None
        },
        _ => None,
    }
}

// SPLITTING
// ================================================================================================

/// A type, cut into a part of at most `n` bytes and what is left, if anything is.
///
/// A type that fits stays whole. A struct or an array is cut between its fields or elements where
/// that is possible, and through one of them where it is not; any other type is cut into bytes.
/// So is what is nested deeper than `depth`.
pub open spec fn split_ty(ty: Ty, n: nat, depth: nat) -> (Ty, Option<Ty>)
    decreases depth, 0nat,
{
    let size = bytes_of(ty);
    if n == 0 || size <= n {
        (ty, None)
    } else if depth == 0 {
        cut_bytes(size, n)
    } else {
        match body_of(ty) {
            Some(body) => split_body(body, n, (depth - 1) as nat),
            None => match ty {
                Ty::Array(element, len) => split_run(*element, len, n, (depth - 1) as nat),
                _ => cut_bytes(size, n),
            },
        }
    }
}

/// A struct, cut into its first `n` bytes and what is left.
pub open spec fn split_body(body: StructTy, n: nat, depth: nat) -> (Ty, Option<Ty>)
    decreases depth, 1nat,
{
    let fields = body.fields;
    if body.repr is Transparent {
        let i = first_sized(fields, 0);
        if i < fields.len() {
            split_ty(fields[i as int].ty, n, depth)
        } else {
            cut_bytes(body.size, n)
        }
    } else {
        let k = cut_at(fields, n, 0) as int;
        let left = minus(body.size, n);
        if k >= fields.len() {
            // Nothing but padding is left.
            if fields.len() == 0 {
                (bytes_ty(n), None)
            } else {
                (gathered(body.repr, end_of(fields.last()), fields)->0, None)
            }
        } else if fields[k].offset >= n {
            // The cut goes through padding.
            let first = if k == 0 {
                Ty::Array(Box::new(Ty::Scalar(Scalar::U8)), n)
            } else {
                gathered(body.repr, n, fields.take(k))->0
            };
            let rest = moved(fields.skip(k), n, 0);
            let repr = if fields[k].offset == n {
                TypeRepr::Default
            } else {
                padded_repr((fields[k].offset - n) as nat, rest)
            };
            (first, gathered(repr, left, rest))
        } else if end_of(fields[k]) == n {
            // The cut goes between two fields.
            (
                gathered(body.repr, n, fields.take(k + 1))->0,
                gathered(body.repr, left, moved(fields.skip(k + 1), n, 0)),
            )
        } else {
            // The cut goes through a field.
            let (front, back) = split_ty(fields[k].ty, (n - fields[k].offset) as nat, depth);
            let cut = FieldTy { name: None, ty: front, ..fields[k] };
            let rest = match back {
                None => moved(fields.skip(k + 1), n, 0),
                Some(back) => seq![FieldTy { name: None, index: 0, align: 1, offset: 0, ty: back }] + moved(
                    fields.skip(k + 1),
                    n,
                    1,
                ),
            };
            (gathered(body.repr, n, fields.take(k).push(cut))->0, gathered(TypeRepr::Packed(1), left, rest))
        }
    }
}

/// An array, cut into its first `n` bytes and what is left.
pub open spec fn split_run(element: Ty, len: nat, n: nat, depth: nat) -> (Ty, Option<Ty>)
    decreases depth, 1nat,
{
    let size = bytes_of(Ty::Array(Box::new(element), len));
    let stride = stride_of(element);
    if len == 1 {
        split_ty(element, n, depth)
    } else if stride == 0 {
        cut_bytes(size, n)
    } else {
        let (taken, extra) = (n / stride, n % stride);
        if extra == 0 {
            // The cut goes between two elements.
            (run_ty(element, taken), Some(run_ty(element, minus(len, taken))))
        } else if extra >= bytes_of(element) {
            // The cut goes through padding.
            (run_ty(element, taken + 1), Some(run_ty(element, minus(len, taken + 1))))
        } else {
            // The cut goes through an element.
            let (front, back) = split_ty(element, extra, depth);
            let left = minus(len, taken + 1);
            let first = if taken == 0 {
                Some(front)
            } else {
                match pair_ty(Ty::Array(Box::new(element), taken), front) {
                    None => None,
                    Some(pair) => Some(Ty::Struct(pair)),
                }
            };
            let rest = match back {
                None => if left == 0 {
                    Some(None)
                } else {
                    Some(Some(run_ty(element, left)))
                },
                Some(back) => if left == 0 {
                    Some(Some(back))
                } else {
                    match pair_ty(back, run_ty(element, left)) {
                        None => None,
                        Some(pair) => Some(Some(Ty::Struct(pair))),
                    }
                },
            };
            match (first, rest) {
                (Some(first), Some(rest)) => (first, rest),
                _ => cut_bytes(size, n),
            }
        }
    }
}

/// The parts that a type is represented by on the operand stack. No more than `limit` are cut off.
pub open spec fn raw_parts(ty: Ty, limit: nat) -> Seq<Ty>
    decreases limit,
{
    let (part, rest) = split_ty(ty, PART_SIZE as nat, MAX_DEPTH as nat);
    match rest {
        None => seq![part],
        Some(rest) => if limit == 0 {
            seq![part, rest]
        } else {
            seq![part] + raw_parts(rest, (limit - 1) as nat)
        },
    }
}

/// What two parts stand for.
pub open spec fn parts_model(parts: (Type, Option<Type>)) -> (Ty, Option<Ty>) {
    (
        parts.0.model(),
        match parts.1 {
            Some(rest) => Some(rest.model()),
            None => None,
        },
    )
}

// PIECES, EXECUTABLE
// ================================================================================================

fn bytes_type(n: usize) -> (ty: Type)
    ensures
        ty.model() == bytes_ty(n as nat),
{
    let byte = Type::U8;
    assert(byte.model() == Ty::Scalar(Scalar::U8));
    if n == 1 {
        byte
    } else {
        Type::Array(Arc::new(ArrayType { ty: byte, len: n }))
    }
}

fn cut_into_bytes(size: u64, n: usize) -> (parts: (Type, Option<Type>))
    ensures
        parts_model(parts) == cut_bytes(size as nat, n as nat),
{
    let left: u64 = if n as u64 <= size { size - n as u64 } else { 0 };
    let count: usize = if left > usize::MAX as u64 { usize::MAX } else { left as usize };
    (bytes_type(n), Some(bytes_type(count)))
}

fn run_type(element: &Type, n: usize) -> (ty: Type)
    ensures
        ty.model() == run_ty(element.model(), n as nat),
{
    if n == 1 {
        element.clone()
    } else {
        Type::Array(Arc::new(ArrayType { ty: element.clone(), len: n }))
    }
}

fn pair_type(first: Type, second: Type) -> (pair: Option<Type>)
    ensures
        match (pair, pair_ty(first.model(), second.model())) {
            (Some(ty), Some(body)) => ty.model() == Ty::Struct(body),
            (None, None) => true,
            _ => false,
        },
{
    let ghost expected = seq![
        PartTy { name: None, ty: first.model() },
        PartTy { name: None, ty: second.model() },
    ];
    let mut parts: Vec<NameAndType> = Vec::new();
    parts.push(NameAndType { name: None, ty: first });
    parts.push(NameAndType { name: None, ty: second });
    assert(part_models(parts@) =~= expected);
    match StructType::from_parts(None, TypeRepr::Packed(1), &parts) {
        None => None,
        Some(body) => Some(Type::Struct(StructRef::Plain(Arc::new(body)))),
    }
}

fn size_of_type(ty: &Type) -> (size: u64)
    ensures
        size == bytes_of(ty.model()),
        size <= 0x2000_0000_0000_0000,
{
    match ty.checked_size() {
        Some(size) => size,
        None => 0,
    }
}

fn stride(element: &Type) -> (stride: u64)
    ensures
        stride == stride_of(element.model()),
{
    match element.size_in_bits() {
        None => 0,
        Some(bits) => {
            let align: u64 = element.min_alignment() * 8;
            let up: u128 = if align == 0 || bits % align == 0 {
                bits as u128
            } else {
                bits as u128 + (align - bits % align) as u128
            };
            assert(up == align_up(bits as nat, align as nat));
            assert(up < 0x2_0000_0000_0000_0000);
            ((up + 7) / 8) as u64
        },
    }
}

fn alignment_up_to(n: u32) -> (align: u16)
    ensures
        align == alignment_below(n as nat),
{
    if n >= 32768 {
        32768
    } else if n >= 16384 {
        16384
    } else if n >= 8192 {
        8192
    } else if n >= 4096 {
        4096
    } else if n >= 2048 {
        2048
    } else if n >= 1024 {
        1024
    } else if n >= 512 {
        512
    } else if n >= 256 {
        256
    } else if n >= 128 {
        128
    } else if n >= 64 {
        64
    } else if n >= 32 {
        32
    } else if n >= 16 {
        16
    } else if n >= 8 {
        8
    } else if n >= 4 {
        4
    } else if n >= 2 {
        2
    } else {
        1
    }
}

fn gather(repr: TypeRepr, size: u32, fields: Vec<StructField>) -> (ty: Option<Type>)
    ensures
        match (ty, gathered(repr, size as nat, field_models(fields@))) {
            (Some(ty), Some(expected)) => ty.model() == expected,
            (None, None) => true,
            _ => false,
        },
{
    let ghost all = field_models(fields@);
    if fields.len() == 0 {
        None
    } else if fields.len() == 1 {
        assert(all[0] == fields@[0].model());
        Some(fields[0].ty.clone())
    } else {
        let body = StructType { name: None, repr, size, fields };
        assert(body.model().fields =~= all);
        Some(Type::Struct(StructRef::Plain(Arc::new(body))))
    }
}

/// The fields before `to`, as they are.
fn copy_fields(fields: &Vec<StructField>, to: usize) -> (copy: Vec<StructField>)
    requires
        to <= fields@.len(),
    ensures
        field_models(copy@) == field_models(fields@).take(to as int),
{
    let ghost all = field_models(fields@);
    let mut copy: Vec<StructField> = Vec::new();
    let mut i: usize = 0;
    assert(field_models(copy@) =~= all.take(0));
    while i < to
        invariant
            i <= to <= fields@.len(),
            all == field_models(fields@),
            field_models(copy@) == all.take(i as int),
        decreases to - i,
    {
        let field = &fields[i];
        let ghost before = copy@;
        copy.push(
            StructField {
                name: share_name(&field.name),
                index: field.index,
                align: field.align,
                offset: field.offset,
                ty: field.ty.clone(),
            },
        );
        assert(field_models(copy@) =~= field_models(before).push(all[i as int]));
        assert(all.take(i + 1) =~= all.take(i as int).push(all[i as int]));
        i += 1;
    }
    copy
}

/// Appends the fields from `from` on, as they stand once the first `n` bytes are cut off.
fn move_fields(fields: &Vec<StructField>, from: usize, n: u32, target: &mut Vec<StructField>)
    requires
        from <= fields@.len(),
        old(target)@.len() <= 1,
    ensures
        field_models(final(target)@) == field_models(old(target)@) + moved(
            field_models(fields@).skip(from as int),
            n as nat,
            old(target)@.len(),
        ),
{
    let ghost kept = field_models(target@);
    let ghost first = target@.len();
    let ghost all = field_models(fields@);
    let ghost rest = moved(all.skip(from as int), n as nat, first);
    let mut index: u8 = target.len() as u8;
    let mut i: usize = from;
    assert(kept + rest.take(0) =~= kept);
    while i < fields.len()
        invariant
            from <= i <= fields@.len(),
            first <= 1,
            all == field_models(fields@),
            rest == moved(all.skip(from as int), n as nat, first),
            index == (first + i - from) as nat % 256,
            field_models(target@) == kept + rest.take(i - from),
        decreases fields@.len() - i,
    {
        let field = &fields[i];
        let ghost before = target@;
        target.push(
            StructField {
                name: share_name(&field.name),
                index,
                align: field.align,
                offset: if n <= field.offset { field.offset - n } else { 0 },
                ty: field.ty.clone(),
            },
        );
        proof {
            assert(all.skip(from as int)[i - from] == all[i as int]);
            assert(all[i as int] == field.model());
            assert(target@.last().model() =~= rest[i - from]);
            assert(field_models(target@) =~= field_models(before).push(rest[i - from]));
            assert(kept + rest.take(i - from + 1) =~= (kept + rest.take(i - from)).push(rest[i - from]));
        }
        index = if index == 255 { 0 } else { index + 1 };
        i += 1;
    }
    assert(rest.take(i - from) =~= rest);
}

/// The first field that ends at `n` or behind it.
fn find_cut(fields: &Vec<StructField>, n: u32) -> (k: usize)
    ensures
        k == cut_at(field_models(fields@), n as nat, 0),
        k <= fields@.len(),
{
    let ghost all = field_models(fields@);
    let mut i: usize = 0;
    while i < fields.len()
        invariant
            i <= fields@.len(),
            all == field_models(fields@),
            cut_at(all, n as nat, 0) == cut_at(all, n as nat, i as nat),
        decreases fields@.len() - i,
    {
        assert(all[i as int] == fields@[i as int].model());
        if fields[i].offset as u64 + size_of_type(&fields[i].ty) >= n as u64 {
            return i;
        }
        i += 1;
    }
    i
}

/// The fields before the first that ends at `n` or behind it end before `n`.
pub proof fn uncut_ends_before(fields: Seq<FieldTy>, n: nat, i: nat, j: int)
    requires
        i <= j < cut_at(fields, n, i),
    ensures
        j < fields.len(),
        end_of(fields[j]) < n,
    decreases fields.len() - i,
{
    if i < fields.len() && i < j {
        uncut_ends_before(fields, n, i + 1, j);
    }
}

/// The first field that ends at `n` or behind it does so.
pub proof fn cut_ends_behind(fields: Seq<FieldTy>, n: nat, i: nat)
    requires
        cut_at(fields, n, i) < fields.len(),
    ensures
        end_of(fields[cut_at(fields, n, i) as int]) >= n,
    decreases fields.len() - i,
{
    if i < fields.len() && end_of(fields[i as int]) < n {
        cut_ends_behind(fields, n, i + 1);
    }
}

fn find_sized(fields: &Vec<StructField>) -> (k: usize)
    ensures
        k == first_sized(field_models(fields@), 0),
        k <= fields@.len(),
{
    let ghost all = field_models(fields@);
    let mut i: usize = 0;
    while i < fields.len()
        invariant
            i <= fields@.len(),
            all == field_models(fields@),
            first_sized(all, 0) == first_sized(all, i as nat),
        decreases fields@.len() - i,
    {
        assert(all[i as int] == fields@[i as int].model());
        if !fields[i].ty.is_zst() {
            return i;
        }
        i += 1;
    }
    i
}

/// The struct that a type is, if it is one.
fn struct_body(ty: &Type) -> (body: Option<Arc<StructType>>)
    ensures
        match (body, body_of(ty.model())) {
            (Some(body), Some(expected)) => body.model() == expected,
            (None, None) => true,
            _ => false,
        },
{
    match ty {
        Type::Struct(reference) => {
            if let StructRef::Rec(rec) = reference {
                if !matches!(rec.kind(), AggregateKind::Struct) {
                    return None;
                }
            }
            Some(reference.get())
        },
        _ => None,
    }
}

// SPLITTING, EXECUTABLE
// ================================================================================================

/// Nothing but an array is larger than can be counted with 32 bits.
proof fn size_is_small(ty: Type)
    requires
        !(ty is Array),
    ensures
        bytes_of(ty.model()) <= u32::MAX,
{
    match ty {
        Type::Struct(StructRef::Plain(body)) => {
            assert(ty.model() == Ty::Struct((*body).model()));
            assert((*body).model().size == body.size);
        },
        Type::Enum(EnumRef::Plain(body)) => {
            assert(ty.model() == Ty::Enum((*body).model()));
            assert((*body).model().size == body.size);
        },
        _ => {},
    }
}

/// Cuts a type.
fn split_type(ty: &Type, n: usize, depth: usize) -> (parts: (Type, Option<Type>))
    ensures
        parts_model(parts) == split_ty(ty.model(), n as nat, depth as nat),
    decreases depth, 0nat,
{
    let size: u64 = size_of_type(ty);
    if n == 0 || size <= n as u64 {
        return (ty.clone(), None);
    }
    if depth == 0 {
        return cut_into_bytes(size, n);
    }
    if let Type::Array(array) = ty {
        return split_array(&array.ty, array.len, size, n, depth - 1);
    }
    proof {
        size_is_small(*ty);
    }
    if let Some(body) = struct_body(ty) {
        return split_struct(&body, n as u32, depth - 1);
    }
    cut_into_bytes(size, n)
}

/// Cuts a struct.
fn split_struct(body: &StructType, n: u32, depth: usize) -> (parts: (Type, Option<Type>))
    ensures
        parts_model(parts) == split_body(body.model(), n as nat, depth as nat),
    decreases depth, 1nat,
{
    let ghost fields = field_models(body.fields@);
    assert(body.model().fields =~= fields);
    if matches!(body.repr, TypeRepr::Transparent) {
        let i: usize = find_sized(&body.fields);
        if i < body.fields.len() {
            assert(fields[i as int] == body.fields@[i as int].model());
            return split_type(&body.fields[i].ty, n as usize, depth);
        }
        return cut_into_bytes(body.size as u64, n as usize);
    }
    let k: usize = find_cut(&body.fields, n);
    let left: u32 = if n <= body.size { body.size - n } else { 0 };
    if k >= body.fields.len() {
        if body.fields.len() == 0 {
            return (bytes_type(n as usize), None);
        }
        let last = &body.fields[body.fields.len() - 1];
        proof {
            assert(fields.last() == last.model());
            uncut_ends_before(fields, n as nat, 0, fields.len() - 1);
        }
        let end: u64 = last.offset as u64 + size_of_type(&last.ty);
        let all = copy_fields(&body.fields, body.fields.len());
        assert(fields.take(fields.len() as int) =~= fields);
        return (gather(body.repr, end as u32, all).unwrap(), None);
    }
    assert(fields[k as int] == body.fields@[k as int].model());
    let field = &body.fields[k];
    if field.offset >= n {
        let first = if k == 0 {
            let byte = Type::U8;
            assert(byte.model() == Ty::Scalar(Scalar::U8));
            Type::Array(Arc::new(ArrayType { ty: byte, len: n as usize }))
        } else {
            gather(body.repr, n, copy_fields(&body.fields, k)).unwrap()
        };
        let mut rest: Vec<StructField> = Vec::new();
        move_fields(&body.fields, k, n, &mut rest);
        assert(field_models(rest@) =~= moved(fields.skip(k as int), n as nat, 0));
        let repr = if field.offset == n { TypeRepr::Default } else { repr_behind(field.offset - n, &rest) };
        return (first, gather(repr, left, rest));
    }
    if field.offset as u64 + size_of_type(&field.ty) == n as u64 {
        let first = gather(body.repr, n, copy_fields(&body.fields, k + 1)).unwrap();
        let mut rest: Vec<StructField> = Vec::new();
        move_fields(&body.fields, k + 1, n, &mut rest);
        assert(field_models(rest@) =~= moved(fields.skip(k + 1), n as nat, 0));
        return (first, gather(body.repr, left, rest));
    }
    let (front, back) = split_type(&field.ty, (n - field.offset) as usize, depth);
    let ghost cut = FieldTy { name: None, ty: front.model(), ..fields[k as int] };
    let mut firsts = copy_fields(&body.fields, k);
    let ghost before = firsts@;
    firsts.push(StructField { name: None, index: field.index, align: field.align, offset: field.offset, ty: front });
    assert(firsts@.last().model() =~= cut);
    assert(field_models(firsts@) =~= fields.take(k as int).push(cut)) by {
        assert(field_models(firsts@) =~= field_models(before).push(cut));
    }
    let first = gather(body.repr, n, firsts).unwrap();
    let mut rest: Vec<StructField> = Vec::new();
    match back {
        None => {
            move_fields(&body.fields, k + 1, n, &mut rest);
            assert(field_models(rest@) =~= moved(fields.skip(k + 1), n as nat, 0));
        },
        Some(back) => {
            let ghost head = FieldTy { name: None, index: 0, align: 1, offset: 0, ty: back.model() };
            rest.push(StructField { name: None, index: 0, align: 1, offset: 0, ty: back });
            assert(rest@[0].model() =~= head);
            assert(field_models(rest@) =~= seq![head]);
            move_fields(&body.fields, k + 1, n, &mut rest);
        },
    }
    (first, gather(TypeRepr::Packed(1), left, rest))
}

fn repr_behind(padding: u32, fields: &Vec<StructField>) -> (repr: TypeRepr)
    ensures
        repr == padded_repr(padding as nat, field_models(fields@)),
{
    let effective: u16 = alignment_up_to(padding);
    let whole = StructType {
        name: None,
        repr: TypeRepr::Default,
        size: 0,
        fields: copy_fields(fields, fields.len()),
    };
    assert(field_models(fields@).take(fields@.len() as int) =~= field_models(fields@));
    assert(whole.model().fields =~= field_models(fields@));
    let natural: u64 = whole.min_alignment();
    if natural == effective as u64 {
        TypeRepr::Default
    } else if natural > effective as u64 {
        TypeRepr::Packed(effective)
    } else {
        TypeRepr::Align(effective)
    }
}

/// Cuts an array.
fn split_array(element: &Type, len: usize, size: u64, n: usize, depth: usize) -> (parts: (Type, Option<Type>))
    requires
        size == bytes_of(Ty::Array(Box::new(element.model()), len as nat)),
    ensures
        parts_model(parts) == split_run(element.model(), len as nat, n as nat, depth as nat),
    decreases depth, 1nat,
{
    if len == 1 {
        return split_type(element, n, depth);
    }
    let stride: u64 = stride(element);
    if stride == 0 {
        return cut_into_bytes(size, n);
    }
    let taken: usize = (n as u64 / stride) as usize;
    let extra: usize = (n as u64 % stride) as usize;
    proof {
        quotient_fits(n as nat, stride as nat);
    }
    if extra == 0 {
        return (run_type(element, taken), Some(run_type(element, if taken <= len { len - taken } else { 0 })));
    }
    assert(taken < n);
    let left: usize = if taken < len { len - taken - 1 } else { 0 };
    if extra as u64 >= size_of_type(element) {
        return (run_type(element, taken + 1), Some(run_type(element, left)));
    }
    let (front, back) = split_type(element, extra, depth);
    let first = if taken == 0 {
        Some(front)
    } else {
        pair_type(Type::Array(Arc::new(ArrayType { ty: element.clone(), len: taken })), front)
    };
    let rest = match back {
        None => if left == 0 {
            Some(None)
        } else {
            Some(Some(run_type(element, left)))
        },
        Some(back) => if left == 0 {
            Some(Some(back))
        } else {
            match pair_type(back, run_type(element, left)) {
                None => None,
                Some(pair) => Some(Some(pair)),
            }
        },
    };
    match (first, rest) {
        (Some(first), Some(rest)) => (first, rest),
        _ => cut_into_bytes(size, n),
    }
}

proof fn quotient_fits(n: nat, stride: nat)
    requires
        stride > 0,
    ensures
        n / stride <= n,
        n % stride <= n,
        n % stride > 0 ==> n / stride < n,
{
    assert(n / stride <= n) by (nonlinear_arith)
        requires
            stride > 0,
    ;
    assert(n % stride <= n && n == stride * (n / stride) + n % stride) by (nonlinear_arith)
        requires
            stride > 0,
    ;
    assert(n % stride > 0 ==> n / stride < n) by (nonlinear_arith)
        requires
            stride > 0,
            n == stride * (n / stride) + n % stride,
            n / stride <= n,
    ;
}

impl Type {
    /// Splits this type into two parts. The first is no more than `n` bytes in size, and is the type
    /// itself if it fits. The second is what is left, if there is data left: it preserves the
    /// structure of the type to the extent possible, and falls back to an array of bytes where a
    /// larger type must be split down the middle.
    ///
    /// A recursive struct is split as its unfolding is.
    pub fn split(&self, n: usize) -> (parts: (Type, Option<Type>))
        requires
            bits_of(self.model()) is Some,
        ensures
            parts_model(parts) == split_ty(self.model(), n as nat, MAX_DEPTH as nat),
    {
        split_type(self, n, MAX_DEPTH)
    }

    /// The types of the parts that represent this type on the operand stack, each of at most 32
    /// bits, if its representation is known.
    ///
    /// A recursive struct has the same parts as its unfolding.
    pub fn to_raw_parts(&self) -> (parts: Option<Vec<Type>>)
        requires
            bits_of(self.model()) is Some,
        ensures
            match parts {
                Some(parts) => {
                    &&& self.model() != Ty::Scalar(Scalar::Unknown)
                    &&& models(parts@) == raw_parts(self.model(), usize::MAX as nat)
                },
                None => self.model() == Ty::Scalar(Scalar::Unknown),
            },
    {
        if let Type::Unknown = self {
            return None;
        }
        let ghost all = raw_parts(self.model(), usize::MAX as nat);
        let mut parts: Vec<Type> = Vec::new();
        let mut limit: usize = usize::MAX;
        let mut current = self.clone();
        assert(models(parts@) + all =~= all);
        loop
            invariant_except_break
                all == models(parts@) + raw_parts(current.model(), limit as nat),
            ensures
                models(parts@) == all,
            decreases limit,
        {
            let ghost before = models(parts@);
            let (part, rest) = split_type(&current, PART_SIZE, MAX_DEPTH);
            let ghost head = part.model();
            parts.push(part);
            assert(models(parts@) =~= before.push(head));
            match rest {
                None => {
                    assert(models(parts@) =~= all);
                    break;
                },
                Some(rest) => {
                    if limit == 0 {
                        let ghost last = rest.model();
                        parts.push(rest);
                        assert(models(parts@) =~= before.push(head).push(last));
                        assert(models(parts@) =~= all);
                        break;
                    }
                    limit -= 1;
                    current = rest;
                    assert(all =~= models(parts@) + raw_parts(current.model(), limit as nat));
                },
            }
        }
        Some(parts)
    }
}

// LAWS
// ================================================================================================

/// Bytes take as many bytes as there are.
proof fn bytes_fit(n: nat)
    ensures
        bytes_of(bytes_ty(n)) <= n,
        bytes_of(Ty::Array(Box::new(Ty::Scalar(Scalar::U8)), n)) <= n,
{
    let byte = Ty::Scalar(Scalar::U8);
    assert(bits_of(byte) == Some(8nat));
    assert(align_of(byte) == 1);
    assert(align_up(8, 8) == 8);
    if n > 0 {
        assert(array_bits(8, 1, n) == 8 * n) by {
            assert(8 + 8 * ((n - 1) as nat) == 8 * n) by (nonlinear_arith)
                requires
                    n > 0,
            ;
        }
    }
}

/// Some elements of an array take no more bytes than there are from the first to behind the last.
proof fn runs_fit(element: Ty, k: nat)
    requires
        k >= 1,
    ensures
        bytes_of(element) <= stride_of(element),
        bytes_of(Ty::Array(Box::new(element), k)) <= bytes_of(element) + stride_of(element) * (k - 1),
        bytes_of(run_ty(element, k)) <= bytes_of(element) + stride_of(element) * (k - 1),
{
    if let Some(bits) = bits_of(element) {
        let align = align_of(element) * 8;
        let up = align_up(bits, align as nat);
        assert(up >= bits) by {
            if align > 0 {
                assert(0 <= bits % (align as nat) < align);
            }
        }
        let stride = stride_of(element);
        assert(up <= 8 * stride);
        let j = (k - 1) as nat;
        assert(up * j <= 8 * (stride * j)) by (nonlinear_arith)
            requires
                up <= 8 * stride,
        ;
        assert(array_bits(bits, align_of(element), k) == bits + up * j);
    }
    assert(stride_of(element) * 0 == 0);
    assert(stride_of(element) * (k - 1) >= 0) by (nonlinear_arith)
        requires
            stride_of(element) >= 0,
            k >= 1,
    ;
}

/// Two types with a layout make a pair, if it is not too large.
pub proof fn pair_is_valid(first: Ty, second: Ty)
    requires
        bits_of(first) is Some,
        bits_of(second) is Some,
        is_alignment(align_of(first)),
        is_alignment(align_of(second)),
        bytes_of(first) + bytes_of(second) <= u32::MAX,
    ensures
        pair_ty(first, second) is Some,
{
    let parts = seq![PartTy { name: None, ty: first }, PartTy { name: None, ty: second }];
    let repr = TypeRepr::Packed(1);
    assert(parts[0].ty == first && parts[1].ty == second);
    assert(fields_end(repr, parts, 0) == 0);
    assert(field_offset(repr, parts, 0) == 0);
    assert(fields_end(repr, parts, 1) == bytes_of(first));
    assert(field_offset(repr, parts, 1) == bytes_of(first)) by {
        assert(bytes_of(first) % 1 == 0);
    }
    assert(fields_end(repr, parts, 2) == bytes_of(first) + bytes_of(second));
    let end = fields_end(repr, parts, 2);
    assert(whole_align(repr, parts) <= 1);
    assert(align_up(end, whole_align(repr, parts)) == end) by {
        assert(end % 1 == 0);
    }
    assert(struct_size(repr, parts) == end);
    assert(struct_valid(repr, parts));
}

/// A pair takes as many bytes as its parts.
pub proof fn pairs_fit(first: Ty, second: Ty)
    ensures
        pair_ty(first, second) matches Some(pair) ==> bytes_of(Ty::Struct(pair)) == bytes_of(first) + bytes_of(second),
{
    let parts = seq![PartTy { name: None, ty: first }, PartTy { name: None, ty: second }];
    let repr = TypeRepr::Packed(1);
    if struct_valid(repr, parts) {
        assert(parts[0].ty == first && parts[1].ty == second);
        assert(fields_end(repr, parts, 0) == 0);
        assert(field_offset(repr, parts, 0) == 0);
        assert(fields_end(repr, parts, 1) == bytes_of(first));
        assert(field_offset(repr, parts, 1) == bytes_of(first)) by {
            assert(bytes_of(first) % 1 == 0);
        }
        assert(fields_end(repr, parts, 2) == bytes_of(first) + bytes_of(second));
        assert(whole_align(repr, parts) <= 1);
        let end = fields_end(repr, parts, 2);
        assert(align_up(end, whole_align(repr, parts)) == end) by {
            assert(end % 1 == 0);
        }
        assert(struct_size(repr, parts) == end);
    }
}

/// The first part is no more than `n` bytes in size.
pub proof fn first_part_fits(ty: Ty, n: nat, depth: nat)
    requires
        n > 0,
    ensures
        bytes_of(split_ty(ty, n, depth).0) <= n,
    decreases depth, 0nat,
{
    bytes_fit(n);
    if bytes_of(ty) > n && depth > 0 {
        match body_of(ty) {
            Some(body) => first_of_body_fits(body, n, (depth - 1) as nat),
            None => match ty {
                Ty::Array(element, len) => first_of_run_fits(*element, len, n, (depth - 1) as nat),
                _ => {},
            },
        }
    }
}

proof fn first_of_body_fits(body: StructTy, n: nat, depth: nat)
    requires
        n > 0,
    ensures
        bytes_of(split_body(body, n, depth).0) <= n,
    decreases depth, 1nat,
{
    bytes_fit(n);
    let fields = body.fields;
    if body.repr is Transparent {
        let i = first_sized(fields, 0);
        if i < fields.len() {
            first_part_fits(fields[i as int].ty, n, depth);
        }
    } else {
        let k = cut_at(fields, n, 0) as int;
        if k >= fields.len() {
            if fields.len() > 0 {
                uncut_ends_before(fields, n, 0, fields.len() - 1);
            }
        } else {
            cut_ends_behind(fields, n, 0);
            if k > 0 {
                uncut_ends_before(fields, n, 0, 0);
            }
            if fields[k].offset < n && end_of(fields[k]) > n {
                first_part_fits(fields[k].ty, (n - fields[k].offset) as nat, depth);
            }
        }
    }
}

proof fn first_of_run_fits(element: Ty, len: nat, n: nat, depth: nat)
    requires
        n > 0,
    ensures
        bytes_of(split_run(element, len, n, depth).0) <= n,
    decreases depth, 1nat,
{
    bytes_fit(n);
    let stride = stride_of(element);
    if len == 1 {
        first_part_fits(element, n, depth);
    } else if stride > 0 {
        let (taken, extra) = (n / stride, n % stride);
        assert(n == stride * taken + extra) by (nonlinear_arith)
            requires
                stride > 0,
                taken == n / stride,
                extra == n % stride,
        ;
        assert(taken >= 1 ==> stride * taken == stride + stride * (taken - 1)) by (nonlinear_arith);
        if taken >= 1 {
            runs_fit(element, taken);
        }
        runs_fit(element, taken + 1);
        if extra == 0 {
            assert(taken >= 1) by (nonlinear_arith)
                requires
                    n > 0,
                    n == stride * taken,
            ;
        } else if extra < bytes_of(element) {
            first_part_fits(element, extra, depth);
            let front = split_ty(element, extra, depth).0;
            if taken > 0 {
                pairs_fit(Ty::Array(Box::new(element), taken), front);
            }
        }
    }
}

/// Every part that represents a type on the operand stack has at most 32 bits.
pub proof fn raw_parts_fit(ty: Ty, limit: nat, i: int)
    requires
        0 <= i <= limit,
        i < raw_parts(ty, limit).len(),
    ensures
        bytes_of(raw_parts(ty, limit)[i]) <= PART_SIZE,
    decreases limit,
{
    first_part_fits(ty, PART_SIZE as nat, MAX_DEPTH as nat);
    if i > 0 {
        let rest = split_ty(ty, PART_SIZE as nat, MAX_DEPTH as nat).1->0;
        raw_parts_fit(rest, (limit - 1) as nat, i - 1);
    }
}

/// A recursive struct that does not fit is split as its unfolding is, wherever the two have the same
/// size.
pub proof fn recursive_structs_split_as_unfolded(defs: Seq<DefTy>, slot: nat, n: nat, depth: nat)
    requires
        slot < defs.len(),
        defs[slot as int].kind is Struct,
        bytes_of(Ty::RecStruct(defs, slot)) == bytes_of(
            Ty::Struct(unfold_struct(defs[slot as int].body->Struct_0, defs)),
        ),
        0 < n < bytes_of(Ty::RecStruct(defs, slot)),
        depth > 0,
    ensures
        split_ty(Ty::RecStruct(defs, slot), n, depth) == split_ty(
            Ty::Struct(unfold_struct(defs[slot as int].body->Struct_0, defs)),
            n,
            depth,
        ),
{
}

/// A built recursive struct that does not fit is split as the struct that its definition describes is.
pub proof fn built_structs_split_as_defined(
    defs: Seq<DefTpl>,
    types: Map<Seq<char>, Ty>,
    m: usize,
    n: nat,
    depth: nat,
)
    requires
        defs.len() <= usize::MAX,
        build_outcome(defs, Ok(types)),
        m < defs.len(),
        defs[m as int].body is Struct,
        types[defs[m as int].name] is RecStruct,
        0 < n < bytes_of(types[defs[m as int].name]),
        depth > 0,
    ensures
        close(defs[m as int].body, types) matches Ok(described) && split_ty(types[defs[m as int].name], n, depth)
            == split_ty(described, n, depth),
{
    built_types_are_their_definitions(defs, types, m);
    if let Ty::RecStruct(group, slot) = types[defs[m as int].name] {
        recursive_structs_split_as_unfolded(group, slot, n, depth);
    }
}

/// A recursive struct that takes more than one part is represented by the same parts as its
/// unfolding, wherever the two have the same size.
pub proof fn recursive_structs_lower_as_unfolded(defs: Seq<DefTy>, slot: nat, limit: nat)
    requires
        slot < defs.len(),
        defs[slot as int].kind is Struct,
        bytes_of(Ty::RecStruct(defs, slot)) == bytes_of(
            Ty::Struct(unfold_struct(defs[slot as int].body->Struct_0, defs)),
        ),
        bytes_of(Ty::RecStruct(defs, slot)) > PART_SIZE,
    ensures
        raw_parts(Ty::RecStruct(defs, slot), limit) == raw_parts(
            Ty::Struct(unfold_struct(defs[slot as int].body->Struct_0, defs)),
            limit,
        ),
{
    recursive_structs_split_as_unfolded(defs, slot, PART_SIZE as nat, MAX_DEPTH as nat);
}

} // verus!
