//! Cutting a type loses no data: every byte of it is in one of the parts, in order.
use vstd::prelude::*;

use crate::aggregates::{repr_valid, PartTy};
use crate::layout::{
    align_of, align_up, array_bits, bits_of, bytes_of, field_aligns, is_alignment, largest, struct_align,
};
use crate::lowering::{
    alignment_below, body_of, bytes_ty, cut_at, cut_ends_behind, end_of, first_part_fits, first_sized, gathered, minus,
    moved, padded_repr, pair_is_valid, pair_ty, pairs_fit, raw_parts, run_ty, split_body, split_run, split_ty,
    stride_of, uncut_ends_before,
};
use crate::types::{FieldTy, Scalar, StructTy, Ty, TypeRepr};

verus! {

// DATA
// ================================================================================================

/// A byte of a value: that at a place of something that is neither a struct nor an array.
#[verifier::ext_equal]
pub struct Byte {
    pub atom: Ty,
    pub place: nat,
}

/// The bytes of some copies of something.
pub open spec fn repeated(bytes: Seq<Byte>, n: nat) -> Seq<Byte>
    decreases n,
{
    if n == 0 {
        Seq::empty()
    } else {
        repeated(bytes, (n - 1) as nat) + bytes
    }
}

/// The bytes of a value of a type in order, without padding, where structs and arrays are nested no
/// deeper than `depth`.
pub open spec fn data(ty: Ty, depth: nat) -> Seq<Byte>
    decreases depth, 0nat,
{
    if depth == 0 {
        Seq::empty()
    } else {
        match body_of(ty) {
            Some(body) => data_of_fields(body.fields, body.fields.len(), (depth - 1) as nat),
            None => match ty {
                Ty::Array(element, len) => repeated(data(*element, (depth - 1) as nat), len),
                _ => Seq::new(bytes_of(ty), |i: int| Byte { atom: ty, place: i as nat }),
            },
        }
    }
}

/// The bytes of the first `n` fields.
pub open spec fn data_of_fields(fields: Seq<FieldTy>, n: nat, depth: nat) -> Seq<Byte>
    decreases depth, n + 1,
{
    if n == 0 || n > fields.len() {
        Seq::empty()
    } else {
        data_of_fields(fields, (n - 1) as nat, depth) + data(fields[n - 1].ty, depth)
    }
}

/// The bytes of what is left, if anything is.
pub open spec fn data_of_rest(rest: Option<Ty>, depth: nat) -> Seq<Byte> {
    match rest {
        None => Seq::empty(),
        Some(ty) => data(ty, depth),
    }
}

/// Structs and arrays are nested no deeper than `depth`.
pub open spec fn finite(ty: Ty, depth: nat) -> bool
    decreases depth,
{
    &&& depth > 0
    &&& match body_of(ty) {
        Some(body) => forall|i: int|
            0 <= i < body.fields.len() ==> finite((#[trigger] body.fields[i]).ty, (depth - 1) as nat),
        None => match ty {
            Ty::Array(element, _) => finite(*element, (depth - 1) as nat),
            _ => true,
        },
    }
}

/// The type has a size and an alignment.
pub open spec fn has_layout(ty: Ty) -> bool {
    bits_of(ty) is Some && is_alignment(align_of(ty))
}

/// The fields of a struct stand where its layout says: from the start on, one behind the other, within
/// its size.
pub open spec fn fields_in_place(body: StructTy) -> bool {
    &&& repr_valid(body.repr)
    &&& body.size <= u32::MAX
    &&& forall|i: int|
        0 <= i < body.fields.len() ==> has_layout((#[trigger] body.fields[i]).ty) && is_alignment(
            body.fields[i].align,
        )
    &&& forall|i: int, j: int|
        0 <= i < j < body.fields.len() ==> end_of(#[trigger] body.fields[i]) <= (#[trigger] body.fields[j]).offset
    &&& forall|i: int| 0 <= i < body.fields.len() ==> end_of(#[trigger] body.fields[i]) <= body.size
    &&& body.fields.len() == 0 ==> body.size == 0
    &&& body.fields.len() > 0 ==> body.fields[0].offset == 0
    &&& body.repr is Transparent ==> {
        let k = first_sized(body.fields, 0) as int;
        &&& k >= body.fields.len() ==> body.size == 0
        &&& k < body.fields.len() ==> bytes_of(body.fields[k].ty) == body.size && body.fields[k].offset == 0
        &&& forall|i: int| 0 <= i < body.fields.len() && i != k ==> bytes_of((#[trigger] body.fields[i]).ty) == 0
    }
}

/// The type is laid out as types are, at every level.
pub open spec fn laid_out(ty: Ty, depth: nat) -> bool
    decreases depth,
{
    &&& depth > 0
    &&& has_layout(ty)
    &&& bytes_of(ty) <= u32::MAX
    &&& match body_of(ty) {
        Some(body) => {
            &&& bytes_of(ty) == body.size
            &&& fields_in_place(body)
            &&& forall|i: int|
                0 <= i < body.fields.len() ==> laid_out((#[trigger] body.fields[i]).ty, (depth - 1) as nat)
        },
        None => match ty {
            Ty::Array(element, _) => laid_out(*element, (depth - 1) as nat),
            _ => true,
        },
    }
}

proof fn laid_out_is_finite(ty: Ty, depth: nat)
    requires
        laid_out(ty, depth),
    ensures
        finite(ty, depth),
    decreases depth,
{
    match body_of(ty) {
        Some(body) => {
            assert forall|i: int| 0 <= i < body.fields.len() implies finite(
                (#[trigger] body.fields[i]).ty,
                (depth - 1) as nat,
            ) by {
                laid_out_is_finite(body.fields[i].ty, (depth - 1) as nat);
            }
        },
        None => match ty {
            Ty::Array(element, _) => laid_out_is_finite(*element, (depth - 1) as nat),
            _ => {},
        },
    }
}

/// How deep one looks does not matter, once it is deep enough.
proof fn data_is_stable(ty: Ty, d: nat, e: nat)
    requires
        finite(ty, d),
        d <= e,
    ensures
        finite(ty, e),
        data(ty, e) == data(ty, d),
    decreases d, 0nat,
{
    match body_of(ty) {
        Some(body) => {
            assert forall|i: int| 0 <= i < body.fields.len() implies finite(
                (#[trigger] body.fields[i]).ty,
                (e - 1) as nat,
            ) by {
                data_is_stable(body.fields[i].ty, (d - 1) as nat, (e - 1) as nat);
            }
            data_of_fields_is_stable(body.fields, body.fields.len(), (d - 1) as nat, (e - 1) as nat);
        },
        None => match ty {
            Ty::Array(element, _) => data_is_stable(*element, (d - 1) as nat, (e - 1) as nat),
            _ => {},
        },
    }
}

proof fn data_of_fields_is_stable(fields: Seq<FieldTy>, n: nat, d: nat, e: nat)
    requires
        forall|i: int| 0 <= i < fields.len() ==> finite((#[trigger] fields[i]).ty, d),
        n <= fields.len(),
        d <= e,
    ensures
        data_of_fields(fields, n, e) == data_of_fields(fields, n, d),
    decreases d, n + 1,
{
    if n > 0 {
        data_of_fields_is_stable(fields, (n - 1) as nat, d, e);
        assert(finite(fields[n - 1].ty, d));
        data_is_stable(fields[n - 1].ty, d, e);
    }
}

/// Nothing but the types of fields counts.
proof fn data_of_same_types(a: Seq<FieldTy>, b: Seq<FieldTy>, n: nat, d: nat)
    requires
        n <= a.len(),
        n <= b.len(),
        forall|i: int| 0 <= i < n ==> (#[trigger] a[i]).ty == b[i].ty,
    ensures
        data_of_fields(a, n, d) == data_of_fields(b, n, d),
    decreases n,
{
    if n > 0 {
        data_of_same_types(a, b, (n - 1) as nat, d);
        assert(a[n - 1].ty == b[n - 1].ty);
    }
}

/// Fields that follow others.
proof fn data_of_more_fields(a: Seq<FieldTy>, b: Seq<FieldTy>, n: nat, d: nat)
    requires
        n <= b.len(),
    ensures
        data_of_fields(a + b, a.len() + n, d) == data_of_fields(a, a.len(), d) + data_of_fields(b, n, d),
    decreases n,
{
    let all = a + b;
    if n > 0 {
        data_of_more_fields(a, b, (n - 1) as nat, d);
        assert(all[a.len() + n - 1] == b[n - 1]);
        assert(data_of_fields(all, a.len() + n, d) =~= data_of_fields(a, a.len(), d) + data_of_fields(b, n, d));
    } else {
        data_of_same_types(all, a, a.len(), d);
        assert(data_of_fields(all, a.len(), d) =~= data_of_fields(a, a.len(), d) + Seq::<Byte>::empty());
    }
}

/// The bytes of some fields, and of the others.
proof fn data_of_fields_splits(fields: Seq<FieldTy>, k: int, d: nat)
    requires
        0 <= k <= fields.len(),
    ensures
        data_of_fields(fields, fields.len(), d) == data_of_fields(fields.take(k), k as nat, d) + data_of_fields(
            fields.skip(k),
            (fields.len() - k) as nat,
            d,
        ),
{
    assert(fields =~= fields.take(k) + fields.skip(k));
    data_of_more_fields(fields.take(k), fields.skip(k), (fields.len() - k) as nat, d);
}

proof fn repeated_more(bytes: Seq<Byte>, a: nat, b: nat)
    ensures
        repeated(bytes, a + b) == repeated(bytes, a) + repeated(bytes, b),
    decreases b,
{
    if b > 0 {
        repeated_more(bytes, a, (b - 1) as nat);
        assert(repeated(bytes, a + b) =~= repeated(bytes, a) + repeated(bytes, b));
    } else {
        assert(repeated(bytes, a) =~= repeated(bytes, a) + Seq::<Byte>::empty());
    }
}

proof fn repeated_len(bytes: Seq<Byte>, n: nat)
    ensures
        repeated(bytes, n).len() == n * bytes.len(),
    decreases n,
{
    if n > 0 {
        repeated_len(bytes, (n - 1) as nat);
        assert((n - 1) * bytes.len() + bytes.len() == n * bytes.len()) by (nonlinear_arith)
            requires
                n > 0,
        ;
    } else {
        assert(0 * bytes.len() == 0);
    }
}

// WHAT CUTTING KEEPS
// ================================================================================================

/// A byte of which nothing is known.
pub open spec fn bare_byte() -> Byte {
    Byte { atom: Ty::Scalar(Scalar::U8), place: 0 }
}

/// The parts hold every byte of the whole, in order, where `cut` of them are in the first: each is what
/// it was, but for those of the one thing that is cut through, of which nothing is known.
pub open spec fn keeps_data(parts: Seq<Byte>, whole: Seq<Byte>, cut: nat) -> bool {
    &&& parts.len() == whole.len()
    &&& cut <= whole.len()
    &&& forall|i: int|
        0 <= i < whole.len() ==> #[trigger] parts[i] == whole[i] || {
            &&& parts[i] == bare_byte()
            &&& i - whole[i].place < cut < i - whole[i].place + bytes_of(whole[i].atom)
        }
}

proof fn keeps_all(whole: Seq<Byte>, cut: nat)
    requires
        cut <= whole.len(),
    ensures
        keeps_data(whole, whole, cut),
{
}

/// What is kept of a piece is kept of the whole.
proof fn keeps_around(before: Seq<Byte>, parts: Seq<Byte>, whole: Seq<Byte>, cut: nat, after: Seq<Byte>)
    requires
        keeps_data(parts, whole, cut),
    ensures
        keeps_data(before + parts + after, before + whole + after, before.len() + cut),
{
    let (p, w) = (before + parts + after, before + whole + after);
    assert forall|i: int| 0 <= i < w.len() implies #[trigger] p[i] == w[i] || {
        &&& p[i] == bare_byte()
        &&& i - w[i].place < before.len() + cut < i - w[i].place + bytes_of(w[i].atom)
    } by {
        if before.len() <= i < before.len() + whole.len() {
            let j = i - before.len();
            assert(p[i] == parts[j] && w[i] == whole[j]);
        }
    }
}

/// The number of bytes of data that stand before the `n`-th byte of a value.
pub open spec fn data_before(ty: Ty, n: nat, depth: nat) -> nat
    decreases depth, 0nat,
{
    if n >= bytes_of(ty) {
        data(ty, depth).len()
    } else if depth == 0 {
        0
    } else {
        match body_of(ty) {
            Some(body) => fields_before(body.fields, body.fields.len(), n, (depth - 1) as nat),
            None => match ty {
                Ty::Array(element, _) => {
                    let stride = stride_of(*element);
                    (n / stride) * data(*element, (depth - 1) as nat).len() + data_before(
                        *element,
                        n % stride,
                        (depth - 1) as nat,
                    )
                },
                _ => n,
            },
        }
    }
}

/// The number of bytes of data of the first `k` fields that stand before the `n`-th byte of a struct.
pub open spec fn fields_before(fields: Seq<FieldTy>, k: nat, n: nat, depth: nat) -> nat
    decreases depth, k + 1,
{
    if k == 0 || k > fields.len() {
        0
    } else {
        fields_before(fields, (k - 1) as nat, n, depth) + data_before(
            fields[k - 1].ty,
            minus(n, fields[k - 1].offset),
            depth,
        )
    }
}

// SIZES
// ================================================================================================

/// Some elements of an array take as many bytes as there are from the first to behind the last.
proof fn run_bytes(element: Ty, k: nat)
    requires
        k >= 1,
        is_alignment(align_of(element)),
        bits_of(Ty::Array(Box::new(element), k)) is Some,
    ensures
        bytes_of(element) <= stride_of(element),
        bytes_of(Ty::Array(Box::new(element), k)) == bytes_of(element) + stride_of(element) * (k - 1),
        bytes_of(run_ty(element, k)) == bytes_of(element) + stride_of(element) * (k - 1),
        bits_of(element) is Some,
        forall|j: nat| 1 <= j <= k ==> bits_of(#[trigger] run_ty(element, j)) is Some,
        forall|j: nat| 1 <= j <= k ==> (#[trigger] bits_of(Ty::Array(Box::new(element), j))) is Some,
{
    let bits = bits_of(element)->0;
    let align = align_of(element);
    let a = align * 8;
    let up = align_up(bits, a);
    let (q, r) = (bits / a, bits % a);
    assert(bits == a * q + r && 0 <= r < a) by (nonlinear_arith)
        requires
            a > 0,
            q == bits / a,
            r == bits % a,
    ;
    let m: nat = if r == 0 {
        align * q
    } else {
        align * (q + 1)
    };
    assert(up == 8 * m) by (nonlinear_arith)
        requires
            a == align * 8,
            bits == a * q + r,
            r == 0 ==> up == bits && m == align * q,
            r != 0 ==> up == bits + (a - r) && m == align * (q + 1),
    ;
    let stride = stride_of(element);
    assert(stride == m);
    assert forall|j: nat| 1 <= j <= k implies array_bits(bits, align, j) == bits + 8 * (stride * (j - 1)) && array_bits(
        bits,
        align,
        j,
    ) <= array_bits(bits, align, k) by {
        assert(up * ((j - 1) as nat) == 8 * (stride * (j - 1))) by (nonlinear_arith)
            requires
                up == 8 * stride,
                j >= 1,
        ;
        assert(stride * (j - 1) <= stride * (k - 1)) by (nonlinear_arith)
            requires
                1 <= j <= k,
        ;
        assert(up * ((k - 1) as nat) == 8 * (stride * (k - 1))) by (nonlinear_arith)
            requires
                up == 8 * stride,
                k >= 1,
        ;
    }
    assert(array_bits(bits, align, k) == bits + 8 * (stride * (k - 1)));
    assert forall|j: nat| 1 <= j <= k implies (#[trigger] bits_of(Ty::Array(Box::new(element), j))) is Some by {
        assert(array_bits(bits, align, j) <= array_bits(bits, align, k));
    }
    assert forall|j: nat| 1 <= j <= k implies bits_of(#[trigger] run_ty(element, j)) is Some by {
        assert(bits_of(Ty::Array(Box::new(element), j)) is Some);
    }
    assert(stride * 0 == 0);
}

/// There is no more data than there are bytes.
proof fn data_fits(ty: Ty, d: nat)
    requires
        laid_out(ty, d),
    ensures
        data(ty, d).len() <= bytes_of(ty),
    decreases d, 0nat,
{
    match body_of(ty) {
        Some(body) => {
            data_of_fields_fits(body, body.fields.len(), (d - 1) as nat);
        },
        None => match ty {
            Ty::Array(element, len) => {
                data_fits(*element, (d - 1) as nat);
                repeated_len(data(*element, (d - 1) as nat), len);
                if len > 0 {
                    assert(ty == Ty::Array(Box::new(*element), len));
                    run_bytes(*element, len);
                    let (x, z, s) = (data(*element, (d - 1) as nat).len(), bytes_of(*element), stride_of(*element));
                    assert(len * x <= z + s * (len - 1)) by (nonlinear_arith)
                        requires
                            x <= z <= s,
                            len >= 1,
                    ;
                } else {
                    assert(0 * data(*element, (d - 1) as nat).len() == 0);
                }
            },
            _ => {},
        },
    }
}

proof fn data_of_fields_fits(body: StructTy, n: nat, d: nat)
    requires
        fields_in_place(body),
        forall|i: int| 0 <= i < body.fields.len() ==> laid_out((#[trigger] body.fields[i]).ty, d),
        n <= body.fields.len(),
    ensures
        n == 0 ==> data_of_fields(body.fields, n, d).len() == 0,
        n > 0 ==> data_of_fields(body.fields, n, d).len() <= end_of(body.fields[n - 1]),
        data_of_fields(body.fields, n, d).len() <= body.size,
    decreases d, n + 1,
{
    if n > 0 {
        data_of_fields_fits(body, (n - 1) as nat, d);
        assert(laid_out(body.fields[n - 1].ty, d));
        data_fits(body.fields[n - 1].ty, d);
        if n > 1 {
            assert(end_of(body.fields[n - 2]) <= body.fields[n - 1].offset);
        }
        assert(end_of(body.fields[n - 1]) <= body.size);
    }
}

/// Nothing stands before the start.
proof fn none_before_start(ty: Ty, d: nat)
    requires
        laid_out(ty, d),
    ensures
        data_before(ty, 0, d) == 0,
    decreases d, 0nat,
{
    data_fits(ty, d);
    if bytes_of(ty) > 0 {
        match body_of(ty) {
            Some(body) => {
                no_fields_before_start(body.fields, body.fields.len(), 0, (d - 1) as nat);
            },
            None => match ty {
                Ty::Array(element, len) => {
                    none_before_start(*element, (d - 1) as nat);
                    assert(ty == Ty::Array(Box::new(*element), len));
                    run_bytes(*element, len);
                    assert(stride_of(*element) > 0) by {
                        if stride_of(*element) == 0 {
                            assert(0 * (len - 1) == 0);
                        }
                    }
                    assert(0nat / stride_of(*element) == 0 && 0nat % stride_of(*element) == 0) by (nonlinear_arith)
                        requires
                            stride_of(*element) > 0,
                    ;
                    assert(0 * data(*element, (d - 1) as nat).len() == 0);
                },
                _ => {},
            },
        }
    }
}

proof fn no_fields_before_start(fields: Seq<FieldTy>, k: nat, n: nat, d: nat)
    requires
        k <= fields.len(),
        forall|i: int| 0 <= i < k ==> laid_out((#[trigger] fields[i]).ty, d) && n <= fields[i].offset,
    ensures
        fields_before(fields, k, n, d) == 0,
    decreases d, k + 1,
{
    if k > 0 {
        no_fields_before_start(fields, (k - 1) as nat, n, d);
        assert(laid_out(fields[k - 1].ty, d) && n <= fields[k - 1].offset);
        none_before_start(fields[k - 1].ty, d);
    }
}

// PIECES
// ================================================================================================

/// Something of `n` bytes of which nothing is known.
proof fn bare_bytes(n: nat, e: nat)
    requires
        n <= u32::MAX,
        e >= 2,
    ensures
        finite(bytes_ty(n), e),
        has_layout(bytes_ty(n)),
        data(bytes_ty(n), e) == Seq::new(n, |i: int| bare_byte()),
        bytes_of(bytes_ty(n)) == n,
{
    let byte = Ty::Scalar(Scalar::U8);
    assert(bits_of(byte) == Some(8nat) && align_of(byte) == 1 && align_up(8, 8) == 8);
    let one = Seq::new(1, |i: int| Byte { atom: byte, place: i as nat });
    assert(data(byte, (e - 1) as nat) == one);
    assert(data(byte, e) == one);
    assert(one =~= seq![bare_byte()]);
    repeated_bare(n);
    assert(finite(byte, (e - 1) as nat));
    if n != 1 && n > 0 {
        assert(array_bits(8, 1, n) == 8 * n) by {
            assert(8 + 8 * ((n - 1) as nat) == 8 * n) by (nonlinear_arith)
                requires
                    n > 0,
            ;
        }
    }
    assert(data(bytes_ty(n), e) =~= Seq::new(n, |i: int| bare_byte()));
}

proof fn repeated_bare(n: nat)
    ensures
        repeated(seq![bare_byte()], n) == Seq::new(n, |i: int| bare_byte()),
    decreases n,
{
    if n > 0 {
        repeated_bare((n - 1) as nat);
    }
    assert(repeated(seq![bare_byte()], n) =~= Seq::new(n, |i: int| bare_byte()));
}

proof fn largest_is_alignment(aligns: Seq<nat>)
    requires
        forall|i: int| 0 <= i < aligns.len() ==> is_alignment(#[trigger] aligns[i]),
    ensures
        is_alignment(largest(aligns)),
    decreases aligns.len(),
{
    if aligns.len() > 0 {
        assert forall|i: int| 0 <= i < aligns.drop_last().len() implies is_alignment(
            #[trigger] aligns.drop_last()[i],
        ) by {
            assert(is_alignment(aligns[i]));
        }
        largest_is_alignment(aligns.drop_last());
    }
}

/// Some fields can be gathered.
spec fn can_gather(repr: TypeRepr, size: nat, fields: Seq<FieldTy>, d: nat) -> bool {
    &&& fields.len() >= 1
    &&& d >= 1
    &&& repr_valid(repr)
    &&& size <= u32::MAX
    &&& forall|i: int|
        0 <= i < fields.len() ==> finite((#[trigger] fields[i]).ty, d) && has_layout(fields[i].ty) && is_alignment(
            fields[i].align,
        )
}

/// What fields are gathered into holds their bytes.
proof fn gathered_data(repr: TypeRepr, size: nat, fields: Seq<FieldTy>, d: nat)
    requires
        can_gather(repr, size, fields, d),
    ensures
        gathered(repr, size, fields) matches Some(ty) && finite(ty, d + 1) && has_layout(ty) && data(ty, d + 1)
            == data_of_fields(fields, fields.len(), d),
{
    let ty = gathered(repr, size, fields)->0;
    if fields.len() == 1 {
        assert(finite(fields[0].ty, d));
        data_is_stable(fields[0].ty, d, d + 1);
        assert(data_of_fields(fields, 0, d) == Seq::<Byte>::empty());
        assert(data_of_fields(fields, 1, d) =~= data(fields[0].ty, d));
    } else {
        let body = StructTy { name: None, repr, size, fields };
        assert(ty == Ty::Struct(body));
        assert(body_of(ty) == Some(body));
        let aligns = field_aligns(fields);
        assert forall|i: int| 0 <= i < aligns.len() implies is_alignment(#[trigger] aligns[i]) by {
            assert(is_alignment(fields[i].align));
        }
        largest_is_alignment(aligns);
        assert(is_alignment(struct_align(body)));
    }
}

/// The parts of a type are well made, hold all its data, and cut it where the bytes end.
pub open spec fn well_cut(ty: Ty, n: nat, depth: nat, parts: (Ty, Option<Ty>)) -> bool {
    let (first, rest) = parts;
    &&& finite(first, depth + 1)
    &&& has_layout(first)
    &&& rest matches Some(left) ==> finite(left, depth + 1) && has_layout(left) && bytes_of(left) + n <= bytes_of(ty)
    &&& data(first, depth + 1).len() == data_before(ty, n, depth)
    &&& keeps_data(
        data(first, depth + 1) + data_of_rest(rest, depth + 1),
        data(ty, depth),
        data(first, depth + 1).len(),
    )
}

/// Fields that end at `n` or before it stand before it.
proof fn whole_fields_before(fields: Seq<FieldTy>, k: nat, n: nat, d: nat)
    requires
        k <= fields.len(),
        forall|i: int| 0 <= i < k ==> end_of(#[trigger] fields[i]) <= n,
    ensures
        fields_before(fields, k, n, d) == data_of_fields(fields, k, d).len(),
    decreases k,
{
    if k > 0 {
        whole_fields_before(fields, (k - 1) as nat, n, d);
        let last = fields[k - 1];
        assert(end_of(last) <= n);
        assert(minus(n, last.offset) >= bytes_of(last.ty));
        assert(data_before(last.ty, minus(n, last.offset), d) == data(last.ty, d).len());
    }
}

/// Fields that start at `n` or behind it do not.
proof fn later_fields_before(fields: Seq<FieldTy>, m: nat, k: nat, n: nat, d: nat)
    requires
        m <= k <= fields.len(),
        forall|i: int| m <= i < k ==> laid_out((#[trigger] fields[i]).ty, d) && n <= fields[i].offset,
    ensures
        fields_before(fields, k, n, d) == fields_before(fields, m, n, d),
    decreases k,
{
    if m < k {
        later_fields_before(fields, m, (k - 1) as nat, n, d);
        assert(laid_out(fields[k - 1].ty, d) && n <= fields[k - 1].offset);
        none_before_start(fields[k - 1].ty, d);
    }
}

/// Where one field alone has data, it is all there is.
proof fn single_field(fields: Seq<FieldTy>, i: int, k: nat, n: nat, d: nat)
    requires
        0 <= i < fields.len(),
        k <= fields.len(),
        fields[i].offset == 0,
        forall|j: int| 0 <= j < fields.len() ==> laid_out((#[trigger] fields[j]).ty, d),
        forall|j: int| 0 <= j < fields.len() && j != i ==> bytes_of((#[trigger] fields[j]).ty) == 0,
    ensures
        data_of_fields(fields, k, d) == if k > i {
            data(fields[i].ty, d)
        } else {
            Seq::empty()
        },
        fields_before(fields, k, n, d) == if k > i {
            data_before(fields[i].ty, n, d)
        } else {
            0
        },
    decreases k,
{
    if k > 0 {
        single_field(fields, i, (k - 1) as nat, n, d);
        assert(laid_out(fields[k - 1].ty, d));
        data_fits(fields[k - 1].ty, d);
        let last = fields[k - 1];
        if k - 1 == i {
            assert(minus(n, last.offset) == n);
        } else {
            assert(data_before(last.ty, minus(n, last.offset), d) == data(last.ty, d).len());
        }
        assert(data_of_fields(fields, k, d) =~= if k > i {
            data(fields[i].ty, d)
        } else {
            Seq::empty()
        });
    }
}

// CUTTING
// ================================================================================================

/// Cutting a type loses no data: every byte that is no padding is in one of the parts, in order, and is
/// what it was unless the cut goes through what it belongs to; and the first part holds exactly what
/// stands before the `n`-th byte.
pub proof fn splitting_keeps_data(ty: Ty, n: nat, d: nat, depth: nat)
    requires
        laid_out(ty, d),
        n > 0,
        d <= depth,
    ensures
        well_cut(ty, n, d, split_ty(ty, n, depth)),
    decreases d, 3nat,
{
    laid_out_is_finite(ty, d);
    data_is_stable(ty, d, d + 1);
    if bytes_of(ty) <= n {
        keeps_all(data(ty, d), data(ty, d).len());
        assert(data(ty, d) + Seq::<Byte>::empty() =~= data(ty, d));
    } else {
        match body_of(ty) {
            Some(body) => cutting_structs_keeps_data(ty, body, n, d, (depth - 1) as nat),
            None => match ty {
                Ty::Array(element, len) => {
                    assert(ty == Ty::Array(Box::new(*element), len));
                    cutting_arrays_keeps_data(*element, len, n, d, (depth - 1) as nat);
                },
                _ => {
                    let size = bytes_of(ty);
                    let left = (size - n) as nat;
                    bare_bytes(n, d + 1);
                    bare_bytes(left, d + 1);
                    let parts = data(bytes_ty(n), d + 1) + data(bytes_ty(left), d + 1);
                    let whole = data(ty, d);
                    assert forall|i: int| 0 <= i < whole.len() implies #[trigger] parts[i] == bare_byte() by {}
                    assert(keeps_data(parts, whole, n));
                },
            },
        }
    }
}

proof fn cutting_structs_keeps_data(ty: Ty, body: StructTy, n: nat, d: nat, depth: nat)
    requires
        laid_out(ty, d),
        body_of(ty) == Some(body),
        0 < n < bytes_of(ty),
        d <= depth + 1,
    ensures
        well_cut(ty, n, d, split_body(body, n, depth)),
    decreases d, 2nat,
{
    let fields = body.fields;
    let len = fields.len();
    let c = (d - 1) as nat;
    let left = (body.size - n) as nat;
    struct_facts(ty, body, n, d);
    if body.repr is Transparent {
        cutting_transparent_structs_keeps_data(ty, body, n, d, depth);
    } else {
        let k = cut_at(fields, n, 0) as int;
        assert forall|i: int| 0 <= i < k && i < len implies end_of(#[trigger] fields[i]) < n by {
            uncut_ends_before(fields, n, 0, i);
        }
        if k >= len {
            assert(fields.take(len as int) =~= fields);
            assert(moved(fields.skip(len as int), n, 0) =~= Seq::<FieldTy>::empty());
            assert(end_of(fields[len - 1]) < n);
            cutting_between_fields_keeps_data(ty, body, n, d, len as int, end_of(fields.last()), body.repr);
        } else {
            cut_ends_behind(fields, n, 0);
            assert forall|i: int| k < i < len implies n <= (#[trigger] fields[i]).offset by {
                assert(end_of(fields[k]) <= fields[i].offset);
            }
            if fields[k].offset >= n {
                let back = moved(fields.skip(k), n, 0);
                let repr = if fields[k].offset == n {
                    TypeRepr::Default
                } else {
                    padded_repr((fields[k].offset - n) as nat, back)
                };
                assert(k > 0);
                assert(repr_valid(repr));
                cutting_between_fields_keeps_data(ty, body, n, d, k, n, repr);
            } else if end_of(fields[k]) == n {
                assert forall|i: int| 0 <= i < k + 1 implies end_of(#[trigger] fields[i]) <= n by {}
                cutting_between_fields_keeps_data(ty, body, n, d, k + 1, n, body.repr);
            } else {
                cutting_a_field_keeps_data(ty, body, n, d, depth, k);
            }
        }
    }
}

/// What is known of a struct that is cut.
proof fn struct_facts(ty: Ty, body: StructTy, n: nat, d: nat)
    requires
        laid_out(ty, d),
        body_of(ty) == Some(body),
        0 < n < bytes_of(ty),
    ensures
        d >= 2,
        body.fields.len() > 0,
        fields_in_place(body),
        bytes_of(ty) == body.size,
        data(ty, d) == data_of_fields(body.fields, body.fields.len(), (d - 1) as nat),
        data(ty, d) == data_of_fields(body.fields, body.fields.len(), d),
        data_before(ty, n, d) == fields_before(body.fields, body.fields.len(), n, (d - 1) as nat),
        forall|i: int|
            0 <= i < body.fields.len() ==> laid_out((#[trigger] body.fields[i]).ty, (d - 1) as nat) && finite(
                body.fields[i].ty,
                (d - 1) as nat,
            ) && finite(body.fields[i].ty, d),
{
    let fields = body.fields;
    let c = (d - 1) as nat;
    assert(fields.len() > 0);
    assert(laid_out(fields[0].ty, c));
    assert forall|i: int| 0 <= i < fields.len() implies laid_out((#[trigger] fields[i]).ty, c) && finite(
        fields[i].ty,
        c,
    ) && finite(fields[i].ty, d) by {
        laid_out_is_finite(fields[i].ty, c);
        data_is_stable(fields[i].ty, c, d);
    }
    data_of_fields_is_stable(fields, fields.len(), c, d);
}

proof fn cutting_transparent_structs_keeps_data(ty: Ty, body: StructTy, n: nat, d: nat, depth: nat)
    requires
        laid_out(ty, d),
        body_of(ty) == Some(body),
        0 < n < bytes_of(ty),
        d <= depth + 1,
        body.repr is Transparent,
    ensures
        well_cut(ty, n, d, split_body(body, n, depth)),
    decreases d, 1nat,
{
    let fields = body.fields;
    let c = (d - 1) as nat;
    struct_facts(ty, body, n, d);
    let i = first_sized(fields, 0) as int;
    single_field(fields, i, fields.len(), n, c);
    splitting_keeps_data(fields[i].ty, n, c, depth);
    let (first, rest) = split_ty(fields[i].ty, n, depth);
    data_is_stable(first, d, d + 1);
    if let Some(rest) = rest {
        data_is_stable(rest, d, d + 1);
    }
}

/// Cutting a struct between its first `m` fields and the others keeps its data.
proof fn cutting_between_fields_keeps_data(
    ty: Ty,
    body: StructTy,
    n: nat,
    d: nat,
    m: int,
    size: nat,
    repr: TypeRepr,
)
    requires
        laid_out(ty, d),
        body_of(ty) == Some(body),
        0 < n < bytes_of(ty),
        1 <= m <= body.fields.len(),
        size <= n,
        repr_valid(repr),
        forall|i: int| 0 <= i < m ==> end_of(#[trigger] body.fields[i]) <= n,
        forall|i: int| m <= i < body.fields.len() ==> n <= (#[trigger] body.fields[i]).offset,
    ensures
        well_cut(
            ty,
            n,
            d,
            (
                gathered(body.repr, size, body.fields.take(m))->0,
                gathered(repr, (body.size - n) as nat, moved(body.fields.skip(m), n, 0)),
            ),
        ),
{
    let fields = body.fields;
    let len = fields.len();
    let c = (d - 1) as nat;
    let left = (body.size - n) as nat;
    struct_facts(ty, body, n, d);
    let (front, back) = (fields.take(m), moved(fields.skip(m), n, 0));
    assert(can_gather(body.repr, size, front, d)) by {
        assert forall|i: int| 0 <= i < front.len() implies finite((#[trigger] front[i]).ty, d) && has_layout(
            front[i].ty,
        ) && is_alignment(front[i].align) by {
            assert(front[i] == fields[i]);
        }
    }
    gathered_data(body.repr, size, front, d);
    if back.len() > 0 {
        assert(can_gather(repr, left, back, d)) by {
            assert forall|i: int| 0 <= i < back.len() implies finite((#[trigger] back[i]).ty, d) && has_layout(
                back[i].ty,
            ) && is_alignment(back[i].align) by {
                assert(fields.skip(m)[i] == fields[m + i]);
            }
        }
        gathered_data(repr, left, back, d);
        rest_is_small(body, m, n, repr, back);
    }
    data_of_fields_splits(fields, m, d);
    data_of_same_types(back, fields.skip(m), back.len(), d);
    whole_fields_before(fields, m as nat, n, c);
    later_fields_before(fields, m as nat, len, n, c);
    data_of_same_types(front, fields, m as nat, d);
    data_of_fields_is_stable(fields, m as nat, c, d);
    let whole = data(ty, d);
    let cut = data_of_fields(front, m as nat, d).len();
    assert(whole == data_of_fields(front, m as nat, d) + data_of_fields(back, back.len(), d));
    keeps_all(whole, cut);
    assert(data_of_fields(back, 0, d) == Seq::<Byte>::empty());
}

proof fn cut_is_within(fields: Seq<FieldTy>, n: nat, i: nat)
    ensures
        cut_at(fields, n, i) <= fields.len(),
    decreases fields.len() - i,
{
    if i < fields.len() {
        cut_is_within(fields, n, i + 1);
    }
}

/// What is left of a struct is no larger than it can be.
proof fn rest_is_small(body: StructTy, m: int, n: nat, repr: TypeRepr, back: Seq<FieldTy>)
    requires
        fields_in_place(body),
        0 <= m < body.fields.len(),
        n <= body.size,
        back == moved(body.fields.skip(m), n, 0),
        forall|i: int| m <= i < body.fields.len() ==> n <= (#[trigger] body.fields[i]).offset,
    ensures
        gathered(repr, (body.size - n) as nat, back) matches Some(ty) ==> bytes_of(ty) + n <= body.size,
{
    assert(back.len() >= 1);
    if back.len() == 1 {
        assert(body.fields.skip(m)[0] == body.fields[m]);
        assert(back[0].ty == body.fields[m].ty);
        assert(end_of(body.fields[m]) <= body.size);
    }
}

proof fn cutting_a_field_keeps_data(ty: Ty, body: StructTy, n: nat, d: nat, depth: nat, k: int)
    requires
        laid_out(ty, d),
        body_of(ty) == Some(body),
        0 < n < bytes_of(ty),
        1 < d <= depth + 1,
        !(body.repr is Transparent),
        k == cut_at(body.fields, n, 0),
        0 <= k < body.fields.len(),
        body.fields[k].offset < n < end_of(body.fields[k]),
        forall|i: int| 0 <= i < k ==> end_of(#[trigger] body.fields[i]) < n,
        forall|i: int| k < i < body.fields.len() ==> n <= (#[trigger] body.fields[i]).offset,
    ensures
        well_cut(ty, n, d, split_body(body, n, depth)),
    decreases d, 1nat,
{
    let fields = body.fields;
    let c = (d - 1) as nat;
    let m = (n - fields[k].offset) as nat;
    struct_facts(ty, body, n, d);
    assert(laid_out(fields[k].ty, c));
    splitting_keeps_data(fields[k].ty, m, c, depth);
    let (front, back) = split_ty(fields[k].ty, m, depth);
    let cut = FieldTy { name: None, ty: front, ..fields[k] };
    let firsts = fields.take(k).push(cut);
    let rest = match back {
        None => moved(fields.skip(k + 1), n, 0),
        Some(back) => seq![FieldTy { name: None, index: 0, align: 1, offset: 0, ty: back }] + moved(
            fields.skip(k + 1),
            n,
            1,
        ),
    };
    cut_field_first(body, n, d, k, front);
    cut_field_rest(ty, body, n, d, k, m, front, back);
    let a = data_of_fields(fields.take(k), k as nat, d);
    let b = data_of_fields(fields.skip(k + 1), (fields.len() - k - 1) as nat, d);
    cut_field_whole(ty, body, n, d, k, front, back);
    let p = data(front, d) + data_of_rest(back, d);
    assert((a + data(front, d)) + (data_of_rest(back, d) + b) =~= a + p + b);
    assert(split_body(body, n, depth) == (
        gathered(body.repr, n, firsts)->0,
        gathered(TypeRepr::Packed(1), (body.size - n) as nat, rest),
    ));
}

/// The part before a cut through a field.
proof fn cut_field_first(body: StructTy, n: nat, d: nat, k: int, front: Ty)
    requires
        fields_in_place(body),
        0 <= k < body.fields.len(),
        d >= 1,
        n <= u32::MAX,
        finite(front, d),
        has_layout(front),
        forall|i: int| 0 <= i < body.fields.len() ==> finite((#[trigger] body.fields[i]).ty, d),
    ensures
        ({
            let cut = FieldTy { name: None, ty: front, ..body.fields[k] };
            let firsts = body.fields.take(k).push(cut);
            gathered(body.repr, n, firsts) matches Some(ty) && finite(ty, d + 1) && has_layout(ty) && data(ty, d + 1)
                == data_of_fields(body.fields.take(k), k as nat, d) + data(front, d)
        }),
{
    let fields = body.fields;
    let before = fields.take(k);
    let cut = FieldTy { name: None, ty: front, ..fields[k] };
    let firsts = before.push(cut);
    assert forall|i: int| 0 <= i < firsts.len() implies finite((#[trigger] firsts[i]).ty, d) && has_layout(
        firsts[i].ty,
    ) && is_alignment(firsts[i].align) by {
        if i < k {
            assert(firsts[i] == fields[i]);
        } else {
            assert(is_alignment(fields[k].align));
        }
    }
    gathered_data(body.repr, n, firsts, d);
    data_of_same_types(firsts, before, k as nat, d);
    assert(firsts[k] == cut);
}

/// The part behind a cut through a field.
proof fn cut_field_rest(ty: Ty, body: StructTy, n: nat, d: nat, k: int, m: nat, front: Ty, back: Option<Ty>)
    requires
        fields_in_place(body),
        bytes_of(ty) == body.size,
        0 <= k < body.fields.len(),
        d >= 1,
        m + body.fields[k].offset == n,
        n <= body.size,
        back matches Some(back) ==> finite(back, d) && has_layout(back) && bytes_of(back) + m <= bytes_of(
            body.fields[k].ty,
        ),
        forall|i: int| 0 <= i < body.fields.len() ==> finite((#[trigger] body.fields[i]).ty, d),
        forall|i: int| k < i < body.fields.len() ==> n <= (#[trigger] body.fields[i]).offset,
    ensures
        ({
            let rest = match back {
                None => moved(body.fields.skip(k + 1), n, 0),
                Some(back) => seq![FieldTy { name: None, index: 0, align: 1, offset: 0, ty: back }] + moved(
                    body.fields.skip(k + 1),
                    n,
                    1,
                ),
            };
            let left = gathered(TypeRepr::Packed(1), (body.size - n) as nat, rest);
            &&& data_of_rest(left, d + 1) == data_of_rest(back, d) + data_of_fields(
                body.fields.skip(k + 1),
                (body.fields.len() - k - 1) as nat,
                d,
            )
            &&& left matches Some(left) ==> finite(left, d + 1) && has_layout(left) && bytes_of(left) + n <= bytes_of(
                ty,
            )
        }),
{
    let fields = body.fields;
    let after = fields.skip(k + 1);
    let first: nat = if back is Some {
        1
    } else {
        0
    };
    let others = moved(after, n, first);
    let b = data_of_fields(after, after.len(), d);
    data_of_same_types(others, after, after.len(), d);
    assert forall|i: int| 0 <= i < others.len() implies finite((#[trigger] others[i]).ty, d) && has_layout(
        others[i].ty,
    ) && is_alignment(others[i].align) by {
        assert(after[i] == fields[k + 1 + i]);
    }
    let rest = match back {
        None => others,
        Some(back) => seq![FieldTy { name: None, index: 0, align: 1, offset: 0, ty: back }] + others,
    };
    assert(data_of_fields(rest, rest.len(), d) == data_of_rest(back, d) + b) by {
        if let Some(back) = back {
            let head = seq![FieldTy { name: None, index: 0, align: 1, offset: 0, ty: back }];
            data_of_more_fields(head, others, others.len(), d);
            assert(data_of_fields(head, 0, d) == Seq::<Byte>::empty());
            assert(data_of_fields(head, 1, d) =~= data(back, d));
        } else {
            assert(Seq::<Byte>::empty() + b =~= b);
        }
    }
    if rest.len() > 0 {
        assert forall|i: int| 0 <= i < rest.len() implies finite((#[trigger] rest[i]).ty, d) && has_layout(rest[i].ty)
            && is_alignment(rest[i].align) by {
            if back is Some && i > 0 {
                assert(rest[i] == others[i - 1]);
            }
        }
        gathered_data(TypeRepr::Packed(1), (body.size - n) as nat, rest, d);
        if rest.len() == 1 {
            if let Some(back) = back {
                assert(rest[0].ty == back);
                assert(end_of(fields[k]) <= body.size);
            } else {
                assert(rest[0].ty == fields[k + 1].ty);
                assert(end_of(fields[k + 1]) <= body.size);
                assert(n <= fields[k + 1].offset);
            }
        }
    } else {
        assert(data_of_fields(rest, 0, d) == Seq::<Byte>::empty());
    }
}

/// All of a struct that is cut through a field.
proof fn cut_field_whole(ty: Ty, body: StructTy, n: nat, d: nat, k: int, front: Ty, back: Option<Ty>)
    requires
        laid_out(ty, d),
        body_of(ty) == Some(body),
        0 < n < bytes_of(ty),
        d >= 2,
        0 <= k < body.fields.len(),
        body.fields[k].offset < n,
        forall|i: int| 0 <= i < k ==> end_of(#[trigger] body.fields[i]) < n,
        forall|i: int| k < i < body.fields.len() ==> n <= (#[trigger] body.fields[i]).offset,
        data(front, d).len() == data_before(body.fields[k].ty, (n - body.fields[k].offset) as nat, (d - 1) as nat),
        keeps_data(
            data(front, d) + data_of_rest(back, d),
            data(body.fields[k].ty, (d - 1) as nat),
            data(front, d).len(),
        ),
    ensures
        ({
            let a = data_of_fields(body.fields.take(k), k as nat, d);
            let b = data_of_fields(body.fields.skip(k + 1), (body.fields.len() - k - 1) as nat, d);
            &&& keeps_data(
                a + (data(front, d) + data_of_rest(back, d)) + b,
                data(ty, d),
                a.len() + data(front, d).len(),
            )
            &&& data_before(ty, n, d) == a.len() + data(front, d).len()
        }),
{
    let fields = body.fields;
    let len = fields.len();
    let c = (d - 1) as nat;
    struct_facts(ty, body, n, d);
    let (before, after, tail) = (fields.take(k), fields.skip(k + 1), fields.skip(k));
    let w = data(fields[k].ty, c);
    let p = data(front, d) + data_of_rest(back, d);
    let a = data_of_fields(before, k as nat, d);
    let b = data_of_fields(after, after.len(), d);
    keeps_around(a, p, w, data(front, d).len(), b);
    data_of_fields_splits(fields, k, c);
    data_of_fields_splits(tail, 1, c);
    assert(tail.skip(1) =~= after);
    assert(data_of_fields(tail.take(1), 0, c) == Seq::<Byte>::empty());
    assert(tail.take(1)[0] == fields[k]);
    assert(data_of_fields(tail.take(1), 1, c) =~= w);
    assert forall|i: int| 0 <= i < before.len() implies finite((#[trigger] before[i]).ty, c) by {
        assert(before[i] == fields[i]);
    }
    assert forall|i: int| 0 <= i < after.len() implies finite((#[trigger] after[i]).ty, c) by {
        assert(after[i] == fields[k + 1 + i]);
    }
    data_of_fields_is_stable(before, k as nat, c, d);
    data_of_fields_is_stable(after, after.len(), c, d);
    assert(data(ty, d) =~= a + w + b);
    whole_fields_before(fields, k as nat, n, c);
    later_fields_before(fields, (k + 1) as nat, len, n, c);
    data_of_same_types(before, fields, k as nat, c);
    assert(minus(n, fields[k].offset) == (n - fields[k].offset) as nat);
    assert(fields_before(fields, (k + 1) as nat, n, c) == fields_before(fields, k as nat, n, c) + data_before(
        fields[k].ty,
        minus(n, fields[k].offset),
        c,
    ));
}

proof fn cutting_arrays_keeps_data(element: Ty, len: nat, n: nat, d: nat, depth: nat)
    requires
        laid_out(Ty::Array(Box::new(element), len), d),
        0 < n < bytes_of(Ty::Array(Box::new(element), len)),
        d <= depth + 1,
    ensures
        well_cut(Ty::Array(Box::new(element), len), n, d, split_run(element, len, n, depth)),
    decreases d, 2nat,
{
    let ty = Ty::Array(Box::new(element), len);
    let c = (d - 1) as nat;
    let one = data(element, c);
    let (z, s) = (bytes_of(element), stride_of(element));
    assert(body_of(ty) is None);
    laid_out_is_finite(element, c);
    data_is_stable(element, c, d);
    data_is_stable(element, c, d + 1);
    assert(len >= 1);
    run_bytes(element, len);
    assert(data(ty, d) == repeated(one, len));
    if len == 1 {
        assert(s * 0 == 0);
        splitting_keeps_data(element, n, c, depth);
        let (first, rest) = split_ty(element, n, depth);
        data_is_stable(first, d, d + 1);
        if let Some(rest) = rest {
            data_is_stable(rest, d, d + 1);
        }
        assert(repeated(one, 0) == Seq::<Byte>::empty());
        assert(repeated(one, 1) =~= one);
        assert(z == bytes_of(ty));
        assert(n < s);
        assert(n / s == 0 && n % s == n) by (nonlinear_arith)
            requires
                0 < n < s,
        ;
        assert(0 * one.len() == 0);
        assert(data_before(ty, n, d) == data_before(element, n, c));
        assert(well_cut(ty, n, d, (first, rest)));
    } else {
        assert(s > 0) by {
            if s == 0 {
                assert(0 * (len - 1) == 0);
            }
        }
        let (taken, extra) = (n / s, n % s);
        assert(n == s * taken + extra && extra < s) by (nonlinear_arith)
            requires
                s > 0,
                taken == n / s,
                extra == n % s,
        ;
        // The cut goes through the array.
        assert(taken < len) by (nonlinear_arith)
            requires
                n == s * taken + extra,
                n < z + s * (len - 1),
                z <= s,
                len >= 1,
        ;
        assert(extra >= z ==> taken + 1 < len) by (nonlinear_arith)
            requires
                n == s * taken + extra,
                n < z + s * (len - 1),
                taken < len,
        ;
        let left = (len - taken - 1) as nat;
        repeated_more(one, taken, (len - taken) as nat);
        repeated_more(one, 1, left);
        repeated_more(one, taken, 1);
        assert(repeated(one, 0) == Seq::<Byte>::empty());
        assert(repeated(one, 1) =~= one);
        repeated_len(one, taken);
        assert(taken * one.len() + one.len() == (taken + 1) * one.len()) by (nonlinear_arith);
        if extra == 0 {
            assert(taken >= 1) by (nonlinear_arith)
                requires
                    n > 0,
                    n == s * taken,
            ;
            run_is_whole(element, taken, len, c);
            run_is_whole(element, (len - taken) as nat, len, c);
            none_before_start(element, c);
            keeps_all(data(ty, d), taken * one.len());
            assert(z + s * (len - taken - 1) + s * taken == z + s * (len - 1)) by (nonlinear_arith);
            let (first, rest) = (run_ty(element, taken), run_ty(element, (len - taken) as nat));
            assert(data(first, d + 1) == repeated(one, taken));
            assert(data(rest, d + 1) == repeated(one, (len - taken) as nat));
            assert(data_before(ty, n, d) == taken * one.len() + data_before(element, 0, c));
            assert(well_cut(ty, n, d, (first, Some(rest))));
        } else if extra >= z {
            run_is_whole(element, taken + 1, len, c);
            run_is_whole(element, left, len, c);
            repeated_more(one, taken + 1, left);
            repeated_len(one, taken + 1);
            keeps_all(data(ty, d), (taken + 1) * one.len());
            assert(z + s * (left - 1) + n <= z + s * (len - 1)) by (nonlinear_arith)
                requires
                    left == len - taken - 1,
                    n == s * taken + extra,
                    extra < s,
            ;
            let (first, rest) = (run_ty(element, taken + 1), run_ty(element, left));
            assert(data(first, d + 1) == repeated(one, taken + 1));
            assert(data(rest, d + 1) == repeated(one, left));
            assert(data_before(element, extra, c) == one.len());
            assert(data_before(ty, n, d) == taken * one.len() + one.len());
            assert(taken + 1 + left == len);
            assert(well_cut(ty, n, d, (first, Some(rest))));
        } else {
            cutting_an_element_keeps_data(element, len, n, d, depth);
        }
    }
}

/// A run of elements holds their bytes.
proof fn run_is_whole(element: Ty, k: nat, len: nat, c: nat)
    requires
        1 <= k <= len,
        c >= 1,
        finite(element, c),
        has_layout(element),
        bits_of(Ty::Array(Box::new(element), len)) is Some,
    ensures
        finite(run_ty(element, k), c + 2),
        finite(Ty::Array(Box::new(element), k), c + 1),
        has_layout(run_ty(element, k)),
        has_layout(Ty::Array(Box::new(element), k)),
        data(run_ty(element, k), c + 2) == repeated(data(element, c), k),
        data(run_ty(element, k), c + 1) == repeated(data(element, c), k),
        data(Ty::Array(Box::new(element), k), c + 1) == repeated(data(element, c), k),
        bytes_of(run_ty(element, k)) == bytes_of(element) + stride_of(element) * (k - 1),
        bytes_of(Ty::Array(Box::new(element), k)) == bytes_of(element) + stride_of(element) * (k - 1),
        finite(run_ty(element, k), c + 1),
{
    run_bytes(element, len);
    let run = Ty::Array(Box::new(element), k);
    assert(bits_of(run) is Some);
    run_bytes(element, k);
    data_is_stable(element, c, c + 1);
    data_is_stable(element, c, c + 2);
    assert(body_of(run) is None);
    let one = data(element, c);
    if k == 1 {
        assert(repeated(one, 0) == Seq::<Byte>::empty());
        assert(repeated(one, 1) =~= one);
    }
}

#[verifier::rlimit(40)]
proof fn cutting_an_element_keeps_data(element: Ty, len: nat, n: nat, d: nat, depth: nat)
    requires
        laid_out(Ty::Array(Box::new(element), len), d),
        0 < n < bytes_of(Ty::Array(Box::new(element), len)),
        d <= depth + 1,
        len > 1,
        stride_of(element) > 0,
        0 < n % stride_of(element) < bytes_of(element),
        n / stride_of(element) < len,
        n == stride_of(element) * (n / stride_of(element)) + n % stride_of(element),
    ensures
        well_cut(Ty::Array(Box::new(element), len), n, d, split_run(element, len, n, depth)),
    decreases d, 1nat,
{
    let ty = Ty::Array(Box::new(element), len);
    let c = (d - 1) as nat;
    let one = data(element, c);
    let (z, s) = (bytes_of(element), stride_of(element));
    let (taken, extra) = (n / s, n % s);
    let left = (len - taken - 1) as nat;
    assert(body_of(ty) is None);
    assert(laid_out(element, c));
    laid_out_is_finite(element, c);
    run_bytes(element, len);
    splitting_keeps_data(element, extra, c, depth);
    first_part_fits(element, extra, depth);
    let (front, back) = split_ty(element, extra, depth);
    data_is_stable(front, d, d + 1);
    // The first part.
    if taken > 0 {
        run_is_whole(element, taken, len, c);
        let run = Ty::Array(Box::new(element), taken);
        assert(z + s * (taken - 1) + extra <= n) by (nonlinear_arith)
            requires
                n == s * taken + extra,
                z <= s,
                taken >= 1,
        ;
        pair_is_whole(run, front, d);
    }
    let a = repeated(one, taken);
    let first = if taken == 0 {
        front
    } else {
        Ty::Struct(pair_ty(Ty::Array(Box::new(element), taken), front)->0)
    };
    assert(repeated(one, 0) == Seq::<Byte>::empty());
    assert(data(first, d + 1) == a + data(front, d)) by {
        if taken == 0 {
            assert(a + data(front, d) =~= data(front, d));
        }
    }
    // What is left.
    if let Some(back) = back {
        data_is_stable(back, d, d + 1);
    }
    if left > 0 {
        run_is_whole(element, left, len, c);
        assert(z + s * (left - 1) + s * taken + s == z + s * (len - 1)) by (nonlinear_arith)
            requires
                left == len - taken - 1,
        ;
        if let Some(back) = back {
            pair_is_whole(back, run_ty(element, left), d);
        }
    } else {
        assert(z + s * taken == z + s * (len - 1)) by (nonlinear_arith)
            requires
                left == len - taken - 1,
                left == 0,
        ;
    }
    let b = repeated(one, left);
    let rest = split_run(element, len, n, depth).1;
    assert(data_of_rest(rest, d + 1) == data_of_rest(back, d) + b) by {
        assert(data_of_rest(back, d) + Seq::<Byte>::empty() =~= data_of_rest(back, d));
        assert(Seq::<Byte>::empty() + b =~= b);
    }
    // All of it.
    let p = data(front, d) + data_of_rest(back, d);
    keeps_around(a, p, one, data(front, d).len(), b);
    repeated_more(one, taken, 1 + left);
    repeated_more(one, 1, left);
    assert(repeated(one, 1) =~= one);
    assert(taken + (1 + left) == len);
    assert(data(ty, d) =~= a + one + b);
    assert((a + data(front, d)) + (data_of_rest(back, d) + b) =~= a + p + b);
    repeated_len(one, taken);
}

/// A pair holds the bytes of both.
proof fn pair_is_whole(first: Ty, second: Ty, d: nat)
    requires
        d >= 1,
        finite(first, d),
        finite(second, d),
        has_layout(first),
        has_layout(second),
        bytes_of(first) + bytes_of(second) <= u32::MAX,
    ensures
        pair_ty(first, second) matches Some(pair) && finite(Ty::Struct(pair), d + 1) && has_layout(Ty::Struct(pair))
            && data(Ty::Struct(pair), d + 1) == data(first, d) + data(second, d) && bytes_of(Ty::Struct(pair))
            == bytes_of(first) + bytes_of(second),
{
    let parts = seq![PartTy { name: None, ty: first }, PartTy { name: None, ty: second }];
    pair_is_valid(first, second);
    pairs_fit(first, second);
    let pair = pair_ty(first, second)->0;
    let fields = pair.fields;
    assert(fields.len() == 2 && fields[0].ty == first && fields[1].ty == second) by {
        assert(parts[0].ty == first && parts[1].ty == second);
    }
    let ty = Ty::Struct(pair);
    assert(body_of(ty) == Some(pair));
    assert forall|i: int| 0 <= i < fields.len() implies finite((#[trigger] fields[i]).ty, d) by {}
    assert(data_of_fields(fields, 0, d) == Seq::<Byte>::empty());
    assert(data_of_fields(fields, 1, d) =~= data(first, d));
    assert(data_of_fields(fields, 2, d) =~= data(first, d) + data(second, d));
}

/// `part` is the type of a field, alone, or a struct with that field.
pub open spec fn has_field(part: Ty, field: FieldTy) -> bool {
    part == field.ty || (part is Struct && part->Struct_0.fields.contains(field))
}

/// Cutting a struct keeps its fields: one that ends at the cut or before it is a field of the first part,
/// as it is; one that starts at the cut or behind it is a field of the rest, as many bytes nearer to the
/// start as were cut off.
pub proof fn splitting_keeps_fields(body: StructTy, n: nat, depth: nat, i: int)
    requires
        fields_in_place(body),
        !(body.repr is Transparent),
        n > 0,
        0 <= i < body.fields.len(),
    ensures
        ({
            let field = body.fields[i];
            let (first, rest) = split_body(body, n, depth);
            &&& field.offset < n && end_of(field) <= n ==> has_field(first, field)
            &&& n <= field.offset ==> rest is Some && exists|index: nat| #[trigger]
                has_field(rest->0, FieldTy { index, offset: (field.offset - n) as nat, ..field })
        }),
{
    let fields = body.fields;
    let field = fields[i];
    let k = cut_at(fields, n, 0) as int;
    let (first, rest) = split_body(body, n, depth);
    cut_is_within(fields, n, 0);
    if k < fields.len() {
        cut_ends_behind(fields, n, 0);
    }
    if k < i {
        assert(end_of(fields[k]) <= field.offset);
    }
    if i < k {
        uncut_ends_before(fields, n, 0, i);
    }
    if field.offset < n && end_of(field) <= n {
        assert(i <= k);
        if k >= fields.len() {
            assert(fields.contains(fields[i]));
        } else if fields[k].offset >= n {
            assert(i < k);
            let front = fields.take(k);
            assert(front[i] == field);
            assert(front.contains(field));
            if front.len() == 1 {
                assert(front[0] == field);
            }
        } else if end_of(fields[k]) == n {
            let front = fields.take(k + 1);
            assert(front[i] == field);
            assert(front.contains(field));
            if front.len() == 1 {
                assert(front[0] == field);
            }
        } else {
            assert(i < k);
            let cut = FieldTy {
                name: None,
                ty: split_ty(fields[k].ty, (n - fields[k].offset) as nat, depth).0,
                ..fields[k]
            };
            let front = fields.take(k).push(cut);
            assert(front[i] == field);
            assert(front.contains(field));
        }
    }
    if n <= field.offset {
        assert(k <= i);
        if fields[k].offset >= n {
            moved_has_field(fields, k, n, 0, i);
        } else if end_of(fields[k]) == n {
            moved_has_field(fields, k + 1, n, 0, i);
        } else {
            match split_ty(fields[k].ty, (n - fields[k].offset) as nat, depth).1 {
                None => moved_has_field(fields, k + 1, n, 0, i),
                Some(back) => {
                    moved_has_field(fields, k + 1, n, 1, i);
                    let others = moved(fields.skip(k + 1), n, 1);
                    let all = seq![FieldTy { name: None, index: 0, align: 1, offset: 0, ty: back }] + others;
                    let j = i - k - 1;
                    assert(all[j + 1] == others[j]);
                    assert(all.contains(others[j]));
                    assert(has_field(
                        rest->0,
                        FieldTy { index: others[j].index, offset: (field.offset - n) as nat, ..field },
                    ));
                },
            }
        }
    }
}

proof fn moved_has_field(fields: Seq<FieldTy>, m: int, n: nat, first: nat, i: int)
    requires
        0 <= m <= i < fields.len(),
        n <= fields[i].offset,
    ensures
        ({
            let others = moved(fields.skip(m), n, first);
            let there = FieldTy {
                index: others[i - m].index,
                offset: (fields[i].offset - n) as nat,
                ..fields[i]
            };
            &&& others[i - m] == there
            &&& others.contains(there)
            &&& forall|repr: TypeRepr, size: nat|
                (#[trigger] gathered(repr, size, others)) is Some && has_field(gathered(repr, size, others)->0, there)
        }),
{
    let others = moved(fields.skip(m), n, first);
    assert(fields.skip(m)[i - m] == fields[i]);
    assert(others[i - m] =~= FieldTy {
        index: others[i - m].index,
        offset: (fields[i].offset - n) as nat,
        ..fields[i]
    });
    assert(others.contains(others[i - m]));
}

/// What is left of a type once `i` parts have been cut off it.
pub open spec fn remainder(ty: Ty, i: nat) -> Option<Ty>
    decreases i,
{
    if i == 0 {
        Some(ty)
    } else {
        match remainder(ty, (i - 1) as nat) {
            None => None,
            Some(left) => split_ty(left, 4, usize::MAX as nat).1,
        }
    }
}

proof fn remainder_of_rest(ty: Ty, rest: Ty, i: nat)
    requires
        split_ty(ty, 4, usize::MAX as nat).1 == Some(rest),
    ensures
        remainder(ty, i + 1) == remainder(rest, i),
    decreases i,
{
    if i > 0 {
        remainder_of_rest(ty, rest, (i - 1) as nat);
    } else {
        assert(remainder(ty, 0) == Some(ty));
    }
}

/// A type is represented by the parts of four bytes that are cut off it one after the other, for as long
/// as anything is left, and by nothing else.
pub proof fn parts_are_cut_off_in_turn(ty: Ty, limit: nat, i: nat)
    requires
        i <= limit,
    ensures
        i < raw_parts(ty, limit).len() <==> remainder(ty, i) is Some,
        remainder(ty, i) matches Some(left) ==> raw_parts(ty, limit)[i as int] == split_ty(
            left,
            4,
            usize::MAX as nat,
        ).0,
    decreases i,
{
    assert(remainder(ty, 0) == Some(ty));
    match split_ty(ty, 4, usize::MAX as nat).1 {
        None => {
            if i > 0 {
                nothing_is_left(ty, i);
            }
        },
        Some(rest) => {
            if i > 0 {
                remainder_of_rest(ty, rest, (i - 1) as nat);
                parts_are_cut_off_in_turn(rest, (limit - 1) as nat, (i - 1) as nat);
            }
        },
    }
}

proof fn nothing_is_left(ty: Ty, i: nat)
    requires
        split_ty(ty, 4, usize::MAX as nat).1 is None,
        i > 0,
    ensures
        remainder(ty, i) is None,
    decreases i,
{
    assert(remainder(ty, 0) == Some(ty));
    if i > 1 {
        nothing_is_left(ty, (i - 1) as nat);
    }
}

/// The bytes of some types, one behind the other.
pub open spec fn data_of_parts(parts: Seq<Ty>, depth: nat) -> Seq<Byte>
    decreases parts.len(),
{
    if parts.len() == 0 {
        Seq::empty()
    } else {
        data(parts[0], depth) + data_of_parts(parts.drop_first(), depth)
    }
}

/// The parts that represent a type hold every byte of it, in order: each is what it was, or a byte of
/// something that was cut through.
pub proof fn raw_parts_keep_data(ty: Ty, limit: nat, d: nat)
    requires
        d <= usize::MAX,
        remainder(ty, limit + 1) is None,
        forall|i: nat| i <= limit ==> (#[trigger] remainder(ty, i) matches Some(left) ==> laid_out(left, d)),
    ensures
        ({
            let parts = data_of_parts(raw_parts(ty, limit), d + 1);
            let whole = data(ty, d);
            &&& parts.len() == whole.len()
            &&& forall|i: int| 0 <= i < whole.len() ==> #[trigger] parts[i] == whole[i] || parts[i] == bare_byte()
        }),
    decreases limit,
{
    assert(remainder(ty, 0) == Some(ty));
    splitting_keeps_data(ty, 4, d, usize::MAX as nat);
    let (part, rest) = split_ty(ty, 4, usize::MAX as nat);
    let all = raw_parts(ty, limit);
    assert(all[0] == part);
    match rest {
        None => {
            assert(all.drop_first() =~= Seq::<Ty>::empty());
            assert(data_of_parts(Seq::<Ty>::empty(), d + 1) == Seq::<Byte>::empty());
            assert(data_of_parts(all, d + 1) =~= data(part, d + 1) + Seq::<Byte>::empty());
        },
        Some(rest) => {
            assert(remainder(ty, 1) == Some(rest)) by {
                remainder_of_rest(ty, rest, 0);
                assert(remainder(rest, 0) == Some(rest));
            }
            assert(limit > 0);
            let l = (limit - 1) as nat;
            assert forall|i: nat| i <= l implies (#[trigger] remainder(rest, i) matches Some(left) ==> laid_out(
                left,
                d,
            )) by {
                remainder_of_rest(ty, rest, i);
                assert(remainder(ty, i + 1) == remainder(rest, i));
            }
            remainder_of_rest(ty, rest, limit);
            raw_parts_keep_data(rest, l, d);
            assert(laid_out(rest, d)) by {
                assert(remainder(ty, 1) == Some(rest));
            }
            laid_out_is_finite(rest, d);
            data_is_stable(rest, d, d + 1);
            assert(all.drop_first() =~= raw_parts(rest, l));
            let (p, q) = (data(part, d + 1), data_of_parts(raw_parts(rest, l), d + 1));
            let parts = data_of_parts(all, d + 1);
            let whole = data(ty, d);
            let halves = p + data(rest, d + 1);
            assert(parts == p + q);
            assert forall|i: int| 0 <= i < whole.len() implies #[trigger] parts[i] == whole[i] || parts[i]
                == bare_byte() by {
                assert(halves[i] == whole[i] || halves[i] == bare_byte());
                if i >= p.len() {
                    let j = i - p.len();
                    assert(halves[i] == data(rest, d)[j]);
                    assert(q[j] == data(rest, d)[j] || q[j] == bare_byte());
                    assert(parts[i] == q[j]);
                } else {
                    assert(parts[i] == halves[i]);
                }
            }
        },
    }
}

// REPRESENTATIONS OF PARTS
// ================================================================================================

/// The field at `k` is the first that ends at `n` or behind it.
pub open spec fn is_cut_at(fields: Seq<FieldTy>, n: nat, k: int) -> bool {
    &&& 0 <= k < fields.len()
    &&& fields[k].offset + bytes_of(fields[k].ty) >= n
    &&& forall|j: int| 0 <= j < k ==> (#[trigger] fields[j]).offset + bytes_of(fields[j].ty) < n
}

proof fn cut_is_found(fields: Seq<FieldTy>, n: nat, k: int, i: nat)
    requires
        is_cut_at(fields, n, k),
        i <= k,
    ensures
        cut_at(fields, n, i) == k,
    decreases k - i,
{
    if i < k {
        assert(fields[i as int].offset + bytes_of(fields[i as int].ty) < n);
        cut_is_found(fields, n, k, i + 1);
    }
}

/// The largest alignment that is not above `n`.
pub open spec fn is_alignment_of(align: nat, n: nat) -> bool {
    &&& is_alignment(align)
    &&& align <= n
    &&& forall|other: nat| #[trigger] is_alignment(other) && other <= n ==> other <= align
}

/// Fields that come before the cut stay as they are, in a struct that is represented as the whole was;
/// those behind it are numbered from the start and moved by what was cut off. Where the cut goes through
/// a field they are packed behind what is left of it; where it goes through padding, the padding that is
/// left tells the alignment of the rest.
pub proof fn parts_are_represented_as_the_whole(body: StructTy, n: nat, depth: nat, k: int)
    requires
        n > 0,
        depth > 0,
        bytes_of(Ty::Struct(body)) > n,
        body.fields.len() <= 255,
        !(body.repr is Transparent),
        is_cut_at(body.fields, n, k),
    ensures
        ({
            let fields = body.fields;
            let (first, rest) = split_ty(Ty::Struct(body), n, depth);
            let start = fields[k].offset;
            let end = fields[k].offset + bytes_of(fields[k].ty);
            let own = if start < n {
                k + 1
            } else {
                k
            };
            &&& own >= 2 ==> {
                &&& first is Struct
                &&& first->Struct_0.repr == body.repr
                &&& first->Struct_0.name is None
                &&& first->Struct_0.size == n
                &&& first->Struct_0.fields.len() == own
                &&& forall|i: int| 0 <= i < own && i < k ==> #[trigger] first->Struct_0.fields[i] == fields[i]
            }
            &&& start >= n && fields.len() - k >= 2 ==> {
                &&& rest is Some && rest->0 is Struct
                &&& rest->0->Struct_0.fields.len() == fields.len() - k
                &&& rest->0->Struct_0.size == body.size - n
                &&& start == n ==> rest->0->Struct_0.repr == TypeRepr::Default
                &&& start > n ==> is_alignment_of(align_of(rest->0), (start - n) as nat)
                &&& forall|i: int|
                    0 <= i < fields.len() - k ==> {
                        &&& (#[trigger] rest->0->Struct_0.fields[i]).index == i
                        &&& rest->0->Struct_0.fields[i].name == fields[k + i].name
                        &&& rest->0->Struct_0.fields[i].align == fields[k + i].align
                        &&& rest->0->Struct_0.fields[i].ty == fields[k + i].ty
                        &&& fields[k + i].offset >= n ==> rest->0->Struct_0.fields[i].offset == fields[k + i].offset - n
                    }
            }
            &&& start < n && end == n && fields.len() - k >= 3 ==> {
                &&& rest is Some && rest->0 is Struct
                &&& rest->0->Struct_0.repr == body.repr
                &&& rest->0->Struct_0.fields.len() == fields.len() - k - 1
                &&& rest->0->Struct_0.size == body.size - n
                &&& forall|i: int|
                    0 <= i < fields.len() - k - 1 ==> (#[trigger] rest->0->Struct_0.fields[i]).index == i
                        && rest->0->Struct_0.fields[i].name == fields[k + 1 + i].name
            }
            &&& start < n && end > n && fields.len() - k >= 3 ==> {
                &&& rest is Some && rest->0 is Struct
                &&& rest->0->Struct_0.repr == TypeRepr::Packed(1)
                &&& rest->0->Struct_0.size == body.size - n
                &&& forall|i: int|
                    0 <= i < rest->0->Struct_0.fields.len() ==> (#[trigger] rest->0->Struct_0.fields[i]).index == i
            }
        }),
{
    cut_is_found(body.fields, n, k, 0);
    let fields = body.fields;
    assert(split_ty(Ty::Struct(body), n, depth) == split_body(body, n, (depth - 1) as nat));
    if fields[k].offset > n {
        let padding = (fields[k].offset - n) as nat;
        let rest = moved(fields.skip(k), n, 0);
        assert forall|other: nat| #[trigger] is_alignment(other) && other <= padding implies other <= alignment_below(
            padding,
        ) by {}
        assert(is_alignment_of(alignment_below(padding) as nat, padding));
        assert(struct_align(
            StructTy { name: None, repr: padded_repr(padding, rest), size: minus(body.size, n), fields: rest },
        ) == alignment_below(padding));
    }
}

/// So many elements, as a type.
pub open spec fn is_run(ty: Ty, element: Ty, n: nat) -> bool {
    ||| n == 1 && ty == element
    ||| n != 1 && ty == Ty::Array(Box::new(element), n)
}

/// An array that is cut between two elements becomes two arrays of them.
pub proof fn arrays_are_cut_between_elements(element: Ty, len: nat, taken: nat, depth: nat)
    requires
        depth > 0,
        0 < taken < len,
        stride_of(element) > 0,
        bytes_of(Ty::Array(Box::new(element), len)) > taken * stride_of(element),
    ensures
        ({
            let (first, rest) = split_ty(Ty::Array(Box::new(element), len), taken * stride_of(element), depth);
            &&& is_run(first, element, taken)
            &&& rest is Some && is_run(rest->0, element, (len - taken) as nat)
        }),
{
    let stride = stride_of(element);
    let n = taken * stride;
    assert(n > 0 && n / stride == taken && n % stride == 0) by (nonlinear_arith)
        requires
            n == taken * stride,
            taken > 0,
            stride > 0,
    ;
    let ty = Ty::Array(Box::new(element), len);
    assert(split_ty(ty, n, depth) == split_run(element, len, n, (depth - 1) as nat));
}

} // verus!
