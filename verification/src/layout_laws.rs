//! What the layout of structs, enums and arrays is, whatever they are made of.
use vstd::arithmetic::power2::{lemma2_to64, lemma_pow2_adds, pow2};
use vstd::prelude::*;

use crate::aggregates::{
    claimed, defined_again, discriminant_max, discriminants, duplicate_variant, field_align, fields_end,
    largest_payload, make_enum, make_struct, part_aligns, payload_offsets, repr_valid, tagged, whole_align, EnumFault,
    Fault, PartTy,
};
use crate::layout::{
    align_of, align_up, array_bits, bits_of, bytes_of, field_aligns, is_alignment, is_zero_sized, largest, layout_of,
    padded_size, struct_align,
};
use crate::types::{AddressSpace, CallConv, EnumTy, Scalar, StructTy, Ty, TypeRepr, VariantTy};

verus! {

// ROUNDING
// ================================================================================================

/// Rounding up gives the least multiple that is not below.
pub proof fn rounding_gives_the_least_multiple(x: nat, a: nat, other: nat)
    requires
        a > 0,
    ensures
        align_up(x, a) % a == 0,
        x <= align_up(x, a) < x + a,
        other % a == 0 && x <= other ==> align_up(x, a) <= other,
{
    let up = align_up(x, a);
    let (q, r) = (x / a, x % a);
    assert(x == a * q + r && 0 <= r < a) by (nonlinear_arith)
        requires
            a > 0,
            q == x / a,
            r == x % a,
    ;
    let m: nat = if r == 0 {
        q
    } else {
        q + 1
    };
    assert(up == a * m) by (nonlinear_arith)
        requires
            x == a * q + r,
            r == 0 ==> up == x && m == q,
            r != 0 ==> up == x + (a - r) && m == q + 1,
    ;
    assert((a * m) % a == 0) by (nonlinear_arith)
        requires
            a > 0,
    ;
    if other % a == 0 && x <= other {
        let k = other / a;
        assert(other == a * k) by (nonlinear_arith)
            requires
                a > 0,
                other % a == 0,
                k == other / a,
        ;
        assert(m <= k) by (nonlinear_arith)
            requires
                a > 0,
                a * q + r == x,
                x <= a * k,
                0 <= r < a,
                r == 0 ==> m == q,
                r != 0 ==> m == q + 1,
        ;
        assert(a * m <= a * k) by (nonlinear_arith)
            requires
                m <= k,
        ;
    }
}

/// The largest of some alignments is one of them, or 1, and none is larger.
pub proof fn largest_is_the_largest(aligns: Seq<nat>)
    ensures
        largest(aligns) == 1 || aligns.contains(largest(aligns)),
        largest(aligns) >= 1,
        forall|i: int| 0 <= i < aligns.len() ==> #[trigger] aligns[i] <= largest(aligns),
    decreases aligns.len(),
{
    if aligns.len() > 0 {
        let rest = aligns.drop_last();
        largest_is_the_largest(rest);
        assert(aligns.last() == aligns[aligns.len() - 1]);
        if rest.contains(largest(rest)) {
            let i = choose|i: int| 0 <= i < rest.len() && rest[i] == largest(rest);
            assert(aligns[i] == largest(rest));
        }
        assert forall|i: int| 0 <= i < aligns.len() implies #[trigger] aligns[i] <= largest(aligns) by {
            if i < rest.len() {
                assert(rest[i] == aligns[i]);
            }
        }
    }
}

// STRUCTS
// ================================================================================================

/// The struct made of some parts has them as its fields, in order, as they are named.
pub proof fn structs_have_their_fields(name: Option<Seq<char>>, repr: TypeRepr, parts: Seq<PartTy>, i: int)
    requires
        make_struct(name, repr, parts) is Some,
        0 <= i < parts.len(),
    ensures
        ({
            let body = make_struct(name, repr, parts)->0;
            &&& body.name == name
            &&& body.repr == repr
            &&& body.fields.len() == parts.len()
            &&& body.fields[i].name == parts[i].name
            &&& body.fields[i].ty == parts[i].ty
            &&& body.fields[i].index == i
        }),
{
}

/// A field stands at the first multiple of its alignment behind the field before it. Its alignment is
/// that of its type, but for a packed struct, where it is no more than the packing.
pub proof fn fields_stand_at_their_alignment(name: Option<Seq<char>>, repr: TypeRepr, parts: Seq<PartTy>, i: int)
    requires
        make_struct(name, repr, parts) is Some,
        !(repr is Transparent),
        0 <= i < parts.len(),
    ensures
        ({
            let fields = make_struct(name, repr, parts)->0.fields;
            let before = if i == 0 {
                0
            } else {
                fields[i - 1].offset + bytes_of(fields[i - 1].ty)
            };
            &&& before <= fields[i].offset < before + fields[i].align
            &&& fields[i].offset % fields[i].align == 0
            &&& i == 0 ==> fields[i].offset == 0
            &&& match repr {
                TypeRepr::Packed(packing) => fields[i].align <= packing && fields[i].align <= align_of(parts[i].ty) && (
                fields[i].align == packing || fields[i].align == align_of(parts[i].ty)),
                _ => fields[i].align == align_of(parts[i].ty),
            }
        }),
{
    let fields = make_struct(name, repr, parts)->0.fields;
    let before = fields_end(repr, parts, i as nat);
    let align = field_align(repr, parts[i].ty);
    assert(is_alignment(align_of(parts[i].ty)));
    assert(align > 0);
    rounding_gives_the_least_multiple(before, align, 0);
    if i == 0 {
        assert(fields_end(repr, parts, 0) == 0);
        assert(0nat % align == 0) by (nonlinear_arith)
            requires
                align > 0,
        ;
    } else {
        assert(before == fields[i - 1].offset + bytes_of(fields[i - 1].ty));
    }
}

/// What the size of a struct is a multiple of: the largest alignment of its fields; no less than the
/// alignment that is asked for, or no more than the packing.
pub open spec fn rounds_to(repr: TypeRepr, parts: Seq<PartTy>, align: nat) -> bool {
    let covers = forall|i: int| 0 <= i < parts.len() ==> align_of((#[trigger] parts[i]).ty) <= align;
    let is_one = exists|i: int| 0 <= i < parts.len() && align_of((#[trigger] parts[i]).ty) == align;
    match repr {
        TypeRepr::Align(least) => covers && least <= align && (align == least || is_one),
        TypeRepr::Packed(most) => {
            ||| align <= most && covers && (align == 1 || is_one)
            ||| align == most && exists|i: int| 0 <= i < parts.len() && align <= align_of((#[trigger] parts[i]).ty)
        },
        _ => covers && (align == 1 || is_one),
    }
}

/// The size of a struct is the first multiple of its alignment behind its last field.
pub proof fn structs_end_at_their_alignment(name: Option<Seq<char>>, repr: TypeRepr, parts: Seq<PartTy>, align: nat)
    requires
        make_struct(name, repr, parts) is Some,
        !(repr is Transparent),
        align > 0,
        rounds_to(repr, parts, align),
    ensures
        ({
            let body = make_struct(name, repr, parts)->0;
            let end = if parts.len() == 0 {
                0
            } else {
                body.fields[parts.len() - 1].offset + bytes_of(body.fields[parts.len() - 1].ty)
            };
            end <= body.size < end + align && body.size % align == 0
        }),
        make_struct(name, repr, parts)->0.size <= u32::MAX,
{
    let end = fields_end(repr, parts, parts.len());
    let aligns = part_aligns(parts);
    largest_is_the_largest(aligns);
    assert forall|i: int| 0 <= i < parts.len() implies aligns[i] == align_of((#[trigger] parts[i]).ty)
        && is_alignment(aligns[i]) by {}
    if aligns.contains(largest(aligns)) {
        let i = choose|i: int| 0 <= i < aligns.len() && aligns[i] == largest(aligns);
        assert(align_of(parts[i].ty) == largest(aligns));
    }
    if exists|i: int| 0 <= i < parts.len() && align_of((#[trigger] parts[i]).ty) == align {
        let i = choose|i: int| 0 <= i < parts.len() && align_of((#[trigger] parts[i]).ty) == align;
        assert(aligns[i] == align);
        assert(align <= largest(aligns));
    }
    if exists|i: int| 0 <= i < parts.len() && align <= align_of((#[trigger] parts[i]).ty) {
        let i = choose|i: int| 0 <= i < parts.len() && align <= align_of((#[trigger] parts[i]).ty);
        assert(aligns[i] >= align);
        assert(align <= largest(aligns));
    }
    assert(align == whole_align(repr, parts));
    rounding_gives_the_least_multiple(end, align, 0);
}

/// There is always something that the size of a struct is a multiple of.
pub proof fn structs_have_an_alignment(repr: TypeRepr, parts: Seq<PartTy>)
    requires
        repr_valid(repr),
    ensures
        exists|align: nat| align > 0 && #[trigger] rounds_to(repr, parts, align),
{
    let aligns = part_aligns(parts);
    let align = whole_align(repr, parts);
    largest_is_the_largest(aligns);
    assert forall|i: int| 0 <= i < parts.len() implies aligns[i] == align_of((#[trigger] parts[i]).ty) by {}
    if aligns.contains(largest(aligns)) {
        let i = choose|i: int| 0 <= i < aligns.len() && aligns[i] == largest(aligns);
        assert(align_of(parts[i].ty) == largest(aligns));
    }
    assert(rounds_to(repr, parts, align));
}

/// A transparent struct has the size of the one field that takes memory.
pub proof fn transparent_structs_are_their_field(name: Option<Seq<char>>, parts: Seq<PartTy>, i: int)
    requires
        make_struct(name, TypeRepr::Transparent, parts) is Some,
        0 <= i < parts.len(),
        bytes_of(parts[i].ty) > 0,
    ensures
        make_struct(name, TypeRepr::Transparent, parts)->0.size == bytes_of(parts[i].ty),
        make_struct(name, TypeRepr::Transparent, parts)->0.fields[i].offset == 0,
        forall|j: int| 0 <= j < parts.len() && j != i ==> bytes_of((#[trigger] parts[j]).ty) == 0,
{
    assert forall|j: int| 0 <= j < parts.len() && j != i implies bytes_of((#[trigger] parts[j]).ty) == 0 by {
        if j < i {
            assert(bytes_of(parts[j].ty) == 0 || bytes_of(parts[i].ty) == 0);
        } else {
            assert(bytes_of(parts[i].ty) == 0 || bytes_of(parts[j].ty) == 0);
        }
    }
    transparent_end(parts, i, parts.len());
    transparent_end(parts, i, i as nat);
}

proof fn transparent_end(parts: Seq<PartTy>, i: int, n: nat)
    requires
        0 <= i < parts.len(),
        n <= parts.len(),
        forall|j: int| 0 <= j < parts.len() && j != i ==> bytes_of((#[trigger] parts[j]).ty) == 0,
    ensures
        fields_end(TypeRepr::Transparent, parts, n) == if n > i {
            bytes_of(parts[i].ty)
        } else {
            0
        },
    decreases n,
{
    if n > 0 {
        transparent_end(parts, i, (n - 1) as nat);
    }
}

/// The bytes of some parts, with room to align each.
pub open spec fn roomy(parts: Seq<PartTy>, n: nat) -> nat
    decreases n,
{
    if n == 0 || n > parts.len() {
        0
    } else {
        roomy(parts, (n - 1) as nat) + bytes_of(parts[n - 1].ty) + align_of(parts[n - 1].ty)
    }
}

/// No more than 255 parts, each of which has a size and an alignment, always make a struct, if there is
/// room for them.
pub proof fn small_structs_can_be_made(name: Option<Seq<char>>, repr: TypeRepr, parts: Seq<PartTy>)
    requires
        parts.len() <= 255,
        repr_valid(repr),
        !(repr is Transparent),
        forall|i: int|
            0 <= i < parts.len() ==> bits_of((#[trigger] parts[i]).ty) is Some && is_alignment(align_of(parts[i].ty)),
        roomy(parts, parts.len()) + 32768 <= u32::MAX,
    ensures
        make_struct(name, repr, parts) is Some,
{
    let n = parts.len();
    roomy_end(repr, parts, n);
    let end = fields_end(repr, parts, n);
    let align = whole_align(repr, parts);
    let aligns = part_aligns(parts);
    largest_is_the_largest(aligns);
    assert(largest(aligns) <= 32768) by {
        if aligns.contains(largest(aligns)) {
            let i = choose|i: int| 0 <= i < aligns.len() && aligns[i] == largest(aligns);
            assert(aligns[i] == align_of(parts[i].ty));
            assert(is_alignment(align_of(parts[i].ty)));
        }
    }
    assert(0 < align <= 32768);
    rounding_gives_the_least_multiple(end, align, 0);
}

proof fn roomy_end(repr: TypeRepr, parts: Seq<PartTy>, n: nat)
    requires
        n <= parts.len(),
        repr_valid(repr),
        !(repr is Transparent),
        forall|i: int| 0 <= i < parts.len() ==> is_alignment(align_of((#[trigger] parts[i]).ty)),
    ensures
        fields_end(repr, parts, n) <= roomy(parts, n),
    decreases n,
{
    if n > 0 {
        roomy_end(repr, parts, (n - 1) as nat);
        assert(is_alignment(align_of(parts[n - 1].ty)));
        let align = field_align(repr, parts[n - 1].ty);
        rounding_gives_the_least_multiple(fields_end(repr, parts, (n - 1) as nat), align, 0);
    }
}

/// A struct is not made exactly for a reason: too many parts, an alignment that is none, a part without a
/// size or an alignment, a second part that takes memory in a transparent struct, or a size out of range.
pub proof fn structs_are_refused_for_a_reason(name: Option<Seq<char>>, repr: TypeRepr, parts: Seq<PartTy>)
    requires
        make_struct(name, repr, parts) is None,
    ensures
        ({
            ||| parts.len() > 255
            ||| match repr {
                TypeRepr::Align(a) => !is_alignment(a as nat),
                TypeRepr::Packed(a) => !is_alignment(a as nat),
                _ => false,
            }
            ||| exists|i: int|
                0 <= i < parts.len() && (bits_of((#[trigger] parts[i]).ty) is None || !is_alignment(
                    align_of(parts[i].ty),
                ))
            ||| repr is Transparent && exists|i: int, j: int|
                0 <= i < j < parts.len() && bytes_of((#[trigger] parts[i]).ty) > 0 && bytes_of(
                    (#[trigger] parts[j]).ty,
                ) > 0
            ||| roomy(parts, parts.len()) + 32768 > u32::MAX
        }),
{
    if parts.len() <= 255 && repr_valid(repr) && forall|i: int|
        0 <= i < parts.len() ==> bits_of((#[trigger] parts[i]).ty) is Some && is_alignment(align_of(parts[i].ty)) {
        if !(repr is Transparent) {
            if roomy(parts, parts.len()) + 32768 <= u32::MAX {
                small_structs_can_be_made(name, repr, parts);
            }
        } else {
            transparent_room(parts, parts.len());
        }
    }
}

proof fn transparent_room(parts: Seq<PartTy>, n: nat)
    requires
        n <= parts.len(),
    ensures
        fields_end(TypeRepr::Transparent, parts, n) <= roomy(parts, n),
    decreases n,
{
    if n > 0 {
        transparent_room(parts, (n - 1) as nat);
    }
}

// ENUMS
// ================================================================================================

/// The enum made of some variants has them as they are.
pub proof fn enums_have_their_variants(name: Seq<char>, discriminant: Ty, variants: Seq<VariantTy>)
    requires
        make_enum(name, discriminant, variants) is Ok,
    ensures
        ({
            let body = make_enum(name, discriminant, variants)->Ok_0;
            &&& body.name == name
            &&& *body.discriminant == discriminant
            &&& body.variants == variants
            &&& body.offsets.len() == variants.len()
        }),
        forall|i: int, j: int|
            0 <= i < j < variants.len() ==> (#[trigger] variants[i]).name != (#[trigger] variants[j]).name,
{
    no_duplicates_from(variants, 0);
    if variants.len() > 0 {
        payload_offsets_len(discriminant, variants, variants.len());
    }
}

proof fn no_duplicates_from(variants: Seq<VariantTy>, k: nat)
    requires
        duplicate_variant(variants, k) is None,
    ensures
        forall|i: int, j: int|
            k <= i < j < variants.len() ==> (#[trigger] variants[i]).name != (#[trigger] variants[j]).name,
    decreases variants.len() - k,
{
    if k < variants.len() {
        no_duplicates_from(variants, k + 1);
        assert forall|i: int, j: int| k <= i < j < variants.len() implies (#[trigger] variants[i]).name != (
        #[trigger] variants[j]).name by {
            if i == k && variants[i].name == variants[j].name {
                assert(defined_again(variants, k as int));
            }
        }
    }
}

proof fn payload_offsets_len(discriminant: Ty, variants: Seq<VariantTy>, n: nat)
    requires
        payload_offsets(discriminant, variants, n) is Some,
    ensures
        payload_offsets(discriminant, variants, n)->0.len() == n,
    decreases n,
{
    if n > 0 {
        payload_offsets_len(discriminant, variants, (n - 1) as nat);
    }
}

/// A payload stands at the first multiple of its alignment behind the discriminant.
pub proof fn payloads_stand_behind_the_discriminant(
    name: Seq<char>,
    discriminant: Ty,
    variants: Seq<VariantTy>,
    i: int,
)
    requires
        make_enum(name, discriminant, variants) is Ok,
        0 <= i < variants.len(),
    ensures
        match variants[i].value {
            None => make_enum(name, discriminant, variants)->Ok_0.offsets[i] == 0,
            Some(payload) => {
                let offset = make_enum(name, discriminant, variants)->Ok_0.offsets[i];
                &&& bytes_of(discriminant) <= offset < bytes_of(discriminant) + align_of(payload)
                &&& offset % align_of(payload) == 0
            },
        },
{
    payload_offset_at(discriminant, variants, variants.len(), i);
}

proof fn payload_offset_at(discriminant: Ty, variants: Seq<VariantTy>, n: nat, i: int)
    requires
        payload_offsets(discriminant, variants, n) is Some,
        0 <= i < n,
    ensures
        payload_offsets(discriminant, variants, n)->0.len() == n,
        match variants[i].value {
            None => payload_offsets(discriminant, variants, n)->0[i] == 0,
            Some(payload) => {
                let offset = payload_offsets(discriminant, variants, n)->0[i];
                &&& bytes_of(discriminant) <= offset < bytes_of(discriminant) + align_of(payload)
                &&& offset % align_of(payload) == 0
            },
        },
    decreases n,
{
    payload_offsets_len(discriminant, variants, n);
    payload_offsets_len(discriminant, variants, (n - 1) as nat);
    if i < n - 1 {
        payload_offset_at(discriminant, variants, (n - 1) as nat, i);
    } else if let Some(payload) = variants[i].value {
        pair_behind(discriminant, payload);
    }
}

proof fn pair_behind(discriminant: Ty, payload: Ty)
    requires
        tagged(discriminant, payload) is Some,
    ensures
        ({
            let body = tagged(discriminant, payload)->0;
            let offset = body.fields[1].offset;
            let align = larger(align_of(discriminant), align_of(payload));
            &&& bytes_of(discriminant) <= offset < bytes_of(discriminant) + align_of(payload)
            &&& offset % align_of(payload) == 0
            &&& offset + bytes_of(payload) <= body.size < offset + bytes_of(payload) + align
            &&& body.size % align == 0
            &&& struct_align(body) == align
        }),
{
    let parts = seq![PartTy { name: None, ty: discriminant }, PartTy { name: None, ty: payload }];
    let align = larger(align_of(discriminant), align_of(payload));
    assert(parts[0].ty == discriminant && parts[1].ty == payload);
    assert(is_alignment(align_of(parts[0].ty)) && is_alignment(align_of(parts[1].ty)));
    fields_stand_at_their_alignment(None, TypeRepr::Default, parts, 0);
    fields_stand_at_their_alignment(None, TypeRepr::Default, parts, 1);
    assert(rounds_to(TypeRepr::Default, parts, align)) by {
        assert(align_of(parts[0].ty) == align || align_of(parts[1].ty) == align);
    }
    structs_end_at_their_alignment(None, TypeRepr::Default, parts, align);
    let body = tagged(discriminant, payload)->0;
    let aligns = field_aligns(body.fields);
    assert(aligns =~= seq![align_of(discriminant), align_of(payload)]);
    largest_is_the_largest(aligns);
    assert(aligns[0] <= largest(aligns) && aligns[1] <= largest(aligns));
}

/// The larger of two alignments.
pub open spec fn larger(a: nat, b: nat) -> nat {
    if a < b {
        b
    } else {
        a
    }
}

/// Whether a variant is the first whose payload is as large, with its padding, as that of any other.
pub open spec fn has_largest_payload(variants: Seq<VariantTy>, i: int) -> bool {
    &&& variants[i].value is Some
    &&& forall|j: int|
        0 <= j < variants.len() && (#[trigger] variants[j]).value is Some ==> {
            &&& padded_size(variants[j].value->0) <= padded_size(variants[i].value->0)
            &&& j < i ==> padded_size(variants[j].value->0) < padded_size(variants[i].value->0)
        }
}

/// An enum has the alignment of its discriminant or of its largest payload, whichever is larger, and
/// ends at the first multiple of it behind that payload.
pub proof fn enums_hold_their_largest_payload(name: Seq<char>, discriminant: Ty, variants: Seq<VariantTy>, i: int)
    requires
        make_enum(name, discriminant, variants) is Ok,
        0 <= i < variants.len(),
        has_largest_payload(variants, i),
    ensures
        ({
            let body = make_enum(name, discriminant, variants)->Ok_0;
            let payload = variants[i].value->0;
            let end = body.offsets[i] + bytes_of(payload);
            &&& body.align == larger(align_of(discriminant), align_of(payload))
            &&& end <= body.size < end + body.align
            &&& body.size % body.align == 0
        }),
{
    single_largest(variants, variants.len(), i);
    payload_offset_is(discriminant, variants, variants.len(), i);
    pair_behind(discriminant, variants[i].value->0);
}

/// An enum without payloads is its discriminant, and one without variants takes nothing.
pub proof fn enums_without_payloads_are_their_discriminant(
    name: Seq<char>,
    discriminant: Ty,
    variants: Seq<VariantTy>,
)
    requires
        make_enum(name, discriminant, variants) is Ok,
        forall|i: int| 0 <= i < variants.len() ==> (#[trigger] variants[i]).value is None,
    ensures
        ({
            let body = make_enum(name, discriminant, variants)->Ok_0;
            &&& variants.len() > 0 ==> body.size == bytes_of(discriminant) && body.align == align_of(discriminant)
            &&& variants.len() == 0 ==> body.size == 0 && body.align == 1
        }),
{
    plain_largest(variants, variants.len());
}

proof fn single_largest(variants: Seq<VariantTy>, n: nat, i: int)
    requires
        n <= variants.len(),
        0 <= i < variants.len(),
        has_largest_payload(variants, i),
    ensures
        n > i ==> largest_payload(variants, n) == variants[i].value,
        n <= i ==> (largest_payload(variants, n) matches Some(other) ==> padded_size(other) < padded_size(
            variants[i].value->0,
        )),
    decreases n,
{
    if n > 0 {
        single_largest(variants, (n - 1) as nat, i);
        assert(variants[n - 1].value is Some ==> padded_size(variants[n - 1].value->0) <= padded_size(
            variants[i].value->0,
        ));
    }
}

proof fn payload_offset_is(discriminant: Ty, variants: Seq<VariantTy>, n: nat, i: int)
    requires
        payload_offsets(discriminant, variants, n) is Some,
        0 <= i < n,
        variants[i].value is Some,
    ensures
        payload_offsets(discriminant, variants, n)->0.len() == n,
        tagged(discriminant, variants[i].value->0) is Some,
        payload_offsets(discriminant, variants, n)->0[i] == tagged(
            discriminant,
            variants[i].value->0,
        )->0.fields[1].offset,
    decreases n,
{
    payload_offsets_len(discriminant, variants, n);
    payload_offsets_len(discriminant, variants, (n - 1) as nat);
    if i < n - 1 {
        payload_offset_is(discriminant, variants, (n - 1) as nat, i);
    }
}

/// A type can be that of a discriminant exactly where it is an integer of up to 128 bits, a boolean or a
/// field element.
pub open spec fn can_tag(ty: Ty) -> bool {
    match ty {
        Ty::Scalar(scalar) => match scalar {
            Scalar::I1 | Scalar::I8 | Scalar::U8 | Scalar::I16 | Scalar::U16 | Scalar::I32 | Scalar::U32 => true,
            Scalar::I64 | Scalar::U64 | Scalar::I128 | Scalar::U128 | Scalar::Felt => true,
            _ => false,
        },
        _ => false,
    }
}

/// A discriminant can have the values that its bits can.
pub open spec fn can_hold(ty: Ty, value: int) -> bool {
    0 <= value < pow2(bits_of(ty)->0)
}

proof fn held_values(ty: Ty)
    requires
        can_tag(ty),
    ensures
        bits_of(ty) is Some,
        discriminant_max(ty) is Some,
        discriminant_max(ty)->0 == pow2(bits_of(ty)->0) - 1,
{
    lemma2_to64();
    lemma_pow2_adds(64, 64);
}

/// Every fault of an enum has its cause in its variants.
pub proof fn enum_faults_have_causes(name: Seq<char>, discriminant: Ty, variants: Seq<VariantTy>)
    ensures
        make_enum(name, discriminant, variants) matches Err(fault) ==> match fault {
            Fault::Enum(EnumFault::DuplicateVariant(variant)) => exists|i: int, j: int|
                0 <= i < j < variants.len() && (#[trigger] variants[i]).name == variant && (
                #[trigger] variants[j]).name == variant,
            Fault::Enum(EnumFault::DiscriminantType(ty)) => ty == discriminant && !can_tag(discriminant),
            Fault::Enum(EnumFault::Value(variant, ty, value)) => ty == discriminant && !can_hold(ty, value as int)
                && exists|i: int|
                0 <= i < variants.len() && (#[trigger] variants[i]).name == variant
                    && variants[i].discriminant_value == Some(value),
            Fault::Enum(EnumFault::ImplicitValue(variant, ty, last)) => ty == discriminant && !can_hold(ty, last + 1)
                && exists|i: int|
                0 <= i < variants.len() && (#[trigger] variants[i]).name == variant
                    && variants[i].discriminant_value is None,
            Fault::Enum(EnumFault::DuplicateValue(variant, value)) => exists|i: int, j: int|
                0 <= i < variants.len() && 0 <= j < variants.len() && i != j && (#[trigger] variants[i]).name == variant
                    && (#[trigger] variants[j]).discriminant_value == Some(value),
            Fault::Layout => exists|i: int|
                0 <= i < variants.len() && ((#[trigger] variants[i]).value matches Some(payload) && make_struct(
                    None,
                    TypeRepr::Default,
                    seq![PartTy { name: None, ty: discriminant }, PartTy { name: None, ty: payload }],
                ) is None),
            _ => false,
        },
{
    if duplicate_variant(variants, 0) is Some {
        duplicate_is_there(variants, 0);
    } else if can_tag(discriminant) && variants.len() > 0 {
        held_values(discriminant);
        discriminant_faults(discriminant, variants, variants.len());
        layout_faults(discriminant, variants, variants.len());
        if payload_offsets(discriminant, variants, variants.len()) is Some {
            largest_has_offset(discriminant, variants, variants.len());
        }
    }
}

/// Variants with one name, a discriminant that is none, and values that it cannot have are never
/// accepted.
pub proof fn enums_have_no_fault(name: Seq<char>, discriminant: Ty, variants: Seq<VariantTy>)
    requires
        make_enum(name, discriminant, variants) is Ok,
    ensures
        can_tag(discriminant),
        forall|i: int, j: int|
            0 <= i < j < variants.len() ==> (#[trigger] variants[i]).name != (#[trigger] variants[j]).name && (
            variants[i].discriminant_value is Some ==> variants[i].discriminant_value
                != variants[j].discriminant_value),
        forall|i: int|
            0 <= i < variants.len() && (#[trigger] variants[i]).discriminant_value is Some ==> can_hold(
                discriminant,
                variants[i].discriminant_value->0 as int,
            ),
{
    no_duplicates_from(variants, 0);
    let n = variants.len();
    if n > 0 {
        held_values(discriminant);
        assert forall|i: int| 0 <= i < n && (#[trigger] variants[i]).discriminant_value is Some implies can_hold(
            discriminant,
            variants[i].discriminant_value->0 as int,
        ) by {
            discriminants_count_up(discriminant, variants, n, i);
        }
        assert forall|i: int, j: int| 0 <= i < j < n && variants[i].discriminant_value is Some implies (
        #[trigger] variants[i]).discriminant_value != (#[trigger] variants[j]).discriminant_value by {
            discriminants_count_up(discriminant, variants, n, i);
        }
    }
}

proof fn layout_faults(discriminant: Ty, variants: Seq<VariantTy>, n: nat)
    requires
        n <= variants.len(),
    ensures
        payload_offsets(discriminant, variants, n) is None ==> exists|i: int|
            0 <= i < variants.len() && ((#[trigger] variants[i]).value matches Some(payload) && tagged(
                discriminant,
                payload,
            ) is None),
    decreases n,
{
    if n > 0 {
        layout_faults(discriminant, variants, (n - 1) as nat);
        if payload_offsets(discriminant, variants, n) is None && payload_offsets(
            discriminant,
            variants,
            (n - 1) as nat,
        ) is Some {
            assert(tagged(discriminant, variants[n - 1].value->0) is None);
        }
    }
}

proof fn largest_has_offset(discriminant: Ty, variants: Seq<VariantTy>, n: nat)
    requires
        payload_offsets(discriminant, variants, n) is Some,
    ensures
        largest_payload(variants, n) matches Some(payload) ==> tagged(discriminant, payload) is Some,
    decreases n,
{
    if n > 0 {
        largest_has_offset(discriminant, variants, (n - 1) as nat);
    }
}

proof fn duplicate_is_there(variants: Seq<VariantTy>, k: nat)
    requires
        duplicate_variant(variants, k) is Some,
    ensures
        exists|i: int, j: int|
            0 <= i < j < variants.len() && (#[trigger] variants[i]).name == duplicate_variant(variants, k)->0 && (
            #[trigger] variants[j]).name == duplicate_variant(variants, k)->0,
    decreases variants.len() - k,
{
    if defined_again(variants, k as int) {
        let j = choose|j: int| k < j < variants.len() && (#[trigger] variants[j]).name == variants[k as int].name;
        assert(variants[k as int].name == variants[j].name);
    } else {
        duplicate_is_there(variants, k + 1);
    }
}

proof fn discriminant_faults(ty: Ty, variants: Seq<VariantTy>, n: nat)
    requires
        n <= variants.len(),
        can_tag(ty),
    ensures
        discriminants(ty, variants, n) matches Err(fault) ==> match fault {
            EnumFault::Value(variant, found, value) => found == ty && value > discriminant_max(ty)->0
                && exists|i: int|
                0 <= i < variants.len() && (#[trigger] variants[i]).name == variant
                    && variants[i].discriminant_value == Some(value),
            EnumFault::ImplicitValue(variant, found, last) => found == ty && last + 1 > discriminant_max(ty)->0
                && exists|i: int|
                0 <= i < variants.len() && (#[trigger] variants[i]).name == variant
                    && variants[i].discriminant_value is None,
            EnumFault::DuplicateValue(variant, value) => exists|i: int, j: int|
                0 <= i < variants.len() && 0 <= j < variants.len() && i != j && (#[trigger] variants[i]).name == variant
                    && (#[trigger] variants[j]).discriminant_value == Some(value),
            _ => false,
        },
    decreases n,
{
    if n > 0 {
        discriminant_faults(ty, variants, (n - 1) as nat);
        let own = variants[n - 1];
        if let Ok(values) = discriminants(ty, variants, (n - 1) as nat) {
            let value: u128 = match own.discriminant_value {
                Some(value) => value,
                None => (if n == 1 {
                    0
                } else {
                    values.last() + 1
                }) as u128,
            };
            if claimed(variants, n - 1, value) {
                let j = choose|j: int|
                    0 <= j < variants.len() && j != n - 1 && (#[trigger] variants[j]).discriminant_value == Some(value);
                assert(variants[n - 1].name == own.name && variants[j].discriminant_value == Some(value));
            }
            assert(variants[n - 1].name == own.name);
        }
    }
}

/// Variants without payloads, with different names and with different values that fit the discriminant,
/// always make an enum.
pub proof fn plain_enums_can_be_made(name: Seq<char>, discriminant: Ty, variants: Seq<VariantTy>)
    requires
        can_tag(discriminant),
        forall|i: int|
            0 <= i < variants.len() ==> (#[trigger] variants[i]).value is None && variants[i].discriminant_value is Some
                && can_hold(discriminant, variants[i].discriminant_value->0 as int),
        forall|i: int, j: int|
            0 <= i < j < variants.len() ==> (#[trigger] variants[i]).name != (#[trigger] variants[j]).name
                && variants[i].discriminant_value != variants[j].discriminant_value,
    ensures
        make_enum(name, discriminant, variants) is Ok,
{
    held_values(discriminant);
    if duplicate_variant(variants, 0) is Some {
        duplicate_is_there(variants, 0);
    }
    plain_discriminants(discriminant, variants, variants.len());
    plain_offsets(discriminant, variants, variants.len());
    plain_largest(variants, variants.len());
}

proof fn plain_discriminants(ty: Ty, variants: Seq<VariantTy>, n: nat)
    requires
        n <= variants.len(),
        can_tag(ty),
        forall|i: int|
            0 <= i < variants.len() ==> (#[trigger] variants[i]).discriminant_value is Some
                && variants[i].discriminant_value->0 <= discriminant_max(ty)->0,
        forall|i: int, j: int|
            0 <= i < j < variants.len() ==> (#[trigger] variants[i]).discriminant_value != (
            #[trigger] variants[j]).discriminant_value,
    ensures
        discriminants(ty, variants, n) is Ok,
    decreases n,
{
    if n > 0 {
        plain_discriminants(ty, variants, (n - 1) as nat);
        let value = variants[n - 1].discriminant_value->0;
        if claimed(variants, n - 1, value) {
            let j = choose|j: int|
                0 <= j < variants.len() && j != n - 1 && (#[trigger] variants[j]).discriminant_value == Some(value);
            if j < n - 1 {
                assert(variants[j].discriminant_value != variants[n - 1].discriminant_value);
            } else {
                assert(variants[n - 1].discriminant_value != variants[j].discriminant_value);
            }
        }
    }
}

proof fn plain_offsets(ty: Ty, variants: Seq<VariantTy>, n: nat)
    requires
        n <= variants.len(),
        forall|i: int| 0 <= i < variants.len() ==> (#[trigger] variants[i]).value is None,
    ensures
        payload_offsets(ty, variants, n) is Some,
    decreases n,
{
    if n > 0 {
        plain_offsets(ty, variants, (n - 1) as nat);
    }
}

proof fn plain_largest(variants: Seq<VariantTy>, n: nat)
    requires
        n <= variants.len(),
        forall|i: int| 0 <= i < variants.len() ==> (#[trigger] variants[i]).value is None,
    ensures
        largest_payload(variants, n) is None,
    decreases n,
{
    if n > 0 {
        plain_largest(variants, (n - 1) as nat);
    }
}

/// The discriminant values of variants: a value that is given is taken, the first is 0 and every other
/// one more than the one before; each fits the discriminant, and none that is given is met twice.
pub proof fn discriminants_count_up(ty: Ty, variants: Seq<VariantTy>, n: nat, i: int)
    requires
        n <= variants.len(),
        0 <= i < n,
        discriminants(ty, variants, n) is Ok,
    ensures
        ({
            let values = discriminants(ty, variants, n)->Ok_0;
            &&& values.len() == n
            &&& values[i] <= discriminant_max(ty)->0
            &&& match variants[i].discriminant_value {
                Some(value) => values[i] == value,
                None => i == 0 && values[i] == 0 || i > 0 && values[i] == values[i - 1] + 1,
            }
            &&& forall|j: int|
                0 <= j < variants.len() && j != i ==> (#[trigger] variants[j]).discriminant_value != Some(values[i])
        }),
    decreases n,
{
    discriminants_len(ty, variants, n);
    discriminants_len(ty, variants, (n - 1) as nat);
    let before = discriminants(ty, variants, (n - 1) as nat)->Ok_0;
    let values = discriminants(ty, variants, n)->Ok_0;
    if i < n - 1 {
        discriminants_count_up(ty, variants, (n - 1) as nat, i);
        assert(values[i] == before[i]);
        if i > 0 {
            assert(values[i - 1] == before[i - 1]);
        }
    } else {
        assert(!claimed(variants, i, values[i]));
    }
}

proof fn discriminants_len(ty: Ty, variants: Seq<VariantTy>, n: nat)
    requires
        discriminants(ty, variants, n) is Ok,
    ensures
        discriminants(ty, variants, n)->Ok_0.len() == n,
    decreases n,
{
    if n > 0 {
        discriminants_len(ty, variants, (n - 1) as nat);
    }
}

// ARRAYS
// ================================================================================================

/// The first element of an array stands at its start, and every other one at the first multiple of its
/// alignment behind the one before.
pub proof fn elements_stand_at_their_alignment(element: Ty, n: nat)
    requires
        bits_of(Ty::Array(Box::new(element), n + 1)) is Some,
        is_alignment(align_of(element)),
    ensures
        bits_of(element) is Some,
        bits_of(Ty::Array(Box::new(element), n)) is Some,
        align_of(Ty::Array(Box::new(element), n)) == align_of(element),
        ({
            let before = bits_of(Ty::Array(Box::new(element), n))->0;
            let start = bits_of(Ty::Array(Box::new(element), n + 1))->0 - bits_of(element)->0;
            &&& n == 0 ==> before == 0 && start == 0
            &&& before <= start < before + align_of(element) * 8
            &&& start % (align_of(element) * 8) as int == 0
        }),
{
    let unit = align_of(element) * 8;
    let bits = bits_of(element)->0;
    let stride = align_up(bits, unit);
    rounding_gives_the_least_multiple(bits, unit, 0);
    assert(bits_of(Ty::Array(Box::new(element), n + 1)) == Some(array_bits(bits, align_of(element), n + 1)));
    if n == 0 {
        assert(stride * 0 == 0);
        assert(0int % (unit as int) == 0) by (nonlinear_arith)
            requires
                unit > 0,
        ;
    } else {
        assert(stride * n == stride * ((n - 1) as nat) + stride) by (nonlinear_arith)
            requires
                n > 0,
        ;
        assert(array_bits(bits, align_of(element), n) <= array_bits(bits, align_of(element), n + 1));
        assert(bits_of(Ty::Array(Box::new(element), n)) == Some(array_bits(bits, align_of(element), n)));
        assert((stride * n) % unit == 0) by (nonlinear_arith)
            requires
                stride % unit == 0,
                unit > 0,
        {
            let k = stride / unit;
            assert(stride == unit * k);
            assert(stride * n == unit * (k * n));
            vstd::arithmetic::div_mod::lemma_mod_multiples_basic((k * n) as int, unit as int);
            assert((k * n) as int * unit as int == stride * n);
        }
    }
}

/// A value takes no more than its padded size wherever it may be placed.
pub proof fn padded_values_fit_anywhere(ty: Ty, start: nat)
    requires
        align_of(ty) > 0,
        bytes_of(ty) > 0,
    ensures
        align_up(start, align_of(ty)) + bytes_of(ty) < start + padded_size(ty),
        padded_size(ty) <= bytes_of(ty) + align_of(ty),
{
    rounding_gives_the_least_multiple(start, align_of(ty), 0);
}

// SCALARS
// ================================================================================================

/// The sizes of scalars: integers take their bits, a field element takes 32, and nothing is what is
/// unknown or never there. A pointer and a function take 32 bits, whatever they point at.
pub proof fn scalars_take_their_bits(
    addrspace: AddressSpace,
    abi: CallConv,
    inner: Ty,
    params: Seq<Ty>,
    results: Seq<Ty>,
)
    ensures
        bytes_of(Ty::Scalar(Scalar::Unknown)) == 0 && bytes_of(Ty::Scalar(Scalar::Never)) == 0,
        bits_of(Ty::Scalar(Scalar::I1)) == Some(1nat),
        bytes_of(Ty::Scalar(Scalar::I8)) == 1 && bytes_of(Ty::Scalar(Scalar::U8)) == 1,
        bytes_of(Ty::Scalar(Scalar::I16)) == 2 && bytes_of(Ty::Scalar(Scalar::U16)) == 2,
        bytes_of(Ty::Scalar(Scalar::I32)) == 4 && bytes_of(Ty::Scalar(Scalar::U32)) == 4,
        bytes_of(Ty::Scalar(Scalar::Felt)) == 4,
        bytes_of(Ty::Scalar(Scalar::I64)) == 8 && bytes_of(Ty::Scalar(Scalar::U64)) == 8,
        bytes_of(Ty::Scalar(Scalar::F64)) == 8,
        bytes_of(Ty::Scalar(Scalar::I128)) == 16 && bytes_of(Ty::Scalar(Scalar::U128)) == 16,
        bytes_of(Ty::Scalar(Scalar::U256)) == 32,
        bytes_of(Ty::Ptr(addrspace, Box::new(inner))) == 4 && align_of(Ty::Ptr(addrspace, Box::new(inner))) == 4,
        bytes_of(Ty::List(Box::new(inner))) == 8 && align_of(Ty::List(Box::new(inner))) == 4,
        bytes_of(Ty::Function(abi, params, results)) == 4 && align_of(Ty::Function(abi, params, results)) == 4,
        is_zero_sized(Ty::Scalar(Scalar::Never)) && !is_zero_sized(Ty::Ptr(addrspace, Box::new(inner))),
        align_of(Ty::Scalar(Scalar::U8)) == 1 && align_of(Ty::Scalar(Scalar::U16)) == 2,
        align_of(Ty::Scalar(Scalar::U32)) == 4 && align_of(Ty::Scalar(Scalar::Felt)) == 4,
        align_of(Ty::Scalar(Scalar::U64)) == 4 && align_of(Ty::Scalar(Scalar::F64)) == 4,
        align_of(Ty::Scalar(Scalar::U128)) == 16 && align_of(Ty::Scalar(Scalar::U256)) == 16,
{
}

/// Nothing is taken by what is never there, by no elements or elements that take nothing, by fields that
/// all take nothing, and by an enum without variants; and by nothing else.
pub proof fn what_takes_nothing(
    scalar: Scalar,
    addrspace: AddressSpace,
    abi: CallConv,
    inner: Ty,
    len: nat,
    params: Seq<Ty>,
    results: Seq<Ty>,
    body: StructTy,
    choices: EnumTy,
)
    ensures
        is_zero_sized(Ty::Scalar(scalar)) <==> scalar == Scalar::Never,
        is_zero_sized(Ty::Array(Box::new(inner), len)) <==> len == 0 || is_zero_sized(inner),
        is_zero_sized(Ty::Struct(body)) <==> forall|i: int|
            0 <= i < body.fields.len() ==> is_zero_sized((#[trigger] body.fields[i]).ty),
        is_zero_sized(Ty::Enum(choices)) <==> choices.variants.len() == 0,
        !is_zero_sized(Ty::Ptr(addrspace, Box::new(inner))),
        !is_zero_sized(Ty::List(Box::new(inner))),
        !is_zero_sized(Ty::Function(abi, params, results)),
{
}

/// A struct has the alignment that its representation names, or else the largest of its fields.
pub proof fn structs_have_their_alignment(body: StructTy)
    ensures
        match body.repr {
            TypeRepr::Align(align) => align_of(Ty::Struct(body)) == align,
            TypeRepr::Packed(align) => align_of(Ty::Struct(body)) == align,
            _ => {
                let align = align_of(Ty::Struct(body));
                &&& forall|i: int| 0 <= i < body.fields.len() ==> (#[trigger] body.fields[i]).align <= align
                &&& align == 1 || exists|i: int|
                    0 <= i < body.fields.len() && (#[trigger] body.fields[i]).align == align
            },
        },
        bytes_of(Ty::Struct(body)) == body.size,
{
    let aligns = field_aligns(body.fields);
    largest_is_the_largest(aligns);
    assert forall|i: int| 0 <= i < body.fields.len() implies aligns[i] == (#[trigger] body.fields[i]).align by {}
    if aligns.contains(largest(aligns)) {
        let i = choose|i: int| 0 <= i < aligns.len() && aligns[i] == largest(aligns);
        assert(body.fields[i].align == largest(aligns));
    }
}

/// A type has a layout exactly where its size and alignment are in range, and it is made of them.
pub proof fn layouts_are_sizes_and_alignments(ty: Ty)
    ensures
        layout_of(ty) is Some <==> bits_of(ty) is Some && bytes_of(ty) < 0x1_0000_0000 && 0 < align_of(ty) < 0x1_0000,
        layout_of(ty) matches Some(layout) ==> {
            &&& layout.size_in_bytes == bytes_of(ty)
            &&& layout.min_alignment == align_of(ty)
            &&& layout.is_zst == is_zero_sized(ty)
        },
{
}

} // verus!
