//! Types of the same layout, and what follows for the types that hold them.
use vstd::prelude::*;

use crate::aggregates::{
    claimed, defined_again, discriminants, duplicate_variant, field_at, field_offset, fields_end, largest_payload,
    make_enum, make_struct, part_aligns, payload_offsets, struct_valid, tagged, PartTy,
};
use crate::closing::{close, close_all, close_fields, close_variants, stand_in};
use crate::layout::{align_of, bits_of, bytes_of, field_aligns, is_zero_sized, layout_of, struct_align};
use crate::opening::{close_all_each, close_fields_each, close_variants_each};
use crate::templates::{exposes, refers_to, FieldTpl, Tpl, VariantTpl};
use crate::types::{EnumTy, FieldTy, Ty, TypeRepr, VariantTy};

verus! {

/// The types have the same size, the same alignment, and are both zero-sized or both not.
pub open spec fn alike(a: Ty, b: Ty) -> bool {
    &&& bits_of(a) == bits_of(b)
    &&& align_of(a) == align_of(b)
    &&& is_zero_sized(a) == is_zero_sized(b)
}

/// A stand-in reproduces the layout that it stands for exactly.
pub proof fn stand_in_is_alike(ty: Ty)
    requires
        layout_of(ty) is Some,
        ty is Struct || ty is Enum || ty is RecStruct || ty is RecEnum,
    ensures
        alike(stand_in(layout_of(ty)), ty),
{
    let layout = layout_of(ty)->0;
    let body = stand_in(Some(layout))->Struct_0;
    reveal_with_fuel(is_zero_sized, 3);
    if !layout.is_zst {
        assert(!is_zero_sized(body.fields[0].ty));
    }
}

// STRUCTS
// ================================================================================================

/// The parts have the same names, and types of the same layout.
pub open spec fn parts_alike(a: Seq<PartTy>, b: Seq<PartTy>) -> bool {
    &&& a.len() == b.len()
    &&& forall|i: int| 0 <= i < a.len() ==> (#[trigger] a[i]).name == b[i].name && alike(a[i].ty, b[i].ty)
}

proof fn fields_end_alike(repr: TypeRepr, a: Seq<PartTy>, b: Seq<PartTy>, n: nat)
    requires
        parts_alike(a, b),
        n <= a.len(),
    ensures
        fields_end(repr, a, n) == fields_end(repr, b, n),
        n < a.len() ==> field_offset(repr, a, n) == field_offset(repr, b, n),
    decreases n,
{
    if n > 0 {
        fields_end_alike(repr, a, b, (n - 1) as nat);
        assert(alike(a[n - 1].ty, b[n - 1].ty));
    }
    if n < a.len() {
        assert(alike(a[n as int].ty, b[n as int].ty));
    }
}

/// Structs made of parts of the same layout have the same layout: one can be made where the other
/// can, and their fields differ in nothing but their types.
pub proof fn structs_alike(name: Option<Seq<char>>, repr: TypeRepr, a: Seq<PartTy>, b: Seq<PartTy>)
    requires
        parts_alike(a, b),
    ensures
        make_struct(name, repr, a) is Some == make_struct(name, repr, b) is Some,
        make_struct(name, repr, a) matches Some(x) ==> {
            let y = make_struct(name, repr, b)->0;
            &&& x.size == y.size
            &&& x.fields.len() == a.len()
            &&& y.fields.len() == b.len()
            &&& struct_align(x) == struct_align(y)
            &&& alike(Ty::Struct(x), Ty::Struct(y))
            &&& forall|i: int|
                0 <= i < a.len() ==> (#[trigger] x.fields[i]) == (FieldTy { ty: a[i].ty, ..y.fields[i] })
        },
{
    assert(part_aligns(a) =~= part_aligns(b)) by {
        assert forall|i: int| 0 <= i < a.len() implies #[trigger] part_aligns(a)[i] == part_aligns(b)[i] by {
            assert(alike(a[i].ty, b[i].ty));
        }
    }
    fields_end_alike(repr, a, b, a.len());
    assert forall|i: int| 0 <= i < a.len() implies #[trigger] a[i].name == b[i].name && alike(a[i].ty, b[i].ty)
        && bytes_of(a[i].ty) == bytes_of(b[i].ty) by {}
    assert(struct_valid(repr, a) == struct_valid(repr, b)) by {
        assert forall|i: int| 0 <= i < a.len() implies bits_of((#[trigger] b[i]).ty) == bits_of(a[i].ty)
            && align_of(b[i].ty) == align_of(a[i].ty) by {
            assert(a[i].name == b[i].name);
        }
    }
    if struct_valid(repr, a) {
        let x = make_struct(name, repr, a)->0;
        let y = make_struct(name, repr, b)->0;
        assert forall|i: int| 0 <= i < a.len() implies (#[trigger] x.fields[i]) == (FieldTy {
            ty: a[i].ty,
            ..y.fields[i]
        }) by {
            fields_end_alike(repr, a, b, i as nat);
            assert(alike(a[i].ty, b[i].ty));
            assert(x.fields[i] == field_at(repr, a, i));
            assert(y.fields[i] == field_at(repr, b, i));
        }
        assert(field_aligns(x.fields) =~= field_aligns(y.fields)) by {
            assert forall|i: int| 0 <= i < a.len() implies #[trigger] field_aligns(x.fields)[i] == field_aligns(
                y.fields,
            )[i] by {
                assert(x.fields[i].align == y.fields[i].align);
            }
        }
        assert forall|i: int| 0 <= i < x.fields.len() implies is_zero_sized((#[trigger] x.fields[i]).ty)
            == is_zero_sized(y.fields[i].ty) by {
            assert(alike(a[i].ty, b[i].ty));
            assert(x.fields[i] == field_at(repr, a, i));
            assert(y.fields[i] == field_at(repr, b, i));
        }
        assert(is_zero_sized(Ty::Struct(x)) == is_zero_sized(Ty::Struct(y))) by {
            if is_zero_sized(Ty::Struct(x)) {
                assert forall|i: int| 0 <= i < y.fields.len() implies is_zero_sized((#[trigger] y.fields[i]).ty) by {
                    assert(is_zero_sized(x.fields[i].ty));
                }
            }
            if is_zero_sized(Ty::Struct(y)) {
                assert forall|i: int| 0 <= i < x.fields.len() implies is_zero_sized((#[trigger] x.fields[i]).ty) by {
                    assert(is_zero_sized(y.fields[i].ty));
                }
            }
        }
    }
}

// ENUMS
// ================================================================================================

/// The variants have the same names and discriminants, and payloads of the same layout.
pub open spec fn variants_alike(a: Seq<VariantTy>, b: Seq<VariantTy>) -> bool {
    &&& a.len() == b.len()
    &&& forall|i: int|
        0 <= i < a.len() ==> {
            &&& (#[trigger] a[i]).name == b[i].name
            &&& a[i].discriminant_value == b[i].discriminant_value
            &&& match (a[i].value, b[i].value) {
                (Some(x), Some(y)) => alike(x, y),
                (None, None) => true,
                _ => false,
            }
        }
}

proof fn duplicates_alike(a: Seq<VariantTy>, b: Seq<VariantTy>, i: nat)
    requires
        variants_alike(a, b),
    ensures
        duplicate_variant(a, i) == duplicate_variant(b, i),
    decreases a.len() - i,
{
    if i < a.len() {
        duplicates_alike(a, b, i + 1);
        assert(a[i as int].name == b[i as int].name);
        assert(defined_again(a, i as int) == defined_again(b, i as int)) by {
            if defined_again(a, i as int) {
                let j = choose|j: int| i < j < a.len() && (#[trigger] a[j]).name == a[i as int].name;
                assert(b[j].name == b[i as int].name);
            }
            if defined_again(b, i as int) {
                let j = choose|j: int| i < j < b.len() && (#[trigger] b[j]).name == b[i as int].name;
                assert(a[j].name == a[i as int].name);
            }
        }
    }
}

proof fn claims_alike(a: Seq<VariantTy>, b: Seq<VariantTy>, i: int, value: u128)
    requires
        variants_alike(a, b),
    ensures
        claimed(a, i, value) == claimed(b, i, value),
{
    if claimed(a, i, value) {
        let j = choose|j: int| 0 <= j < a.len() && j != i && (#[trigger] a[j]).discriminant_value == Some(value);
        assert(b[j].discriminant_value == Some(value));
    }
    if claimed(b, i, value) {
        let j = choose|j: int| 0 <= j < b.len() && j != i && (#[trigger] b[j]).discriminant_value == Some(value);
        assert(a[j].discriminant_value == Some(value));
    }
}

proof fn discriminants_alike(ty: Ty, a: Seq<VariantTy>, b: Seq<VariantTy>, n: nat)
    requires
        variants_alike(a, b),
        n <= a.len(),
    ensures
        discriminants(ty, a, n) == discriminants(ty, b, n),
    decreases n,
{
    if n > 0 {
        discriminants_alike(ty, a, b, (n - 1) as nat);
        assert(a[n - 1].name == b[n - 1].name);
        match discriminants(ty, a, (n - 1) as nat) {
            Err(_) => {},
            Ok(values) => match a[n - 1].discriminant_value {
                Some(value) => claims_alike(a, b, n - 1, value),
                None => {
                    let value = if n == 1 {
                        0
                    } else {
                        values.last() + 1
                    };
                    claims_alike(a, b, n - 1, value as u128);
                },
            },
        }
    }
}

proof fn tagged_alike(discriminant: Ty, x: Ty, y: Ty)
    requires
        alike(x, y),
    ensures
        tagged(discriminant, x) is Some == tagged(discriminant, y) is Some,
        tagged(discriminant, x) matches Some(a) ==> {
            let b = tagged(discriminant, y)->0;
            &&& a.size == b.size
            &&& struct_align(a) == struct_align(b)
            &&& a.fields[1].offset == b.fields[1].offset
        },
{
    let p = seq![PartTy { name: None, ty: discriminant }, PartTy { name: None, ty: x }];
    let q = seq![PartTy { name: None, ty: discriminant }, PartTy { name: None, ty: y }];
    assert(parts_alike(p, q));
    structs_alike(None, TypeRepr::Default, p, q);
    if let Some(a) = tagged(discriminant, x) {
        assert(a.fields[1] == (FieldTy { ty: x, ..tagged(discriminant, y)->0.fields[1] }));
    }
}

proof fn payloads_alike(discriminant: Ty, a: Seq<VariantTy>, b: Seq<VariantTy>, n: nat)
    requires
        variants_alike(a, b),
        n <= a.len(),
    ensures
        payload_offsets(discriminant, a, n) == payload_offsets(discriminant, b, n),
        match (largest_payload(a, n), largest_payload(b, n)) {
            (Some(x), Some(y)) => alike(x, y),
            (None, None) => true,
            _ => false,
        },
    decreases n,
{
    if n > 0 {
        payloads_alike(discriminant, a, b, (n - 1) as nat);
        assert(a[n - 1].name == b[n - 1].name);
        match (a[n - 1].value, b[n - 1].value) {
            (Some(x), Some(y)) => tagged_alike(discriminant, x, y),
            _ => {},
        }
    }
}

/// Enums made of variants of the same layout have the same layout: one can be made where the other
/// can, and they differ in nothing but the variants.
pub proof fn enums_alike(name: Seq<char>, discriminant: Ty, a: Seq<VariantTy>, b: Seq<VariantTy>)
    requires
        variants_alike(a, b),
    ensures
        match (make_enum(name, discriminant, a), make_enum(name, discriminant, b)) {
            (Ok(x), Ok(y)) => {
                &&& x == (EnumTy { variants: a, ..y })
                &&& alike(Ty::Enum(x), Ty::Enum(y))
            },
            (Err(x), Err(y)) => x == y,
            _ => false,
        },
{
    duplicates_alike(a, b, 0);
    discriminants_alike(discriminant, a, b, a.len());
    payloads_alike(discriminant, a, b, a.len());
    match (largest_payload(a, a.len()), largest_payload(b, b.len())) {
        (Some(x), Some(y)) => tagged_alike(discriminant, x, y),
        _ => {},
    }
}

// TEMPLATES
// ================================================================================================

/// The names that a template refers to are defined, and refer to the same.
pub open spec fn same_references(template: Tpl, a: Map<Seq<char>, Ty>, b: Map<Seq<char>, Ty>) -> bool {
    forall|name: Seq<char>| #[trigger]
        refers_to(template, name) ==> a.contains_key(name) == b.contains_key(name) && (a.contains_key(name)
            ==> a[name] == b[name])
}

/// What a template describes depends on nothing but the names that it refers to.
pub proof fn close_depends_on_references(template: Tpl, a: Map<Seq<char>, Ty>, b: Map<Seq<char>, Ty>)
    requires
        same_references(template, a, b),
    ensures
        close(template, a) == close(template, b),
    decreases template, 0nat,
{
    match template {
        Tpl::Rec(name) => {
            assert(refers_to(template, name));
        },
        Tpl::Ptr(_, inner) => {
            assert forall|name: Seq<char>| #[trigger] refers_to(*inner, name) implies refers_to(template, name) by {}
            close_depends_on_references(*inner, a, b);
        },
        Tpl::Array(inner, _) => {
            assert forall|name: Seq<char>| #[trigger] refers_to(*inner, name) implies refers_to(template, name) by {}
            close_depends_on_references(*inner, a, b);
        },
        Tpl::List(inner) => {
            assert forall|name: Seq<char>| #[trigger] refers_to(*inner, name) implies refers_to(template, name) by {}
            close_depends_on_references(*inner, a, b);
        },
        Tpl::Function(_, params, results) => {
            assert forall|i: int, name: Seq<char>|
                0 <= i < params.len() && #[trigger] refers_to(params[i], name) implies refers_to(template, name) by {}
            assert forall|i: int, name: Seq<char>|
                0 <= i < results.len() && #[trigger] refers_to(results[i], name) implies refers_to(
                template,
                name,
            ) by {}
            close_all_depends(params, a, b, params.len());
            close_all_depends(results, a, b, results.len());
        },
        Tpl::Struct(body) => {
            assert forall|i: int, name: Seq<char>|
                0 <= i < body.fields.len() && #[trigger] refers_to(body.fields[i].ty, name) implies refers_to(
                template,
                name,
            ) by {}
            close_fields_depends(body.fields, a, b, body.fields.len());
        },
        Tpl::Enum(body) => {
            assert forall|i: int, name: Seq<char>|
                0 <= i < body.variants.len() && body.variants[i].value is Some && #[trigger] refers_to(
                    body.variants[i].value->0,
                    name,
                ) implies refers_to(template, name) by {
                assert(body.variants[i].value is Some);
            }
            close_variants_depends(body.variants, a, b, body.variants.len());
        },
        Tpl::Type(_) => {},
    }
}

proof fn close_all_depends(templates: Seq<Tpl>, a: Map<Seq<char>, Ty>, b: Map<Seq<char>, Ty>, n: nat)
    requires
        n <= templates.len(),
        forall|i: int| 0 <= i < templates.len() ==> same_references(#[trigger] templates[i], a, b),
    ensures
        close_all(templates, a, n) == close_all(templates, b, n),
    decreases templates, n,
{
    if n > 0 {
        close_all_depends(templates, a, b, (n - 1) as nat);
        close_depends_on_references(templates[n - 1], a, b);
    }
}

proof fn close_fields_depends(fields: Seq<FieldTpl>, a: Map<Seq<char>, Ty>, b: Map<Seq<char>, Ty>, n: nat)
    requires
        n <= fields.len(),
        forall|i: int| 0 <= i < fields.len() ==> same_references((#[trigger] fields[i]).ty, a, b),
    ensures
        close_fields(fields, a, n) == close_fields(fields, b, n),
    decreases fields, n,
{
    if n > 0 {
        close_fields_depends(fields, a, b, (n - 1) as nat);
        close_depends_on_references(fields[n - 1].ty, a, b);
    }
}

proof fn close_variants_depends(variants: Seq<VariantTpl>, a: Map<Seq<char>, Ty>, b: Map<Seq<char>, Ty>, n: nat)
    requires
        n <= variants.len(),
        forall|i: int|
            0 <= i < variants.len() && (#[trigger] variants[i]).value is Some ==> same_references(
                variants[i].value->0,
                a,
                b,
            ),
    ensures
        close_variants(variants, a, n) == close_variants(variants, b, n),
    decreases variants, n,
{
    if n > 0 {
        close_variants_depends(variants, a, b, (n - 1) as nat);
        if let Some(value) = variants[n - 1].value {
            close_depends_on_references(value, a, b);
        }
    }
}

/// A template that describes a type refers to defined names only.
pub proof fn closed_is_defined(template: Tpl, env: Map<Seq<char>, Ty>, name: Seq<char>)
    requires
        close(template, env) is Ok,
        refers_to(template, name),
    ensures
        env.contains_key(name),
    decreases template,
{
    match template {
        Tpl::Ptr(_, inner) => closed_is_defined(*inner, env, name),
        Tpl::Array(inner, _) => closed_is_defined(*inner, env, name),
        Tpl::List(inner) => closed_is_defined(*inner, env, name),
        Tpl::Function(_, params, results) => {
            close_all_each(params, env, params.len());
            close_all_each(results, env, results.len());
            if exists|i: int| 0 <= i < params.len() && refers_to(#[trigger] params[i], name) {
                let i = choose|i: int| 0 <= i < params.len() && refers_to(#[trigger] params[i], name);
                closed_is_defined(params[i], env, name);
            } else {
                let i = choose|i: int| 0 <= i < results.len() && refers_to(#[trigger] results[i], name);
                closed_is_defined(results[i], env, name);
            }
        },
        Tpl::Struct(body) => {
            close_fields_each(body.fields, env, body.fields.len());
            let i = choose|i: int| 0 <= i < body.fields.len() && refers_to((#[trigger] body.fields[i]).ty, name);
            closed_is_defined(body.fields[i].ty, env, name);
        },
        Tpl::Enum(body) => {
            close_variants_each(body.variants, env, body.variants.len());
            let i = choose|i: int|
                0 <= i < body.variants.len() && match (#[trigger] body.variants[i]).value {
                    Some(value) => refers_to(value, name),
                    None => false,
                };
            closed_is_defined(body.variants[i].value->0, env, name);
        },
        _ => {},
    }
}

/// Every name that a template exposes refers to types of the same layout.
pub open spec fn exposed_alike(template: Tpl, a: Map<Seq<char>, Ty>, b: Map<Seq<char>, Ty>) -> bool {
    forall|name: Seq<char>| #[trigger] exposes(template, name) ==> alike(a[name], b[name])
}

/// The layout of what a template describes depends on nothing but the layouts of what it exposes:
/// whatever lies below a barrier does not count.
pub proof fn layout_depends_on_exposed(template: Tpl, a: Map<Seq<char>, Ty>, b: Map<Seq<char>, Ty>)
    requires
        close(template, a) is Ok,
        close(template, b) is Ok,
        exposed_alike(template, a, b),
    ensures
        alike(close(template, a)->Ok_0, close(template, b)->Ok_0),
    decreases template,
{
    match template {
        Tpl::Rec(name) => {
            assert(exposes(template, name));
        },
        Tpl::Array(inner, _) => {
            assert forall|name: Seq<char>| #[trigger] exposes(*inner, name) implies exposes(template, name) by {}
            layout_depends_on_exposed(*inner, a, b);
        },
        Tpl::Struct(body) => {
            let n = body.fields.len();
            close_fields_each(body.fields, a, n);
            close_fields_each(body.fields, b, n);
            let p = close_fields(body.fields, a, n)->Ok_0;
            let q = close_fields(body.fields, b, n)->Ok_0;
            assert forall|i: int| 0 <= i < n implies (#[trigger] p[i]).name == q[i].name && alike(p[i].ty, q[i].ty) by {
                let inner = body.fields[i].ty;
                assert forall|name: Seq<char>| #[trigger] exposes(inner, name) implies exposes(template, name) by {
                    assert(exposes(body.fields[i].ty, name));
                }
                layout_depends_on_exposed(inner, a, b);
            }
            structs_alike(body.name, body.repr, p, q);
        },
        Tpl::Enum(body) => {
            let n = body.variants.len();
            close_variants_each(body.variants, a, n);
            close_variants_each(body.variants, b, n);
            let p = close_variants(body.variants, a, n)->Ok_0;
            let q = close_variants(body.variants, b, n)->Ok_0;
            assert forall|i: int| 0 <= i < n implies {
                &&& (#[trigger] p[i]).name == q[i].name
                &&& p[i].discriminant_value == q[i].discriminant_value
                &&& match (p[i].value, q[i].value) {
                    (Some(x), Some(y)) => alike(x, y),
                    (None, None) => true,
                    _ => false,
                }
            } by {
                assert(body.variants[i].name == p[i].name);
                if let Some(inner) = body.variants[i].value {
                    assert forall|name: Seq<char>| #[trigger] exposes(inner, name) implies exposes(template, name) by {
                        assert(body.variants[i].value is Some);
                    }
                    layout_depends_on_exposed(inner, a, b);
                }
            }
            enums_alike(body.name, body.discriminant, p, q);
        },
        _ => {},
    }
}

} // verus!
