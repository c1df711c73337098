//! What a template describes: the types that its names refer to, where the references stand, in types
//! that are otherwise as the template has them.
use vstd::prelude::*;

use crate::closing::{close, close_all};
use crate::guard_laws::{at, child};
use crate::opening::{close_all_each, close_fields_each, close_variants_each};
use crate::templates::Tpl;
use crate::types::Ty;

verus! {

/// The `i`-th type directly within a type: what is pointed at, an element, a parameter or result, the
/// type of a field, or the payload of a variant.
pub open spec fn part(ty: Ty, i: int) -> Option<Ty> {
    match ty {
        Ty::Ptr(_, inner) => if i == 0 {
            Some(*inner)
        } else {
            None
        },
        Ty::Array(inner, _) => if i == 0 {
            Some(*inner)
        } else {
            None
        },
        Ty::List(inner) => if i == 0 {
            Some(*inner)
        } else {
            None
        },
        Ty::Function(_, params, results) => if 0 <= i < params.len() {
            Some(params[i])
        } else if params.len() <= i < params.len() + results.len() {
            Some(results[i - params.len()])
        } else {
            None
        },
        Ty::Struct(body) => if 0 <= i < body.fields.len() {
            Some(body.fields[i].ty)
        } else {
            None
        },
        Ty::Enum(body) => if 0 <= i < body.variants.len() {
            body.variants[i].value
        } else {
            None
        },
        _ => None,
    }
}

/// What stands at the end of a path into a type.
pub open spec fn ty_at(ty: Ty, way: Seq<int>) -> Option<Ty>
    decreases way.len(),
{
    if way.len() == 0 {
        Some(ty)
    } else {
        match part(ty, way[0]) {
            None => None,
            Some(inner) => ty_at(inner, way.skip(1)),
        }
    }
}

/// A type is made as a template is, whatever stands within them.
pub open spec fn same_head(template: Tpl, ty: Ty) -> bool {
    match (template, ty) {
        (Tpl::Ptr(space, _), Ty::Ptr(own, _)) => space == own,
        (Tpl::Array(_, len), Ty::Array(_, own)) => len == own,
        (Tpl::List(_), Ty::List(_)) => true,
        (Tpl::Function(abi, params, results), Ty::Function(own, own_params, own_results)) => {
            &&& abi == own
            &&& params.len() == own_params.len()
            &&& results.len() == own_results.len()
        },
        (Tpl::Struct(body), Ty::Struct(own)) => {
            &&& body.name == own.name
            &&& body.repr == own.repr
            &&& body.fields.len() == own.fields.len()
            &&& forall|i: int|
                0 <= i < body.fields.len() ==> (#[trigger] body.fields[i]).name == own.fields[i].name
                    && own.fields[i].index == i
        },
        (Tpl::Enum(body), Ty::Enum(own)) => {
            &&& body.name == own.name
            &&& body.discriminant == *own.discriminant
            &&& body.variants.len() == own.variants.len()
            &&& forall|i: int|
                0 <= i < body.variants.len() ==> {
                    &&& (#[trigger] body.variants[i]).name == own.variants[i].name
                    &&& body.variants[i].discriminant_value == own.variants[i].discriminant_value
                    &&& body.variants[i].value is Some == own.variants[i].value is Some
                }
        },
        _ => false,
    }
}

/// What is directly within a template becomes what is directly within the type.
proof fn closing_parts(template: Tpl, env: Map<Seq<char>, Ty>, i: int)
    requires
        close(template, env) is Ok,
    ensures
        match child(template, i) {
            None => template is Type || template is Rec || part(close(template, env)->Ok_0, i) is None,
            Some(inner) => close(inner, env) is Ok && part(close(template, env)->Ok_0, i) == Some(
                close(inner, env)->Ok_0,
            ),
        },
        !(template is Type) && !(template is Rec) ==> same_head(template, close(template, env)->Ok_0),
{
    match template {
        Tpl::Function(_, params, results) => {
            close_all_each(params, env, params.len());
            close_all_each(results, env, results.len());
            if 0 <= i < params.len() {
                assert(close(params[i], env) is Ok);
            } else if params.len() <= i < params.len() + results.len() {
                assert(close(results[i - params.len()], env) is Ok);
            }
        },
        Tpl::Struct(body) => {
            close_fields_each(body.fields, env, body.fields.len());
            if 0 <= i < body.fields.len() {
                assert(close(body.fields[i].ty, env) is Ok);
            }
        },
        Tpl::Enum(body) => {
            close_variants_each(body.variants, env, body.variants.len());
        },
        _ => {},
    }
}

/// Where a name stands in a template, the type that it refers to stands in the type; where a type stands
/// in it, that type; and everything else is made as in the template.
pub proof fn closing_replaces_references(template: Tpl, env: Map<Seq<char>, Ty>, way: Seq<int>)
    requires
        close(template, env) is Ok,
        at(template, way) is Some,
    ensures
        ty_at(close(template, env)->Ok_0, way) is Some,
        ({
            let found = ty_at(close(template, env)->Ok_0, way)->0;
            match at(template, way)->0 {
                Tpl::Rec(name) => env.contains_key(name) && found == env[name],
                Tpl::Type(ty) => found == ty,
                inner => same_head(inner, found),
            }
        }),
    decreases way.len(),
{
    if way.len() == 0 {
        closing_parts(template, env, 0);
    } else {
        closing_parts(template, env, way[0]);
        closing_replaces_references(child(template, way[0])->0, env, way.skip(1));
    }
}

/// A template fails to describe a type only where a name refers to nothing, or where a struct or an enum
/// stands in it.
pub proof fn plain_templates_are_closed(template: Tpl, env: Map<Seq<char>, Ty>)
    requires
        forall|way: Seq<int>| match #[trigger] at(template, way) {
            Some(Tpl::Rec(name)) => env.contains_key(name),
            Some(Tpl::Struct(_)) => false,
            Some(Tpl::Enum(_)) => false,
            _ => true,
        },
    ensures
        close(template, env) is Ok,
    decreases template, 0nat,
{
    assert(at(template, Seq::empty()) == Some(template));
    match template {
        Tpl::Ptr(_, inner) => {
            plain_within(template, env, 0);
            plain_templates_are_closed(*inner, env);
        },
        Tpl::Array(inner, _) => {
            plain_within(template, env, 0);
            plain_templates_are_closed(*inner, env);
        },
        Tpl::List(inner) => {
            plain_within(template, env, 0);
            plain_templates_are_closed(*inner, env);
        },
        Tpl::Function(_, params, results) => {
            assert forall|i: int| 0 <= i < params.len() implies is_plain(#[trigger] params[i], env) by {
                plain_within(template, env, i);
            }
            assert forall|i: int| 0 <= i < results.len() implies is_plain(#[trigger] results[i], env) by {
                plain_within(template, env, params.len() + i);
            }
            plain_lists_are_closed(params, env, params.len());
            plain_lists_are_closed(results, env, results.len());
        },
        _ => {},
    }
}

spec fn is_plain(template: Tpl, env: Map<Seq<char>, Ty>) -> bool {
    forall|way: Seq<int>| match #[trigger] at(template, way) {
        Some(Tpl::Rec(name)) => env.contains_key(name),
        Some(Tpl::Struct(_)) => false,
        Some(Tpl::Enum(_)) => false,
        _ => true,
    }
}

proof fn plain_within(template: Tpl, env: Map<Seq<char>, Ty>, i: int)
    requires
        is_plain(template, env),
        child(template, i) is Some,
    ensures
        is_plain(child(template, i)->0, env),
{
    let inner = child(template, i)->0;
    assert forall|way: Seq<int>| match #[trigger] at(inner, way) {
        Some(Tpl::Rec(name)) => env.contains_key(name),
        Some(Tpl::Struct(_)) => false,
        Some(Tpl::Enum(_)) => false,
        _ => true,
    } by {
        let whole = seq![i] + way;
        assert(whole.skip(1) =~= way);
        assert(at(template, whole) == at(inner, way));
    }
}

proof fn plain_lists_are_closed(templates: Seq<Tpl>, env: Map<Seq<char>, Ty>, n: nat)
    requires
        n <= templates.len(),
        forall|i: int| 0 <= i < templates.len() ==> is_plain(#[trigger] templates[i], env),
    ensures
        close_all(templates, env, n) is Ok,
    decreases templates, n,
{
    if n > 0 {
        plain_lists_are_closed(templates, env, (n - 1) as nat);
        assert(is_plain(templates[n - 1], env));
        plain_templates_are_closed(templates[n - 1], env);
    }
}

} // verus!
