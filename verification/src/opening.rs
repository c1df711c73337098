//! Definition bodies: from a template and its probe to an open body, and from an open body back to
//! a closed type.

use vstd::prelude::*;

use crate::aggregates::{field_at, InvalidDefinition};
use crate::closing::{close, close_all, close_fields, close_variants};
use crate::names::{increasing_is_distinct, share, NameSet};
use crate::templates::{
    mentions, mentions_group, refers_to, tpl_models, AggregateTemplate, BuildFault, EnumTemplate, EnumTpl, FieldTpl,
    RecursiveTypeError, StructTemplate, StructTpl, Tpl, TypeTemplate, VariantTpl,
};
use crate::type_map::slot_of;
use crate::types::{
    models, open_models, share_name, EnumRef, EnumTy, EnumType, Open, OpenAggregate, OpenEnum, OpenEnumType, OpenField,
    OpenFunctionType, OpenStruct, OpenStructField, OpenStructType, OpenType, OpenVariant, OpenVariantTy, StructRef,
    StructTy, StructType, Ty, Type,
};
use crate::unfolding::vars_below;

verus! {

// OPENING
// ================================================================================================

/// The open form of `template`, whose layout is that of `probe`: what mentions no group member is
/// taken wholesale from the probe, and references to group members become back-references.
pub open spec fn opened(template: Tpl, probe: Ty, slots: Seq<Seq<char>>) -> Open
    decreases template,
{
    if !mentions(template, slots) {
        Open::Closed(probe)
    } else {
        match (template, probe) {
            (Tpl::Rec(name), _) => Open::Var(slot_of(slots, name) as nat),
            (Tpl::Ptr(addrspace, inner), Ty::Ptr(_, probe)) => Open::Ptr(
                addrspace,
                Box::new(opened(*inner, *probe, slots)),
            ),
            (Tpl::Array(inner, len), Ty::Array(probe, _)) => Open::Array(
                Box::new(opened(*inner, *probe, slots)),
                len,
            ),
            (Tpl::List(inner), Ty::List(probe)) => Open::List(Box::new(opened(*inner, *probe, slots))),
            (Tpl::Function(abi, params, results), Ty::Function(_, probe_params, probe_results)) => Open::Function(
                abi,
                Seq::new(
                    params.len(),
                    |i: int|
                        if 0 <= i < params.len() {
                            opened(params[i], probe_params[i], slots)
                        } else {
                            arbitrary()
                        },
                ),
                Seq::new(
                    results.len(),
                    |i: int|
                        if 0 <= i < results.len() {
                            opened(results[i], probe_results[i], slots)
                        } else {
                            arbitrary()
                        },
                ),
            ),
            (Tpl::Struct(body), Ty::Struct(probe)) => Open::Struct(opened_struct(body, probe, slots)),
            (Tpl::Enum(body), Ty::Enum(probe)) => Open::Enum(opened_enum(body, probe, slots)),
            _ => arbitrary(),
        }
    }
}

/// The open form of a struct: its references from the template, its layout from the probe.
pub open spec fn opened_struct(body: StructTpl, probe: StructTy, slots: Seq<Seq<char>>) -> OpenStruct
    decreases body,
{
    OpenStruct {
        name: body.name,
        repr: body.repr,
        size: probe.size,
        fields: Seq::new(
            body.fields.len(),
            |i: int|
                if 0 <= i < body.fields.len() {
                    OpenField {
                        name: probe.fields[i].name,
                        index: probe.fields[i].index,
                        align: probe.fields[i].align,
                        offset: probe.fields[i].offset,
                        ty: opened(body.fields[i].ty, probe.fields[i].ty, slots),
                    }
                } else {
                    arbitrary()
                },
        ),
    }
}

/// The open form of an enum: its references from the template, its layout from the probe.
pub open spec fn opened_enum(body: EnumTpl, probe: EnumTy, slots: Seq<Seq<char>>) -> OpenEnum
    decreases body,
{
    OpenEnum {
        name: body.name,
        discriminant: Box::new(body.discriminant),
        variants: Seq::new(
            body.variants.len(),
            |i: int|
                if 0 <= i < body.variants.len() {
                    OpenVariantTy {
                        name: body.variants[i].name,
                        value: match body.variants[i].value {
                            Some(value) => Some(opened(value, probe.variants[i].value->0, slots)),
                            None => None,
                        },
                        discriminant_value: probe.variants[i].discriminant_value,
                    }
                } else {
                    arbitrary()
                },
        ),
        offsets: probe.offsets,
        size: probe.size,
        align: probe.align,
    }
}

/// `probe` is what the template describes, where the names refer to something.
pub open spec fn probed(template: Tpl, probe: Ty) -> bool {
    exists|env: Map<Seq<char>, Ty>| #[trigger] close(template, env) == Ok::<Ty, BuildFault>(probe)
}

/// What was closed has as many types as there were templates, each of which was closed.
pub proof fn close_all_each(templates: Seq<Tpl>, env: Map<Seq<char>, Ty>, n: nat)
    requires
        n <= templates.len(),
        close_all(templates, env, n) is Ok,
    ensures
        close_all(templates, env, n)->Ok_0.len() == n,
        forall|i: int|
            0 <= i < n ==> close(#[trigger] templates[i], env) == Ok::<Ty, BuildFault>(
                close_all(templates, env, n)->Ok_0[i],
            ),
    decreases n,
{
    if n > 0 {
        close_all_each(templates, env, (n - 1) as nat);
    }
}

/// What was closed has as many parts as there were fields, each of which was closed.
pub proof fn close_fields_each(fields: Seq<FieldTpl>, env: Map<Seq<char>, Ty>, n: nat)
    requires
        n <= fields.len(),
        close_fields(fields, env, n) is Ok,
    ensures
        close_fields(fields, env, n)->Ok_0.len() == n,
        forall|i: int|
            0 <= i < n ==> {
                let part = close_fields(fields, env, n)->Ok_0[i];
                part.name == (#[trigger] fields[i]).name && close(fields[i].ty, env) == Ok::<Ty, BuildFault>(part.ty)
            },
    decreases n,
{
    if n > 0 {
        close_fields_each(fields, env, (n - 1) as nat);
    }
}

/// What was closed has as many variants as there were, each of which was closed.
pub proof fn close_variants_each(variants: Seq<VariantTpl>, env: Map<Seq<char>, Ty>, n: nat)
    requires
        n <= variants.len(),
        close_variants(variants, env, n) is Ok,
    ensures
        close_variants(variants, env, n)->Ok_0.len() == n,
        forall|i: int|
            0 <= i < n ==> {
                let made = close_variants(variants, env, n)->Ok_0[i];
                &&& made.name == (#[trigger] variants[i]).name
                &&& made.discriminant_value == variants[i].discriminant_value
                &&& match variants[i].value {
                    None => made.value is None,
                    Some(value) => made.value is Some && close(value, env) == Ok::<Ty, BuildFault>(made.value->0),
                }
            },
    decreases n,
{
    if n > 0 {
        close_variants_each(variants, env, (n - 1) as nat);
    }
}

/// Produces the open form of a template by walking the template and its probe in lockstep.
fn open_type(template: &TypeTemplate, probe: &Type, slots: &NameSet) -> (result: Result<
    OpenType,
    RecursiveTypeError,
>)
    requires
        slots.wf(),
        slots@.len() <= 65536,
        probed(template.model(), probe.model()),
    ensures
        result is Ok,
        result->Ok_0.model() == opened(template.model(), probe.model(), slots@),
    decreases template, 0nat,
{
    if !mentions_group(template, slots) {
        // Nothing beneath this point refers to the group, so the probe already holds the exact
        // closed type.
        return Ok(OpenType::Closed(probe.clone()));
    }
    let ghost env = choose|env: Map<Seq<char>, Ty>| #[trigger]
        close(template.model(), env) == Ok::<Ty, BuildFault>(probe.model());
    match (template, probe) {
        (TypeTemplate::Rec(name), _) => match slots.position(name) {
            Some(slot) => {
                proof {
                    assert(slots@.contains((**name)@));
                    increasing_is_distinct(slots@, slot as int, slot_of(slots@, (**name)@));
                }
                Ok(OpenType::Var(slot as u16))
            },
            None => {
                assert(forall|s: int| 0 <= s < slots@.len() ==> slots@.contains(#[trigger] slots@[s]));
                Err(RecursiveTypeError::UndefinedReference(share(name)))
            },
        },
        (TypeTemplate::Ptr(addrspace, pointee), Type::Ptr(probe)) => {
            assert(close(pointee.model(), env) == Ok::<Ty, BuildFault>(probe.pointee.model()));
            match open_type(pointee, &probe.pointee, slots) {
                Err(error) => Err(error),
                Ok(pointee) => Ok(OpenType::Ptr(*addrspace, Box::new(pointee))),
            }
        },
        (TypeTemplate::Array(element, len), Type::Array(probe)) => {
            assert(close(element.model(), env) == Ok::<Ty, BuildFault>(probe.ty.model()));
            match open_type(element, &probe.ty, slots) {
                Err(error) => Err(error),
                Ok(element) => Ok(OpenType::Array(Box::new(element), *len)),
            }
        },
        (TypeTemplate::List(element), Type::List(probe)) => {
            assert(close(element.model(), env) == Ok::<Ty, BuildFault>(probe.model()));
            match open_type(element, probe, slots) {
                Err(error) => Err(error),
                Ok(element) => Ok(OpenType::List(Box::new(element))),
            }
        },
        (TypeTemplate::Function(function), Type::Function(probe)) => {
            let ghost (p, r) = (tpl_models(function.params@), tpl_models(function.results@));
            let ghost (pp, pr) = (models(probe.params@), models(probe.results@));
            let ghost expected = opened(template.model(), Ty::Function(probe.abi, pp, pr), slots@);
            proof {
                assert(template.model()->Function_1 =~= p);
                assert(template.model()->Function_2 =~= r);
                assert(Type::Function(*probe).model()->Function_1 =~= pp);
                assert(Type::Function(*probe).model()->Function_2 =~= pr);
                close_all_each(p, env, p.len());
                close_all_each(r, env, r.len());
            }
            let params = match open_list(&function.params, &probe.params, slots, Ghost(env)) {
                Err(error) => {
                    return Err(error);
                },
                Ok(params) => params,
            };
            let results = match open_list(&function.results, &probe.results, slots, Ghost(env)) {
                Err(error) => {
                    return Err(error);
                },
                Ok(results) => results,
            };
            let ghost (op, or) = (open_models(params@), open_models(results@));
            let open = OpenType::Function(Box::new(OpenFunctionType { abi: function.abi, params, results }));
            proof {
                assert(open.model()->Function_1 =~= op);
                assert(open.model()->Function_2 =~= or);
                assert(expected->Function_1 =~= op);
                assert(expected->Function_2 =~= or);
            }
            Ok(open)
        },
        (TypeTemplate::Struct(body), Type::Struct(StructRef::Plain(probe))) => {
            match open_struct(body, probe, slots, Ghost(env)) {
                Err(error) => Err(error),
                Ok(open) => Ok(OpenType::Struct(Box::new(open))),
            }
        },
        (TypeTemplate::Enum(body), Type::Enum(EnumRef::Plain(probe))) => {
            match open_enum(body, probe, slots, Ghost(env)) {
                Err(error) => Err(error),
                Ok(open) => Ok(OpenType::Enum(Box::new(open))),
            }
        },
        _ => Err(RecursiveTypeError::InvalidDefinition(InvalidDefinition::TemplateMismatch)),
    }
}

fn open_list(
    templates: &Vec<TypeTemplate>,
    probes: &Vec<Type>,
    slots: &NameSet,
    Ghost(env): Ghost<Map<Seq<char>, Ty>>,
) -> (result: Result<Vec<OpenType>, RecursiveTypeError>)
    requires
        slots.wf(),
        slots@.len() <= 65536,
        probes@.len() == templates@.len(),
        forall|i: int|
            0 <= i < templates@.len() ==> close(#[trigger] tpl_models(templates@)[i], env) == Ok::<Ty, BuildFault>(
                models(probes@)[i],
            ),
    ensures
        result is Ok,
        open_models(result->Ok_0@) == Seq::new(
            templates@.len(),
            |i: int| opened(tpl_models(templates@)[i], models(probes@)[i], slots@),
        ),
    decreases templates, 0nat,
{
    let ghost all = tpl_models(templates@);
    let ghost found = models(probes@);
    let mut opens: Vec<OpenType> = Vec::new();
    let mut i: usize = 0;
    while i < templates.len()
        invariant
            i <= templates@.len(),
            slots.wf(),
            slots@.len() <= 65536,
            probes@.len() == templates@.len(),
            all == tpl_models(templates@),
            found == models(probes@),
            forall|k: int|
                0 <= k < templates@.len() ==> close(#[trigger] all[k], env) == Ok::<Ty, BuildFault>(found[k]),
            opens@.len() == i,
            forall|k: int| 0 <= k < i ==> (#[trigger] opens@[k]).model() == opened(all[k], found[k], slots@),
        decreases templates@.len() - i,
    {
        proof {
            assert(decreases_to!(*templates => templates@[i as int]));
            assert(close(all[i as int], env) == Ok::<Ty, BuildFault>(found[i as int]));
        }
        match open_type(&templates[i], &probes[i], slots) {
            Err(error) => {
                return Err(error);
            },
            Ok(open) => {
                opens.push(open);
            },
        }
        i += 1;
    }
    assert(open_models(opens@) =~= Seq::new(all.len(), |k: int| opened(all[k], found[k], slots@)));
    Ok(opens)
}

fn open_struct(
    template: &StructTemplate,
    probe: &StructType,
    slots: &NameSet,
    Ghost(env): Ghost<Map<Seq<char>, Ty>>,
) -> (result: Result<OpenStructType, RecursiveTypeError>)
    requires
        slots.wf(),
        slots@.len() <= 65536,
        close(Tpl::Struct(template.model()), env) == Ok::<Ty, BuildFault>(Ty::Struct(probe.model())),
    ensures
        result is Ok,
        result->Ok_0.model() == opened_struct(template.model(), probe.model(), slots@),
    decreases template, 0nat,
{
    let ghost all = template.model().fields;
    let ghost found = probe.model().fields;
    proof {
        close_fields_each(all, env, all.len());
        let parts = close_fields(all, env, all.len())->Ok_0;
        assert(found.len() == all.len());
        assert forall|k: int| 0 <= k < all.len() implies close((#[trigger] all[k]).ty, env) == Ok::<Ty, BuildFault>(
            found[k].ty,
        ) by {
            assert(found[k] == field_at(template.repr, parts, k));
        }
    }
    let mut fields: Vec<OpenStructField> = Vec::new();
    let mut i: usize = 0;
    while i < template.fields.len()
        invariant
            i <= template.fields@.len(),
            slots.wf(),
            slots@.len() <= 65536,
            all == template.model().fields,
            found == probe.model().fields,
            found.len() == all.len(),
            forall|k: int| 0 <= k < all.len() ==> close((#[trigger] all[k]).ty, env) == Ok::<Ty, BuildFault>(
                found[k].ty,
            ),
            fields@.len() == i,
            forall|k: int|
                0 <= k < i ==> (#[trigger] fields@[k]).model() == (OpenField {
                    name: found[k].name,
                    index: found[k].index,
                    align: found[k].align,
                    offset: found[k].offset,
                    ty: opened(all[k].ty, found[k].ty, slots@),
                }),
        decreases template.fields@.len() - i,
    {
        let probe_field = &probe.fields[i];
        proof {
            assert(decreases_to!(template.fields => template.fields@[i as int]));
            assert(all[i as int] == template.fields@[i as int].model());
            assert(found[i as int] == probe_field.model());
            assert(close(all[i as int].ty, env) == Ok::<Ty, BuildFault>(found[i as int].ty));
        }
        match open_type(&template.fields[i].ty, &probe_field.ty, slots) {
            Err(error) => {
                return Err(error);
            },
            Ok(ty) => {
                fields.push(
                    OpenStructField {
                        name: share_name(&probe_field.name),
                        index: probe_field.index,
                        align: probe_field.align,
                        offset: probe_field.offset,
                        ty,
                    },
                );
            },
        }
        i += 1;
    }
    let open = OpenStructType { name: share_name(&template.name), repr: template.repr, size: probe.size, fields };
    assert(open.model().fields =~= opened_struct(template.model(), probe.model(), slots@).fields);
    Ok(open)
}

fn open_enum(
    template: &EnumTemplate,
    probe: &EnumType,
    slots: &NameSet,
    Ghost(env): Ghost<Map<Seq<char>, Ty>>,
) -> (result: Result<OpenEnumType, RecursiveTypeError>)
    requires
        slots.wf(),
        slots@.len() <= 65536,
        close(Tpl::Enum(template.model()), env) == Ok::<Ty, BuildFault>(Ty::Enum(probe.model())),
    ensures
        result is Ok,
        result->Ok_0.model() == opened_enum(template.model(), probe.model(), slots@),
    decreases template, 0nat,
{
    let ghost all = template.model().variants;
    let ghost found = probe.model().variants;
    proof {
        close_variants_each(all, env, all.len());
        assert(found == close_variants(all, env, all.len())->Ok_0);
    }
    let mut variants: Vec<OpenVariant> = Vec::new();
    let mut i: usize = 0;
    while i < template.variants.len()
        invariant
            i <= template.variants@.len(),
            slots.wf(),
            slots@.len() <= 65536,
            all == template.model().variants,
            found == probe.model().variants,
            found.len() == all.len(),
            forall|k: int|
                0 <= k < all.len() ==> match (#[trigger] all[k]).value {
                    None => found[k].value is None,
                    Some(value) => found[k].value is Some && close(value, env) == Ok::<Ty, BuildFault>(
                        found[k].value->0,
                    ),
                },
            variants@.len() == i,
            forall|k: int|
                0 <= k < i ==> (#[trigger] variants@[k]).model() == (OpenVariantTy {
                    name: all[k].name,
                    value: match all[k].value {
                        Some(value) => Some(opened(value, found[k].value->0, slots@)),
                        None => None,
                    },
                    discriminant_value: found[k].discriminant_value,
                }),
        decreases template.variants@.len() - i,
    {
        let variant = &template.variants[i];
        let probe_variant = &probe.variants[i];
        proof {
            assert(decreases_to!(template.variants => template.variants@[i as int]));
            assert(all[i as int] == variant.model());
            assert(found[i as int] == probe_variant.model());
        }
        let value = match (&variant.value, &probe_variant.value) {
            (Some(value), Some(probe_value)) => {
                assert(close(value.model(), env) == Ok::<Ty, BuildFault>(probe_value.model()));
                match open_type(value, probe_value, slots) {
                    Err(error) => {
                        return Err(error);
                    },
                    Ok(open) => Some(open),
                }
            },
            _ => None,
        };
        variants.push(
            OpenVariant {
                name: share(&variant.name),
                value,
                discriminant_value: probe_variant.discriminant_value,
            },
        );
        i += 1;
    }
    let offsets = copy_offsets(&probe.offsets);
    let open = OpenEnumType {
        name: share(&template.name),
        discriminant: template.discriminant.clone(),
        variants,
        offsets,
        size: probe.size,
        align: probe.align,
    };
    assert(open.model().variants =~= opened_enum(template.model(), probe.model(), slots@).variants);
    Ok(open)
}

fn copy_offsets(offsets: &Vec<u32>) -> (copy: Vec<u32>)
    ensures
        copy@ == offsets@,
{
    let mut copy: Vec<u32> = Vec::new();
    let mut i: usize = 0;
    while i < offsets.len()
        invariant
            i <= offsets@.len(),
            copy@ == offsets@.take(i as int),
        decreases offsets@.len() - i,
    {
        copy.push(offsets[i]);
        i += 1;
        assert(offsets@.take(i as int) =~= offsets@.take(i - 1).push(offsets@[i - 1]));
    }
    assert(offsets@.take(i as int) =~= offsets@);
    copy
}

impl AggregateTemplate {
    /// Produces this definition's open body by walking the template and its probe in lockstep.
    pub(crate) fn open(&self, probe: &Type, slots: &NameSet) -> (result: Result<OpenAggregate, RecursiveTypeError>)
        requires
            slots.wf(),
            slots@.len() <= 65536,
            probed(self.model(), probe.model()),
        ensures
            result is Ok,
            result->Ok_0.model() == opened_body(self.model(), probe.model(), slots@),
    {
        let ghost env = choose|env: Map<Seq<char>, Ty>| #[trigger]
            close(self.model(), env) == Ok::<Ty, BuildFault>(probe.model());
        match (self, probe) {
            (AggregateTemplate::Struct(template), Type::Struct(StructRef::Plain(probe))) => {
                match open_struct(template, probe, slots, Ghost(env)) {
                    Err(error) => Err(error),
                    Ok(open) => Ok(OpenAggregate::Struct(open)),
                }
            },
            (AggregateTemplate::Enum(template), Type::Enum(EnumRef::Plain(probe))) => {
                match open_enum(template, probe, slots, Ghost(env)) {
                    Err(error) => Err(error),
                    Ok(open) => Ok(OpenAggregate::Enum(open)),
                }
            },
            _ => Err(RecursiveTypeError::InvalidDefinition(InvalidDefinition::KindMismatch)),
        }
    }
}

/// The open form of a definition.
pub open spec fn opened_body(template: Tpl, probe: Ty, slots: Seq<Seq<char>>) -> Open {
    match (template, probe) {
        (Tpl::Struct(body), Ty::Struct(probe)) => Open::Struct(opened_struct(body, probe, slots)),
        (Tpl::Enum(body), Ty::Enum(probe)) => Open::Enum(opened_enum(body, probe, slots)),
        _ => arbitrary(),
    }
}

/// The back-references of an open form select group members.
pub proof fn opened_is_bound(template: Tpl, probe: Ty, slots: Seq<Seq<char>>, env: Map<Seq<char>, Ty>)
    requires
        close(template, env) == Ok::<Ty, BuildFault>(probe),
    ensures
        vars_below(opened(template, probe, slots), slots.len()),
        template is Struct || template is Enum ==> vars_below(opened_body(template, probe, slots), slots.len()),
    decreases template,
{
    if mentions(template, slots) {
        match template {
            Tpl::Rec(name) => {
                let s = choose|s: int| 0 <= s < slots.len() && refers_to(template, #[trigger] slots[s]);
                assert(slots[s] == name);
            },
            Tpl::Ptr(_, inner) => {
                opened_is_bound(*inner, *probe->Ptr_1, slots, env);
            },
            Tpl::Array(inner, _) => {
                opened_is_bound(*inner, *probe->Array_0, slots, env);
            },
            Tpl::List(inner) => {
                opened_is_bound(*inner, *probe->List_0, slots, env);
            },
            Tpl::Function(_, params, results) => {
                close_all_each(params, env, params.len());
                close_all_each(results, env, results.len());
                assert forall|i: int| 0 <= i < params.len() implies vars_below(
                    opened(#[trigger] params[i], probe->Function_1[i], slots),
                    slots.len(),
                ) by {
                    opened_is_bound(params[i], probe->Function_1[i], slots, env);
                }
                assert forall|i: int| 0 <= i < results.len() implies vars_below(
                    opened(#[trigger] results[i], probe->Function_2[i], slots),
                    slots.len(),
                ) by {
                    opened_is_bound(results[i], probe->Function_2[i], slots, env);
                }
                let open = opened(template, probe, slots);
                assert forall|i: int| 0 <= i < open->Function_1.len() implies vars_below(
                    #[trigger] open->Function_1[i],
                    slots.len(),
                ) by {
                    assert(vars_below(opened(params[i], probe->Function_1[i], slots), slots.len()));
                }
                assert forall|i: int| 0 <= i < open->Function_2.len() implies vars_below(
                    #[trigger] open->Function_2[i],
                    slots.len(),
                ) by {
                    assert(vars_below(opened(results[i], probe->Function_2[i], slots), slots.len()));
                }
            },
            _ => {},
        }
    }
    match template {
        Tpl::Struct(body) => {
            close_fields_each(body.fields, env, body.fields.len());
            let parts = close_fields(body.fields, env, body.fields.len())->Ok_0;
            let made = probe->Struct_0;
            let open = opened_struct(body, made, slots);
            assert forall|i: int| 0 <= i < open.fields.len() implies vars_below(
                (#[trigger] open.fields[i]).ty,
                slots.len(),
            ) by {
                assert(made.fields[i] == field_at(body.repr, parts, i));
                assert(close(body.fields[i].ty, env) == Ok::<Ty, BuildFault>(parts[i].ty));
                opened_is_bound(body.fields[i].ty, made.fields[i].ty, slots, env);
            }
        },
        Tpl::Enum(body) => {
            close_variants_each(body.variants, env, body.variants.len());
            let made = probe->Enum_0;
            let open = opened_enum(body, made, slots);
            assert forall|i: int| 0 <= i < open.variants.len() implies match (#[trigger] open.variants[i]).value {
                Some(value) => vars_below(value, slots.len()),
                None => true,
            } by {
                assert(body.variants[i] == body.variants[i]);
                if let Some(value) = body.variants[i].value {
                    opened_is_bound(value, made.variants[i].value->0, slots, env);
                }
            }
        },
        _ => {},
    }
}

} // verus!
