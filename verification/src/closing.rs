//! Turning templates into types, and types into definition bodies with back-references.
use std::sync::Arc;

use vstd::prelude::*;

use crate::aggregates::{make_enum, make_struct, part_models, Fault, InvalidDefinition, NameAndType, PartTy};
use crate::lists::{append, empty_list, into_vec, listed};
use crate::names::{increasing_is_distinct, share, NameSet};
use crate::templates::{
    tpl_models, AggregateTemplate, BuildFault, EnumTemplate, FieldTpl, RecursiveTypeError, StructTemplate, Tpl,
    TypeTemplate, VariantTpl,
};
use crate::type_map::{slot_of, TypeMap};
use crate::types::{
    models, share_name, variant_models, ArrayType, EnumRef, EnumType, FieldTy, FunctionType, PointerType, Scalar,
    StructField, StructRef, StructTy, StructType, Ty, Type, TypeLayout, TypeRepr, Variant, VariantTy,
};

verus! {

// CLOSING
// ================================================================================================

/// The type that a template describes where `env` says what the names refer to.
pub open spec fn close(template: Tpl, env: Map<Seq<char>, Ty>) -> Result<Ty, BuildFault>
    decreases template, 0nat,
{
    match template {
        Tpl::Type(ty) => Ok(ty),
        Tpl::Rec(name) => if env.contains_key(name) {
            Ok(env[name])
        } else {
            Err(BuildFault::UndefinedReference(name))
        },
        Tpl::Ptr(addrspace, inner) => match close(*inner, env) {
            Err(fault) => Err(fault),
            Ok(pointee) => Ok(Ty::Ptr(addrspace, Box::new(pointee))),
        },
        Tpl::Array(inner, len) => match close(*inner, env) {
            Err(fault) => Err(fault),
            Ok(element) => Ok(Ty::Array(Box::new(element), len)),
        },
        Tpl::List(inner) => match close(*inner, env) {
            Err(fault) => Err(fault),
            Ok(element) => Ok(Ty::List(Box::new(element))),
        },
        Tpl::Function(abi, params, results) => match close_all(params, env, params.len()) {
            Err(fault) => Err(fault),
            Ok(params) => match close_all(results, env, results.len()) {
                Err(fault) => Err(fault),
                Ok(results) => Ok(Ty::Function(abi, params, results)),
            },
        },
        Tpl::Struct(body) => match close_fields(body.fields, env, body.fields.len()) {
            Err(fault) => Err(fault),
            Ok(parts) => match make_struct(body.name, body.repr, parts) {
                None => Err(BuildFault::InvalidDefinition(Fault::Layout)),
                Some(made) => Ok(Ty::Struct(made)),
            },
        },
        Tpl::Enum(body) => match close_variants(body.variants, env, body.variants.len()) {
            Err(fault) => Err(fault),
            Ok(variants) => match make_enum(body.name, body.discriminant, variants) {
                Err(fault) => Err(BuildFault::InvalidDefinition(fault)),
                Ok(made) => Ok(Ty::Enum(made)),
            },
        },
    }
}

/// The types that the first `n` templates describe.
pub open spec fn close_all(templates: Seq<Tpl>, env: Map<Seq<char>, Ty>, n: nat) -> Result<Seq<Ty>, BuildFault>
    decreases templates, n,
{
    if n == 0 || n > templates.len() {
        Ok(Seq::empty())
    } else {
        match close_all(templates, env, (n - 1) as nat) {
            Err(fault) => Err(fault),
            Ok(tys) => match close(templates[n - 1], env) {
                Err(fault) => Err(fault),
                Ok(ty) => Ok(tys.push(ty)),
            },
        }
    }
}

/// The parts that the first `n` fields describe.
pub open spec fn close_fields(fields: Seq<FieldTpl>, env: Map<Seq<char>, Ty>, n: nat) -> Result<
    Seq<PartTy>,
    BuildFault,
>
    decreases fields, n,
{
    if n == 0 || n > fields.len() {
        Ok(Seq::empty())
    } else {
        match close_fields(fields, env, (n - 1) as nat) {
            Err(fault) => Err(fault),
            Ok(parts) => match close(fields[n - 1].ty, env) {
                Err(fault) => Err(fault),
                Ok(ty) => Ok(parts.push(PartTy { name: fields[n - 1].name, ty })),
            },
        }
    }
}

/// The variants that the first `n` variants describe.
pub open spec fn close_variants(variants: Seq<VariantTpl>, env: Map<Seq<char>, Ty>, n: nat) -> Result<
    Seq<VariantTy>,
    BuildFault,
>
    decreases variants, n,
{
    if n == 0 || n > variants.len() {
        Ok(Seq::empty())
    } else {
        let variant = variants[n - 1];
        match close_variants(variants, env, (n - 1) as nat) {
            Err(fault) => Err(fault),
            Ok(closed_ones) => match variant.value {
                None => Ok(
                    closed_ones.push(
                        VariantTy {
                            name: variant.name,
                            value: None,
                            discriminant_value: variant.discriminant_value,
                        },
                    ),
                ),
                Some(value) => match close(value, env) {
                    Err(fault) => Err(fault),
                    Ok(ty) => Ok(
                        closed_ones.push(
                            VariantTy {
                                name: variant.name,
                                value: Some(ty),
                                discriminant_value: variant.discriminant_value,
                            },
                        ),
                    ),
                },
            },
        }
    }
}

/// What the names refer to while a group is built: its members by stand-ins for their layouts, and
/// the others by the completed types.
pub open spec fn scope_env(
    completed: Map<Seq<char>, Ty>,
    slots: Seq<Seq<char>>,
    layouts: Seq<Option<TypeLayout>>,
) -> Map<Seq<char>, Ty> {
    Map::new(
        |name: Seq<char>| slots.contains(name) || completed.contains_key(name),
        |name: Seq<char>|
            if slots.contains(name) {
                stand_in(layouts[slot_of(slots, name)])
            } else {
                completed[name]
            },
    )
}

/// A type of which nothing but the layout counts. Where the layout is not known, it does not count
/// either.
pub open spec fn stand_in(layout: Option<TypeLayout>) -> Ty {
    match layout {
        None => Ty::Scalar(Scalar::Never),
        Some(layout) => Ty::Struct(
            StructTy {
                name: None,
                repr: TypeRepr::Align(layout.min_alignment),
                size: layout.size_in_bytes as nat,
                fields: if layout.is_zst {
                    Seq::empty()
                } else {
                    seq![
                        FieldTy {
                            name: None,
                            index: 0,
                            align: 1,
                            offset: 0,
                            ty: if layout.size_in_bytes == 0 {
                                Ty::Scalar(Scalar::Unknown)
                            } else {
                                Ty::Array(Box::new(Ty::Scalar(Scalar::U8)), layout.size_in_bytes as nat)
                            },
                        },
                    ]
                },
            },
        ),
    }
}

/// A closed stand-in for a reference to a group member, used when building a probe.
///
/// When the referenced definition's layout is already known, the stand-in reproduces it exactly,
/// so that any enclosing aggregate lays out correctly. When it is not yet known, the reference
/// sits below a barrier where its layout cannot influence anything, and a zero-sized placeholder
/// is sufficient.
pub(crate) fn probe_stand_in(layout: Option<TypeLayout>) -> (ty: Type)
    ensures
        ty.model() == stand_in(layout),
{
    let layout = match layout {
        None => {
            return Type::Never;
        },
        Some(layout) => layout,
    };
    let mut fields: Vec<StructField> = Vec::new();
    if !layout.is_zst {
        let ty = if layout.size_in_bytes == 0 {
            Type::Unknown
        } else {
            Type::Array(Arc::new(ArrayType { ty: Type::U8, len: layout.size_in_bytes() }))
        };
        fields.push(StructField { name: None, index: 0, align: 1, offset: 0, ty });
    }
    let body = StructType {
        name: None,
        repr: TypeRepr::Align(layout.min_alignment),
        size: layout.size_in_bytes,
        fields,
    };
    proof {
        let expected = stand_in(Some(layout))->Struct_0;
        if !layout.is_zst {
            assert(body.model().fields[0] == body.fields@[0].model());
            assert(body.fields@[0].ty.model() == expected.fields[0].ty);
        }
        assert(body.model().fields =~= expected.fields);
    }
    Type::Struct(StructRef::Plain(Arc::new(body)))
}

/// What the names refer to while a group is built.
pub(crate) struct Scope<'a> {
    pub completed: &'a TypeMap,
    pub slots: &'a NameSet,
    pub layouts: &'a Vec<Option<TypeLayout>>,
}

impl<'a> Scope<'a> {
    pub(crate) open spec fn wf(self) -> bool {
        &&& self.completed.wf()
        &&& self.slots.wf()
        &&& self.layouts@.len() == self.slots@.len()
    }

    pub(crate) open spec fn env(self) -> Map<Seq<char>, Ty> {
        scope_env(self.completed@, self.slots@, self.layouts@)
    }

    fn resolve(&self, name: &str) -> (found: Option<Type>)
        requires
            self.wf(),
        ensures
            match found {
                Some(ty) => self.env().contains_key(name@) && ty.model() == self.env()[name@],
                None => !self.env().contains_key(name@),
            },
    {
        match self.slots.position(name) {
            Some(slot) => {
                proof {
                    assert(self.slots@.contains(name@));
                    increasing_is_distinct(self.slots@, slot as int, slot_of(self.slots@, name@));
                }
                Some(probe_stand_in(self.layouts[slot]))
            },
            None => match self.completed.get(name) {
                Some(ty) => Some(ty.clone()),
                None => None,
            },
        }
    }
}

/// The result stands for what is expected.
pub open spec fn agrees(result: Result<Type, RecursiveTypeError>, expected: Result<Ty, BuildFault>) -> bool {
    match (result, expected) {
        (Ok(ty), Ok(expected)) => ty.model() == expected,
        (Err(error), Err(fault)) => error.model() == fault,
        _ => false,
    }
}

/// Materializes a template as a closed type.
fn close_template(template: &TypeTemplate, scope: &Scope) -> (result: Result<Type, RecursiveTypeError>)
    requires
        scope.wf(),
    ensures
        agrees(result, close(template.model(), scope.env())),
    decreases template, 0nat,
{
    match template {
        TypeTemplate::Type(ty) => Ok(ty.clone()),
        TypeTemplate::Rec(name) => match scope.resolve(name) {
            Some(ty) => Ok(ty),
            None => Err(RecursiveTypeError::UndefinedReference(share(name))),
        },
        TypeTemplate::Ptr(addrspace, pointee) => match close_template(pointee, scope) {
            Err(error) => Err(error),
            Ok(pointee) => Ok(Type::Ptr(Arc::new(PointerType { addrspace: *addrspace, pointee }))),
        },
        TypeTemplate::Array(element, len) => match close_template(element, scope) {
            Err(error) => Err(error),
            Ok(ty) => Ok(Type::Array(Arc::new(ArrayType { ty, len: *len }))),
        },
        TypeTemplate::List(element) => match close_template(element, scope) {
            Err(error) => Err(error),
            Ok(ty) => Ok(Type::List(Arc::new(ty))),
        },
        TypeTemplate::Function(function) => {
            let ghost (p, r) = (tpl_models(function.params@), tpl_models(function.results@));
            proof {
                assert(template.model()->Function_1 =~= p);
                assert(template.model()->Function_2 =~= r);
            }
            let params = match close_list(&function.params, scope) {
                Err(error) => {
                    return Err(error);
                },
                Ok(params) => params,
            };
            let results = match close_list(&function.results, scope) {
                Err(error) => {
                    return Err(error);
                },
                Ok(results) => results,
            };
            let ghost (ps, rs) = (models(params@), models(results@));
            let ty = Type::Function(Arc::new(FunctionType { abi: function.abi, params, results }));
            proof {
                assert(ty.model()->Function_1 =~= ps);
                assert(ty.model()->Function_2 =~= rs);
            }
            Ok(ty)
        },
        TypeTemplate::Struct(body) => close_struct(body, scope),
        TypeTemplate::Enum(body) => close_enum(body, scope),
    }
}

fn close_list(templates: &Vec<TypeTemplate>, scope: &Scope) -> (result: Result<Vec<Type>, RecursiveTypeError>)
    requires
        scope.wf(),
    ensures
        match (result, close_all(tpl_models(templates@), scope.env(), templates@.len())) {
            (Ok(tys), Ok(expected)) => models(tys@) == expected,
            (Err(error), Err(fault)) => error.model() == fault,
            _ => false,
        },
    decreases templates, 0nat,
{
    let ghost all = tpl_models(templates@);
    let ghost env = scope.env();
    let mut list = empty_list();
    assert(models(listed(list)) =~= Seq::<Ty>::empty());
    let mut i: usize = 0;
    while i < templates.len()
        invariant
            i <= templates@.len(),
            scope.wf(),
            all == tpl_models(templates@),
            env == scope.env(),
            close_all(all, env, i as nat) == Ok::<Seq<Ty>, BuildFault>(models(listed(list))),
        decreases templates@.len() - i,
    {
        assert(decreases_to!(*templates => templates@[i as int]));
        let ghost before = listed(list);
        match close_template(&templates[i], scope) {
            Err(error) => {
                proof {
                    close_all_stays_wrong(all, env, (i + 1) as nat, all.len());
                }
                return Err(error);
            },
            Ok(ty) => {
                append(&mut list, ty);
                assert(models(listed(list)) =~= models(before).push(ty.model()));
            },
        }
        i += 1;
    }
    Ok(into_vec(list))
}

proof fn close_all_stays_wrong(templates: Seq<Tpl>, env: Map<Seq<char>, Ty>, n: nat, m: nat)
    requires
        n <= m <= templates.len(),
        close_all(templates, env, n) is Err,
    ensures
        close_all(templates, env, m) == close_all(templates, env, n),
    decreases m,
{
    if n < m {
        close_all_stays_wrong(templates, env, n, (m - 1) as nat);
    }
}

proof fn close_fields_stays_wrong(fields: Seq<FieldTpl>, env: Map<Seq<char>, Ty>, n: nat, m: nat)
    requires
        n <= m <= fields.len(),
        close_fields(fields, env, n) is Err,
    ensures
        close_fields(fields, env, m) == close_fields(fields, env, n),
    decreases m,
{
    if n < m {
        close_fields_stays_wrong(fields, env, n, (m - 1) as nat);
    }
}

proof fn close_variants_stays_wrong(variants: Seq<VariantTpl>, env: Map<Seq<char>, Ty>, n: nat, m: nat)
    requires
        n <= m <= variants.len(),
        close_variants(variants, env, n) is Err,
    ensures
        close_variants(variants, env, m) == close_variants(variants, env, n),
    decreases m,
{
    if n < m {
        close_variants_stays_wrong(variants, env, n, (m - 1) as nat);
    }
}

fn close_struct(template: &StructTemplate, scope: &Scope) -> (result: Result<Type, RecursiveTypeError>)
    requires
        scope.wf(),
    ensures
        agrees(result, close(Tpl::Struct(template.model()), scope.env())),
    decreases template, 0nat,
{
    let ghost fields = template.model().fields;
    let ghost env = scope.env();
    let mut parts: Vec<NameAndType> = Vec::new();
    assert(part_models(parts@) =~= Seq::<PartTy>::empty());
    let mut i: usize = 0;
    while i < template.fields.len()
        invariant
            i <= template.fields@.len(),
            scope.wf(),
            fields == template.model().fields,
            env == scope.env(),
            close_fields(fields, env, i as nat) == Ok::<Seq<PartTy>, BuildFault>(part_models(parts@)),
        decreases template.fields@.len() - i,
    {
        let field = &template.fields[i];
        proof {
            assert(decreases_to!(template.fields => template.fields@[i as int]));
            assert(fields[i as int] == field.model());
        }
        let ghost before = parts@;
        match close_template(&field.ty, scope) {
            Err(error) => {
                proof {
                    close_fields_stays_wrong(fields, env, (i + 1) as nat, fields.len());
                }
                return Err(error);
            },
            Ok(ty) => {
                let ghost model = ty.model();
                parts.push(NameAndType { name: share_name(&field.name), ty });
                assert(part_models(parts@) =~= part_models(before).push(
                    PartTy { name: fields[i as int].name, ty: model },
                ));
            },
        }
        i += 1;
    }
    match StructType::from_parts(share_name(&template.name), template.repr, &parts) {
        None => Err(RecursiveTypeError::InvalidDefinition(InvalidDefinition::Layout)),
        Some(body) => Ok(Type::Struct(StructRef::Plain(Arc::new(body)))),
    }
}

fn close_enum(template: &EnumTemplate, scope: &Scope) -> (result: Result<Type, RecursiveTypeError>)
    requires
        scope.wf(),
    ensures
        agrees(result, close(Tpl::Enum(template.model()), scope.env())),
    decreases template, 0nat,
{
    let ghost all = template.model().variants;
    let ghost env = scope.env();
    let mut variants: Vec<Variant> = Vec::new();
    assert(variant_models(variants@) =~= Seq::<VariantTy>::empty());
    let mut i: usize = 0;
    while i < template.variants.len()
        invariant
            i <= template.variants@.len(),
            scope.wf(),
            all == template.model().variants,
            env == scope.env(),
            close_variants(all, env, i as nat) == Ok::<Seq<VariantTy>, BuildFault>(variant_models(variants@)),
        decreases template.variants@.len() - i,
    {
        let variant = &template.variants[i];
        proof {
            assert(decreases_to!(template.variants => template.variants@[i as int]));
            assert(all[i as int] == variant.model());
        }
        let ghost before = variants@;
        let value = match &variant.value {
            None => None,
            Some(value) => match close_template(value, scope) {
                Err(error) => {
                    proof {
                        close_variants_stays_wrong(all, env, (i + 1) as nat, all.len());
                    }
                    return Err(error);
                },
                Ok(ty) => Some(ty),
            },
        };
        let closed_one = Variant {
            name: share(&variant.name),
            value,
            discriminant_value: variant.discriminant_value,
        };
        let ghost model = closed_one.model();
        variants.push(closed_one);
        assert(variant_models(variants@) =~= variant_models(before).push(model));
        i += 1;
    }
    match EnumType::new(share(&template.name), template.discriminant.clone(), variants) {
        Err(error) => Err(RecursiveTypeError::InvalidDefinition(error)),
        Ok(body) => Ok(Type::Enum(EnumRef::Plain(Arc::new(body)))),
    }
}

impl AggregateTemplate {
    /// Materializes this template as a closed type.
    pub(crate) fn close_with(&self, scope: &Scope) -> (result: Result<Type, RecursiveTypeError>)
        requires
            scope.wf(),
        ensures
            agrees(result, close(self.model(), scope.env())),
    {
        match self {
            AggregateTemplate::Struct(body) => close_struct(body, scope),
            AggregateTemplate::Enum(body) => close_enum(body, scope),
        }
    }
}

} // verus!
