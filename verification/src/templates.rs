//! Descriptions of recursive definitions, which refer to one another by name.
use std::sync::Arc;

use vstd::prelude::*;
use vstd::std_specs::convert::FromSpecImpl;

use crate::aggregates::{Fault, InvalidDefinition};
use crate::names::{share, shared_text, NameSet};
use crate::types::{optional_text, share_name, AddressSpace, CallConv, Ty, Type, TypeRepr};

verus! {

// TEMPLATES
// ================================================================================================

/// A type expression used while describing a recursive definition.
#[derive(Debug)]
pub enum TypeTemplate {
    /// An ordinary, already-completed type.
    Type(Type),
    /// A reference to a definition being built, by name.
    Rec(Arc<str>),
    Ptr(AddressSpace, Box<TypeTemplate>),
    Array(Box<TypeTemplate>, usize),
    List(Box<TypeTemplate>),
    Function(Box<FunctionTemplate>),
    Struct(Box<StructTemplate>),
    Enum(Box<EnumTemplate>),
}

/// The signature of a function, described by templates.
#[derive(Debug)]
pub struct FunctionTemplate {
    pub abi: CallConv,
    pub params: Vec<TypeTemplate>,
    pub results: Vec<TypeTemplate>,
}

/// A struct definition described by templates.
#[derive(Debug)]
pub struct StructTemplate {
    pub name: Option<Arc<str>>,
    pub repr: TypeRepr,
    pub fields: Vec<FieldTemplate>,
}

/// A field of a [`StructTemplate`].
#[derive(Debug)]
pub struct FieldTemplate {
    pub name: Option<Arc<str>>,
    pub ty: TypeTemplate,
}

/// An enum definition described by templates.
#[derive(Debug)]
pub struct EnumTemplate {
    pub name: Arc<str>,
    pub discriminant: Type,
    pub variants: Vec<VariantTemplate>,
}

/// A variant of an [`EnumTemplate`].
#[derive(Debug)]
pub struct VariantTemplate {
    pub name: Arc<str>,
    pub value: Option<TypeTemplate>,
    pub discriminant_value: Option<u128>,
}

/// The body of a definition.
#[derive(Debug)]
pub enum AggregateTemplate {
    Struct(StructTemplate),
    Enum(EnumTemplate),
}

// MODELS
// ================================================================================================

/// What a [`TypeTemplate`] stands for.
#[verifier::ext_equal]
pub enum Tpl {
    Type(Ty),
    Rec(Seq<char>),
    Ptr(AddressSpace, Box<Tpl>),
    Array(Box<Tpl>, nat),
    List(Box<Tpl>),
    Function(CallConv, Seq<Tpl>, Seq<Tpl>),
    Struct(StructTpl),
    Enum(EnumTpl),
}

/// What a [`StructTemplate`] stands for.
#[verifier::ext_equal]
pub struct StructTpl {
    pub name: Option<Seq<char>>,
    pub repr: TypeRepr,
    pub fields: Seq<FieldTpl>,
}

/// What a [`FieldTemplate`] stands for.
#[verifier::ext_equal]
pub struct FieldTpl {
    pub name: Option<Seq<char>>,
    pub ty: Tpl,
}

/// What an [`EnumTemplate`] stands for.
#[verifier::ext_equal]
pub struct EnumTpl {
    pub name: Seq<char>,
    pub discriminant: Ty,
    pub variants: Seq<VariantTpl>,
}

/// What a [`VariantTemplate`] stands for.
#[verifier::ext_equal]
pub struct VariantTpl {
    pub name: Seq<char>,
    pub value: Option<Tpl>,
    pub discriminant_value: Option<u128>,
}

/// What a list of templates stands for.
pub open spec fn tpl_models(templates: Seq<TypeTemplate>) -> Seq<Tpl> {
    Seq::new(templates.len(), |i: int| templates[i].model())
}

impl TypeTemplate {
    pub open spec fn model(self) -> Tpl
        decreases self,
    {
        match self {
            TypeTemplate::Type(ty) => Tpl::Type(ty.model()),
            TypeTemplate::Rec(name) => Tpl::Rec((*name)@),
            TypeTemplate::Ptr(addrspace, pointee) => Tpl::Ptr(addrspace, Box::new(pointee.model())),
            TypeTemplate::Array(element, len) => Tpl::Array(Box::new(element.model()), len as nat),
            TypeTemplate::List(element) => Tpl::List(Box::new(element.model())),
            TypeTemplate::Function(function) => Tpl::Function(
                function.abi,
                Seq::new(
                    function.params@.len(),
                    |i: int|
                        if 0 <= i < function.params@.len() {
                            function.params@[i].model()
                        } else {
                            arbitrary()
                        },
                ),
                Seq::new(
                    function.results@.len(),
                    |i: int|
                        if 0 <= i < function.results@.len() {
                            function.results@[i].model()
                        } else {
                            arbitrary()
                        },
                ),
            ),
            TypeTemplate::Struct(body) => Tpl::Struct(body.model()),
            TypeTemplate::Enum(body) => Tpl::Enum(body.model()),
        }
    }
}

impl StructTemplate {
    pub open spec fn model(self) -> StructTpl
        decreases self,
    {
        StructTpl {
            name: optional_text(self.name),
            repr: self.repr,
            fields: Seq::new(
                self.fields@.len(),
                |i: int|
                    if 0 <= i < self.fields@.len() {
                        self.fields@[i].model()
                    } else {
                        arbitrary()
                    },
            ),
        }
    }
}

impl FieldTemplate {
    pub open spec fn model(self) -> FieldTpl
        decreases self,
    {
        FieldTpl { name: optional_text(self.name), ty: self.ty.model() }
    }
}

impl EnumTemplate {
    pub open spec fn model(self) -> EnumTpl
        decreases self,
    {
        EnumTpl {
            name: (*self.name)@,
            discriminant: self.discriminant.model(),
            variants: Seq::new(
                self.variants@.len(),
                |i: int|
                    if 0 <= i < self.variants@.len() {
                        self.variants@[i].model()
                    } else {
                        arbitrary()
                    },
            ),
        }
    }
}

impl VariantTemplate {
    pub open spec fn model(self) -> VariantTpl
        decreases self,
    {
        VariantTpl {
            name: (*self.name)@,
            value: match self.value {
                Some(value) => Some(value.model()),
                None => None,
            },
            discriminant_value: self.discriminant_value,
        }
    }
}

impl AggregateTemplate {
    pub open spec fn model(self) -> Tpl {
        match self {
            AggregateTemplate::Struct(body) => Tpl::Struct(body.model()),
            AggregateTemplate::Enum(body) => Tpl::Enum(body.model()),
        }
    }
}

// COPIES
// ================================================================================================

fn copy_template(template: &TypeTemplate) -> (copy: TypeTemplate)
    ensures
        copy.model() == template.model(),
    decreases template, 0nat,
{
    match template {
        TypeTemplate::Type(ty) => TypeTemplate::Type(ty.clone()),
        TypeTemplate::Rec(name) => TypeTemplate::Rec(share(name)),
        TypeTemplate::Ptr(addrspace, pointee) => TypeTemplate::Ptr(*addrspace, Box::new(copy_template(pointee))),
        TypeTemplate::Array(element, len) => TypeTemplate::Array(Box::new(copy_template(element)), *len),
        TypeTemplate::List(element) => TypeTemplate::List(Box::new(copy_template(element))),
        TypeTemplate::Function(function) => {
            let copy = TypeTemplate::Function(Box::new(copy_function(function)));
            proof {
                assert(copy.model()->Function_1 =~= tpl_models(function.params@));
                assert(copy.model()->Function_2 =~= tpl_models(function.results@));
                assert(template.model()->Function_1 =~= tpl_models(function.params@));
                assert(template.model()->Function_2 =~= tpl_models(function.results@));
            }
            copy
        },
        TypeTemplate::Struct(body) => TypeTemplate::Struct(Box::new(copy_struct(body))),
        TypeTemplate::Enum(body) => TypeTemplate::Enum(Box::new(copy_enum(body))),
    }
}

fn copy_function(function: &FunctionTemplate) -> (copy: FunctionTemplate)
    ensures
        copy.abi == function.abi,
        tpl_models(copy.params@) == tpl_models(function.params@),
        tpl_models(copy.results@) == tpl_models(function.results@),
    decreases function, 0nat,
{
    FunctionTemplate {
        abi: function.abi,
        params: copy_list(&function.params),
        results: copy_list(&function.results),
    }
}

fn copy_list(templates: &Vec<TypeTemplate>) -> (copy: Vec<TypeTemplate>)
    ensures
        tpl_models(copy@) == tpl_models(templates@),
    decreases templates, 0nat,
{
    let mut copy: Vec<TypeTemplate> = Vec::new();
    let mut i: usize = 0;
    while i < templates.len()
        invariant
            i <= templates@.len(),
            copy@.len() == i,
            forall|k: int| 0 <= k < i ==> (#[trigger] copy@[k]).model() == templates@[k].model(),
        decreases templates@.len() - i,
    {
        assert(decreases_to!(*templates => templates@[i as int]));
        copy.push(copy_template(&templates[i]));
        i += 1;
    }
    assert(tpl_models(copy@) =~= tpl_models(templates@));
    copy
}

fn copy_struct(body: &StructTemplate) -> (copy: StructTemplate)
    ensures
        copy.model() == body.model(),
    decreases body, 0nat,
{
    let mut fields: Vec<FieldTemplate> = Vec::new();
    let mut i: usize = 0;
    while i < body.fields.len()
        invariant
            i <= body.fields@.len(),
            fields@.len() == i,
            forall|k: int| 0 <= k < i ==> (#[trigger] fields@[k]).model() == body.fields@[k].model(),
        decreases body.fields@.len() - i,
    {
        assert(decreases_to!(body.fields => body.fields@[i as int]));
        fields.push(copy_field(&body.fields[i]));
        i += 1;
    }
    let copy = StructTemplate { name: share_name(&body.name), repr: body.repr, fields };
    assert(copy.model().fields =~= body.model().fields);
    copy
}

fn copy_field(field: &FieldTemplate) -> (copy: FieldTemplate)
    ensures
        copy.model() == field.model(),
    decreases field, 0nat,
{
    FieldTemplate { name: share_name(&field.name), ty: copy_template(&field.ty) }
}

fn copy_enum(body: &EnumTemplate) -> (copy: EnumTemplate)
    ensures
        copy.model() == body.model(),
    decreases body, 0nat,
{
    let mut variants: Vec<VariantTemplate> = Vec::new();
    let mut i: usize = 0;
    while i < body.variants.len()
        invariant
            i <= body.variants@.len(),
            variants@.len() == i,
            forall|k: int| 0 <= k < i ==> (#[trigger] variants@[k]).model() == body.variants@[k].model(),
        decreases body.variants@.len() - i,
    {
        assert(decreases_to!(body.variants => body.variants@[i as int]));
        variants.push(copy_variant(&body.variants[i]));
        i += 1;
    }
    let copy = EnumTemplate { name: share(&body.name), discriminant: body.discriminant.clone(), variants };
    assert(copy.model().variants =~= body.model().variants);
    copy
}

fn copy_variant(variant: &VariantTemplate) -> (copy: VariantTemplate)
    ensures
        copy.model() == variant.model(),
    decreases variant, 0nat,
{
    VariantTemplate {
        name: share(&variant.name),
        value: match &variant.value {
            Some(value) => Some(copy_template(value)),
            None => None,
        },
        discriminant_value: variant.discriminant_value,
    }
}

impl Clone for TypeTemplate {
    fn clone(&self) -> (copy: TypeTemplate)
        ensures
            copy.model() == self.model(),
    {
        copy_template(self)
    }
}

impl Clone for FunctionTemplate {
    fn clone(&self) -> (copy: FunctionTemplate)
        ensures
            copy.abi == self.abi,
            tpl_models(copy.params@) == tpl_models(self.params@),
            tpl_models(copy.results@) == tpl_models(self.results@),
    {
        copy_function(self)
    }
}

impl Clone for StructTemplate {
    fn clone(&self) -> (copy: StructTemplate)
        ensures
            copy.model() == self.model(),
    {
        copy_struct(self)
    }
}

impl Clone for FieldTemplate {
    fn clone(&self) -> (copy: FieldTemplate)
        ensures
            copy.model() == self.model(),
    {
        copy_field(self)
    }
}

impl Clone for EnumTemplate {
    fn clone(&self) -> (copy: EnumTemplate)
        ensures
            copy.model() == self.model(),
    {
        copy_enum(self)
    }
}

impl Clone for VariantTemplate {
    fn clone(&self) -> (copy: VariantTemplate)
        ensures
            copy.model() == self.model(),
    {
        copy_variant(self)
    }
}

// CONSTRUCTION
// ================================================================================================

impl From<Type> for TypeTemplate {
    fn from(ty: Type) -> (template: TypeTemplate) {
        TypeTemplate::Type(ty)
    }
}

impl FromSpecImpl<Type> for TypeTemplate {
    open spec fn obeys_from_spec() -> bool {
        true
    }

    open spec fn from_spec(ty: Type) -> TypeTemplate {
        TypeTemplate::Type(ty)
    }
}

impl From<TypeTemplate> for FieldTemplate {
    fn from(ty: TypeTemplate) -> (field: FieldTemplate) {
        FieldTemplate { name: None, ty }
    }
}

impl FromSpecImpl<TypeTemplate> for FieldTemplate {
    open spec fn obeys_from_spec() -> bool {
        true
    }

    open spec fn from_spec(ty: TypeTemplate) -> FieldTemplate {
        FieldTemplate { name: None, ty }
    }
}

impl FieldTemplate {
    /// A field with a name.
    pub fn named(name: &str, ty: TypeTemplate) -> (field: FieldTemplate)
        ensures
            field.model() == (FieldTpl { name: Some(name@), ty: ty.model() }),
    {
        FieldTemplate { name: Some(shared_text(name)), ty }
    }
}

impl TypeTemplate {
    /// A reference to the definition named `name`.
    pub fn rec(name: &str) -> (template: TypeTemplate)
        ensures
            template.model() == Tpl::Rec(name@),
    {
        TypeTemplate::Rec(shared_text(name))
    }

    /// A byte-addressable pointer to `pointee`.
    pub fn ptr(pointee: TypeTemplate) -> (template: TypeTemplate)
        ensures
            template.model() == Tpl::Ptr(AddressSpace::Byte, Box::new(pointee.model())),
    {
        TypeTemplate::Ptr(AddressSpace::Byte, Box::new(pointee))
    }

    /// A pointer to `pointee` in `addrspace`.
    pub fn ptr_in(addrspace: AddressSpace, pointee: TypeTemplate) -> (template: TypeTemplate)
        ensures
            template.model() == Tpl::Ptr(addrspace, Box::new(pointee.model())),
    {
        TypeTemplate::Ptr(addrspace, Box::new(pointee))
    }

    /// A fixed-length array of `element`.
    pub fn array(element: TypeTemplate, len: usize) -> (template: TypeTemplate)
        ensures
            template.model() == Tpl::Array(Box::new(element.model()), len as nat),
    {
        TypeTemplate::Array(Box::new(element), len)
    }

    /// A dynamically sized list of `element`.
    pub fn list(element: TypeTemplate) -> (template: TypeTemplate)
        ensures
            template.model() == Tpl::List(Box::new(element.model())),
    {
        TypeTemplate::List(Box::new(element))
    }

    /// A function reference type.
    pub fn function(abi: CallConv, params: Vec<TypeTemplate>, results: Vec<TypeTemplate>) -> (template: TypeTemplate)
        ensures
            template.model() == Tpl::Function(abi, tpl_models(params@), tpl_models(results@)),
    {
        let ghost (p, r) = (tpl_models(params@), tpl_models(results@));
        let template = TypeTemplate::Function(Box::new(FunctionTemplate { abi, params, results }));
        assert(template.model()->Function_1 =~= p);
        assert(template.model()->Function_2 =~= r);
        template
    }

    /// An anonymous struct.
    pub fn struct_type(repr: TypeRepr, fields: Vec<FieldTemplate>) -> (template: TypeTemplate)
        ensures
            template.model() == Tpl::Struct(StructTpl { name: None, repr, fields: field_tpls(fields@) }),
    {
        TypeTemplate::Struct(Box::new(StructTemplate::new(repr, fields)))
    }
}

/// What a list of fields stands for.
pub open spec fn field_tpls(fields: Seq<FieldTemplate>) -> Seq<FieldTpl> {
    Seq::new(fields.len(), |i: int| fields[i].model())
}

/// What a list of variants stands for.
pub open spec fn variant_tpls(variants: Seq<VariantTemplate>) -> Seq<VariantTpl> {
    Seq::new(variants.len(), |i: int| variants[i].model())
}

impl StructTemplate {
    /// A struct without a name.
    pub fn new(repr: TypeRepr, fields: Vec<FieldTemplate>) -> (template: StructTemplate)
        ensures
            template.model() == (StructTpl { name: None, repr, fields: field_tpls(fields@) }),
    {
        let ghost all = field_tpls(fields@);
        let template = StructTemplate { name: None, repr, fields };
        assert(template.model().fields =~= all);
        template
    }
}

impl EnumTemplate {
    /// An enum.
    pub fn new(name: &str, discriminant: Type, variants: Vec<VariantTemplate>) -> (template: EnumTemplate)
        ensures
            template.model() == (EnumTpl {
                name: name@,
                discriminant: discriminant.model(),
                variants: variant_tpls(variants@),
            }),
    {
        let ghost all = variant_tpls(variants@);
        let template = EnumTemplate { name: shared_text(name), discriminant, variants };
        assert(template.model().variants =~= all);
        template
    }
}

impl VariantTemplate {
    /// A variant with no payload.
    pub fn c_like(name: &str, discriminant_value: Option<u128>) -> (variant: VariantTemplate)
        ensures
            variant.model() == (VariantTpl { name: name@, value: None, discriminant_value }),
    {
        VariantTemplate { name: shared_text(name), value: None, discriminant_value }
    }

    /// A variant carrying `value`.
    pub fn new(name: &str, value: TypeTemplate, discriminant_value: Option<u128>) -> (variant: VariantTemplate)
        ensures
            variant.model() == (VariantTpl { name: name@, value: Some(value.model()), discriminant_value }),
    {
        VariantTemplate { name: shared_text(name), value: Some(value), discriminant_value }
    }
}

// ERRORS
// ================================================================================================

/// Why definitions cannot be built.
#[derive(Debug, Clone, PartialEq, Eq)]
pub enum RecursiveTypeError {
    /// A definition name is empty.
    EmptyName,
    /// A definition name is given twice.
    DuplicateName(Arc<str>),
    /// A reference names no definition.
    UndefinedReference(Arc<str>),
    /// A cycle of definitions crosses no pointer, list or function, so it would have infinite size.
    UnguardedRecursion(Arc<str>),
    /// A group has more definitions than are allowed.
    GroupTooLarge(Arc<str>, usize),
    /// A definition makes no struct or enum.
    InvalidDefinition(InvalidDefinition),
}

/// What a [`RecursiveTypeError`] stands for.
pub enum BuildFault {
    EmptyName,
    DuplicateName(Seq<char>),
    UndefinedReference(Seq<char>),
    UnguardedRecursion(Seq<char>),
    GroupTooLarge(Seq<char>, nat),
    InvalidDefinition(Fault),
}

impl RecursiveTypeError {
    pub open spec fn model(self) -> BuildFault {
        match self {
            RecursiveTypeError::EmptyName => BuildFault::EmptyName,
            RecursiveTypeError::DuplicateName(name) => BuildFault::DuplicateName((*name)@),
            RecursiveTypeError::UndefinedReference(name) => BuildFault::UndefinedReference((*name)@),
            RecursiveTypeError::UnguardedRecursion(name) => BuildFault::UnguardedRecursion((*name)@),
            RecursiveTypeError::GroupTooLarge(name, len) => BuildFault::GroupTooLarge((*name)@, len as nat),
            RecursiveTypeError::InvalidDefinition(reason) => BuildFault::InvalidDefinition(reason.model()),
        }
    }
}

// REFERENCES
// ================================================================================================

/// The template refers to `name`.
pub open spec fn refers_to(template: Tpl, name: Seq<char>) -> bool
    decreases template,
{
    match template {
        Tpl::Type(_) => false,
        Tpl::Rec(other) => other == name,
        Tpl::Ptr(_, inner) => refers_to(*inner, name),
        Tpl::Array(inner, _) => refers_to(*inner, name),
        Tpl::List(inner) => refers_to(*inner, name),
        Tpl::Function(_, params, results) => {
            ||| exists|i: int| 0 <= i < params.len() && refers_to(#[trigger] params[i], name)
            ||| exists|i: int| 0 <= i < results.len() && refers_to(#[trigger] results[i], name)
        },
        Tpl::Struct(body) => exists|i: int|
            0 <= i < body.fields.len() && refers_to((#[trigger] body.fields[i]).ty, name),
        Tpl::Enum(body) => exists|i: int|
            0 <= i < body.variants.len() && match (#[trigger] body.variants[i]).value {
                Some(value) => refers_to(value, name),
                None => false,
            },
    }
}

/// The template refers to `name` other than below a pointer, a list or a function: these are
/// barriers, as their own layout does not depend on what they refer to.
pub open spec fn exposes(template: Tpl, name: Seq<char>) -> bool
    decreases template,
{
    match template {
        Tpl::Ptr(_, _) | Tpl::List(_) | Tpl::Function(_, _, _) => false,
        Tpl::Type(_) => false,
        Tpl::Rec(other) => other == name,
        Tpl::Array(inner, _) => exposes(*inner, name),
        Tpl::Struct(body) => exists|i: int|
            0 <= i < body.fields.len() && exposes((#[trigger] body.fields[i]).ty, name),
        Tpl::Enum(body) => exists|i: int|
            0 <= i < body.variants.len() && match (#[trigger] body.variants[i]).value {
                Some(value) => exposes(value, name),
                None => false,
            },
    }
}

/// What is exposed is referred to.
pub proof fn exposed_is_referred_to(template: Tpl, name: Seq<char>)
    requires
        exposes(template, name),
    ensures
        refers_to(template, name),
    decreases template,
{
    match template {
        Tpl::Array(inner, _) => exposed_is_referred_to(*inner, name),
        Tpl::Struct(body) => {
            let i = choose|i: int| 0 <= i < body.fields.len() && exposes((#[trigger] body.fields[i]).ty, name);
            exposed_is_referred_to(body.fields[i].ty, name);
        },
        Tpl::Enum(body) => {
            let i = choose|i: int|
                0 <= i < body.variants.len() && match (#[trigger] body.variants[i]).value {
                    Some(value) => exposes(value, name),
                    None => false,
                };
            exposed_is_referred_to(body.variants[i].value->0, name);
        },
        _ => {},
    }
}

/// Some template of a list refers to `name`.
pub open spec fn any_refers_to(templates: Seq<Tpl>, name: Seq<char>) -> bool {
    exists|i: int| 0 <= i < templates.len() && refers_to(#[trigger] templates[i], name)
}

/// Adds the names that a template refers to.
fn collect_references(template: &TypeTemplate, references: &mut NameSet)
    requires
        old(references).wf(),
    ensures
        final(references).wf(),
        forall|name: Seq<char>| #[trigger]
            final(references)@.contains(name) <==> old(references)@.contains(name) || refers_to(
                template.model(),
                name,
            ),
    decreases template, 0nat,
{
    match template {
        TypeTemplate::Type(_) => {},
        TypeTemplate::Rec(name) => {
            references.insert(name);
        },
        TypeTemplate::Ptr(_, inner) => collect_references(inner, references),
        TypeTemplate::Array(inner, _) => collect_references(inner, references),
        TypeTemplate::List(inner) => collect_references(inner, references),
        TypeTemplate::Function(function) => {
            proof {
                assert(template.model()->Function_1 =~= tpl_models(function.params@));
                assert(template.model()->Function_2 =~= tpl_models(function.results@));
            }
            collect_from_list(&function.params, references);
            collect_from_list(&function.results, references);
        },
        TypeTemplate::Struct(body) => collect_from_struct(body, references),
        TypeTemplate::Enum(body) => collect_from_enum(body, references),
    }
}

fn collect_from_list(templates: &Vec<TypeTemplate>, references: &mut NameSet)
    requires
        old(references).wf(),
    ensures
        final(references).wf(),
        forall|name: Seq<char>| #[trigger]
            final(references)@.contains(name) <==> old(references)@.contains(name) || any_refers_to(
                tpl_models(templates@),
                name,
            ),
    decreases templates, 0nat,
{
    let ghost before = references@;
    let ghost all = tpl_models(templates@);
    let mut i: usize = 0;
    while i < templates.len()
        invariant
            i <= templates@.len(),
            all == tpl_models(templates@),
            references.wf(),
            forall|name: Seq<char>| #[trigger]
                references@.contains(name) <==> before.contains(name) || any_refers_to(all.take(i as int), name),
        decreases templates@.len() - i,
    {
        assert(decreases_to!(*templates => templates@[i as int]));
        collect_references(&templates[i], references);
        proof {
            any_refers_to_next(all, i as int);
        }
        i += 1;
    }
    assert(all.take(i as int) =~= all);
}

proof fn any_refers_to_next(templates: Seq<Tpl>, i: int)
    requires
        0 <= i < templates.len(),
    ensures
        forall|name: Seq<char>| #[trigger]
            any_refers_to(templates.take(i + 1), name) <==> any_refers_to(templates.take(i), name) || refers_to(
                templates[i],
                name,
            ),
{
    let (a, b) = (templates.take(i), templates.take(i + 1));
    assert forall|name: Seq<char>| #[trigger] any_refers_to(b, name) <==> any_refers_to(a, name) || refers_to(
        templates[i],
        name,
    ) by {
        if any_refers_to(a, name) {
            let k = choose|k: int| 0 <= k < a.len() && refers_to(#[trigger] a[k], name);
            assert(refers_to(b[k], name));
        }
        if refers_to(templates[i], name) {
            assert(refers_to(b[i], name));
        }
        if any_refers_to(b, name) {
            let k = choose|k: int| 0 <= k < b.len() && refers_to(#[trigger] b[k], name);
            if k < i {
                assert(refers_to(a[k], name));
            }
        }
    }
}

fn collect_from_struct(body: &StructTemplate, references: &mut NameSet)
    requires
        old(references).wf(),
    ensures
        final(references).wf(),
        forall|name: Seq<char>| #[trigger]
            final(references)@.contains(name) <==> old(references)@.contains(name) || refers_to(
                Tpl::Struct(body.model()),
                name,
            ),
    decreases body, 0nat,
{
    let ghost before = references@;
    let ghost fields = body.model().fields;
    let mut i: usize = 0;
    while i < body.fields.len()
        invariant
            i <= body.fields@.len(),
            fields == body.model().fields,
            references.wf(),
            forall|name: Seq<char>| #[trigger]
                references@.contains(name) <==> before.contains(name) || exists|k: int|
                    0 <= k < i && refers_to((#[trigger] fields[k]).ty, name),
        decreases body.fields@.len() - i,
    {
        assert(decreases_to!(body.fields => body.fields@[i as int]));
        assert(fields[i as int].ty == body.fields@[i as int].ty.model());
        collect_references(&body.fields[i].ty, references);
        i += 1;
    }
}

fn collect_from_enum(body: &EnumTemplate, references: &mut NameSet)
    requires
        old(references).wf(),
    ensures
        final(references).wf(),
        forall|name: Seq<char>| #[trigger]
            final(references)@.contains(name) <==> old(references)@.contains(name) || refers_to(
                Tpl::Enum(body.model()),
                name,
            ),
    decreases body, 0nat,
{
    let ghost before = references@;
    let ghost variants = body.model().variants;
    let mut i: usize = 0;
    while i < body.variants.len()
        invariant
            i <= body.variants@.len(),
            variants == body.model().variants,
            references.wf(),
            forall|name: Seq<char>| #[trigger]
                references@.contains(name) <==> before.contains(name) || exists|k: int|
                    0 <= k < i && match (#[trigger] variants[k]).value {
                        Some(value) => refers_to(value, name),
                        None => false,
                    },
        decreases body.variants@.len() - i,
    {
        assert(decreases_to!(body.variants => body.variants@[i as int]));
        assert(variants[i as int] == body.variants@[i as int].model());
        if let Some(value) = &body.variants[i].value {
            collect_references(value, references);
        }
        i += 1;
    }
}

// REFERENCES TO A GROUP
// ================================================================================================

/// The template refers to one of the names.
pub open spec fn mentions(template: Tpl, names: Seq<Seq<char>>) -> bool {
    exists|s: int| 0 <= s < names.len() && refers_to(template, #[trigger] names[s])
}

/// Whether a template refers to any member of the group being built.
pub(crate) fn mentions_group(template: &TypeTemplate, slots: &NameSet) -> (result: bool)
    requires
        slots.wf(),
    ensures
        result == mentions(template.model(), slots@),
    decreases template, 0nat,
{
    match template {
        TypeTemplate::Type(_) => false,
        TypeTemplate::Rec(name) => match slots.position(name) {
            Some(s) => {
                assert(refers_to(template.model(), slots@[s as int]));
                true
            },
            None => {
                assert(forall|s: int| 0 <= s < slots@.len() ==> slots@.contains(#[trigger] slots@[s]));
                false
            },
        },
        TypeTemplate::Ptr(_, inner) => {
            let result = mentions_group(inner, slots);
            assert(forall|s: int|
                0 <= s < slots@.len() ==> refers_to(template.model(), #[trigger] slots@[s]) == refers_to(
                    inner.model(),
                    slots@[s],
                ));
            result
        },
        TypeTemplate::Array(inner, _) => {
            let result = mentions_group(inner, slots);
            assert(forall|s: int|
                0 <= s < slots@.len() ==> refers_to(template.model(), #[trigger] slots@[s]) == refers_to(
                    inner.model(),
                    slots@[s],
                ));
            result
        },
        TypeTemplate::List(inner) => {
            let result = mentions_group(inner, slots);
            assert(forall|s: int|
                0 <= s < slots@.len() ==> refers_to(template.model(), #[trigger] slots@[s]) == refers_to(
                    inner.model(),
                    slots@[s],
                ));
            result
        },
        TypeTemplate::Function(function) => {
            let ghost (params, results) = (tpl_models(function.params@), tpl_models(function.results@));
            proof {
                assert(template.model()->Function_1 =~= params);
                assert(template.model()->Function_2 =~= results);
                assert(forall|s: int|
                    0 <= s < slots@.len() ==> refers_to(template.model(), #[trigger] slots@[s]) == (any_refers_to(
                        params,
                        slots@[s],
                    ) || any_refers_to(results, slots@[s])));
            }
            let result = list_mentions_group(&function.params, slots) || list_mentions_group(
                &function.results,
                slots,
            );
            proof {
                if exists|i: int| 0 <= i < params.len() && mentions(#[trigger] params[i], slots@) {
                    let i = choose|i: int| 0 <= i < params.len() && mentions(#[trigger] params[i], slots@);
                    let s = choose|s: int| 0 <= s < slots@.len() && refers_to(params[i], #[trigger] slots@[s]);
                    assert(any_refers_to(params, slots@[s]));
                }
                if exists|i: int| 0 <= i < results.len() && mentions(#[trigger] results[i], slots@) {
                    let i = choose|i: int| 0 <= i < results.len() && mentions(#[trigger] results[i], slots@);
                    let s = choose|s: int| 0 <= s < slots@.len() && refers_to(results[i], #[trigger] slots@[s]);
                    assert(any_refers_to(results, slots@[s]));
                }
                if mentions(template.model(), slots@) {
                    let s = choose|s: int| 0 <= s < slots@.len() && refers_to(template.model(), #[trigger] slots@[s]);
                    if any_refers_to(params, slots@[s]) {
                        let i = choose|i: int| 0 <= i < params.len() && refers_to(#[trigger] params[i], slots@[s]);
                        assert(mentions(params[i], slots@));
                    } else {
                        let i = choose|i: int| 0 <= i < results.len() && refers_to(#[trigger] results[i], slots@[s]);
                        assert(mentions(results[i], slots@));
                    }
                }
            }
            result
        },
        TypeTemplate::Struct(body) => struct_mentions_group(body, slots),
        TypeTemplate::Enum(body) => enum_mentions_group(body, slots),
    }
}

fn list_mentions_group(templates: &Vec<TypeTemplate>, slots: &NameSet) -> (result: bool)
    requires
        slots.wf(),
    ensures
        result == exists|i: int|
            0 <= i < tpl_models(templates@).len() && mentions(#[trigger] tpl_models(templates@)[i], slots@),
    decreases templates, 0nat,
{
    let ghost all = tpl_models(templates@);
    let mut i: usize = 0;
    while i < templates.len()
        invariant
            i <= templates@.len(),
            slots.wf(),
            all == tpl_models(templates@),
            forall|k: int| 0 <= k < i ==> !mentions(#[trigger] all[k], slots@),
        decreases templates@.len() - i,
    {
        assert(decreases_to!(*templates => templates@[i as int]));
        if mentions_group(&templates[i], slots) {
            assert(mentions(all[i as int], slots@));
            return true;
        }
        i += 1;
    }
    false
}

fn struct_mentions_group(body: &StructTemplate, slots: &NameSet) -> (result: bool)
    requires
        slots.wf(),
    ensures
        result == mentions(Tpl::Struct(body.model()), slots@),
    decreases body, 0nat,
{
    let ghost fields = body.model().fields;
    let ghost whole = Tpl::Struct(body.model());
    let mut i: usize = 0;
    while i < body.fields.len()
        invariant
            i <= body.fields@.len(),
            slots.wf(),
            fields == body.model().fields,
            whole == Tpl::Struct(body.model()),
            forall|k: int| 0 <= k < i ==> !mentions((#[trigger] fields[k]).ty, slots@),
        decreases body.fields@.len() - i,
    {
        assert(decreases_to!(body.fields => body.fields@[i as int]));
        assert(fields[i as int].ty == body.fields@[i as int].ty.model());
        if mentions_group(&body.fields[i].ty, slots) {
            proof {
                let s = choose|s: int| 0 <= s < slots@.len() && refers_to(fields[i as int].ty, #[trigger] slots@[s]);
                assert(refers_to(whole, slots@[s]));
            }
            return true;
        }
        i += 1;
    }
    proof {
        if mentions(whole, slots@) {
            let s = choose|s: int| 0 <= s < slots@.len() && refers_to(whole, #[trigger] slots@[s]);
            let k = choose|k: int| 0 <= k < fields.len() && refers_to((#[trigger] fields[k]).ty, slots@[s]);
            assert(mentions(fields[k].ty, slots@));
        }
    }
    false
}

fn enum_mentions_group(body: &EnumTemplate, slots: &NameSet) -> (result: bool)
    requires
        slots.wf(),
    ensures
        result == mentions(Tpl::Enum(body.model()), slots@),
    decreases body, 0nat,
{
    let ghost variants = body.model().variants;
    let ghost whole = Tpl::Enum(body.model());
    let mut i: usize = 0;
    while i < body.variants.len()
        invariant
            i <= body.variants@.len(),
            slots.wf(),
            variants == body.model().variants,
            whole == Tpl::Enum(body.model()),
            forall|k: int|
                0 <= k < i ==> match (#[trigger] variants[k]).value {
                    Some(value) => !mentions(value, slots@),
                    None => true,
                },
        decreases body.variants@.len() - i,
    {
        assert(decreases_to!(body.variants => body.variants@[i as int]));
        assert(variants[i as int] == body.variants@[i as int].model());
        if let Some(value) = &body.variants[i].value {
            if mentions_group(value, slots) {
                proof {
                    let s = choose|s: int| 0 <= s < slots@.len() && refers_to(value.model(), #[trigger] slots@[s]);
                    assert(variants[i as int].value == Some(value.model()));
                    assert(refers_to(whole, slots@[s]));
                }
                return true;
            }
        }
        i += 1;
    }
    proof {
        if mentions(whole, slots@) {
            let s = choose|s: int| 0 <= s < slots@.len() && refers_to(whole, #[trigger] slots@[s]);
            let k = choose|k: int|
                0 <= k < variants.len() && match (#[trigger] variants[k]).value {
                    Some(value) => refers_to(value, slots@[s]),
                    None => false,
                };
            assert(mentions(variants[k].value->0, slots@));
        }
    }
    false
}

/// The slots of the names that a template exposes.
pub open spec fn exposed_slot(template: Tpl, names: Seq<Seq<char>>, slot: usize) -> bool {
    slot < names.len() && exposes(template, names[slot as int])
}

/// Adds the slots of the group members to which a template refers other than below a barrier.
fn collect_unguarded(template: &TypeTemplate, slots: &NameSet, references: &mut Vec<usize>)
    requires
        slots.wf(),
    ensures
        forall|s: usize| #[trigger]
            final(references)@.contains(s) <==> old(references)@.contains(s) || exposed_slot(
                template.model(),
                slots@,
                s,
            ),
    decreases template, 0nat,
{
    match template {
        // Barriers: their own layout does not depend on what they refer to, so anything beneath
        // one is guarded and cannot contribute to the enclosing definition's size.
        TypeTemplate::Ptr(_, _) => {},
        TypeTemplate::List(_) => {},
        TypeTemplate::Function(_) => {},
        TypeTemplate::Type(_) => {},
        TypeTemplate::Rec(name) => {
            let ghost before = references@;
            if let Some(slot) = slots.position(name) {
                references.push(slot);
                proof {
                    assert forall|s: usize| #[trigger] references@.contains(s) <==> before.contains(s) || s == slot by {
                        if before.contains(s) {
                            let k = choose|k: int| 0 <= k < before.len() && before[k] == s;
                            assert(references@[k] == s);
                        }
                        if s == slot {
                            assert(references@[before.len() as int] == slot);
                        }
                    }
                    assert forall|s: usize| s < slots@.len() && slots@[s as int] == slots@[slot as int] implies s
                        == slot by {
                        crate::names::increasing_is_distinct(slots@, s as int, slot as int);
                    }
                }
            } else {
                assert(forall|s: int| 0 <= s < slots@.len() ==> slots@.contains(#[trigger] slots@[s]));
            }
        },
        TypeTemplate::Array(inner, _) => collect_unguarded(inner, slots, references),
        TypeTemplate::Struct(body) => collect_unguarded_in_struct(body, slots, references),
        TypeTemplate::Enum(body) => collect_unguarded_in_enum(body, slots, references),
    }
}

fn collect_unguarded_in_struct(body: &StructTemplate, slots: &NameSet, references: &mut Vec<usize>)
    requires
        slots.wf(),
    ensures
        forall|s: usize| #[trigger]
            final(references)@.contains(s) <==> old(references)@.contains(s) || exposed_slot(
                Tpl::Struct(body.model()),
                slots@,
                s,
            ),
    decreases body, 0nat,
{
    let ghost before = references@;
    let ghost fields = body.model().fields;
    let mut i: usize = 0;
    while i < body.fields.len()
        invariant
            i <= body.fields@.len(),
            slots.wf(),
            fields == body.model().fields,
            forall|s: usize| #[trigger]
                references@.contains(s) <==> before.contains(s) || exists|k: int|
                    0 <= k < i && exposed_slot((#[trigger] fields[k]).ty, slots@, s),
        decreases body.fields@.len() - i,
    {
        assert(decreases_to!(body.fields => body.fields@[i as int]));
        assert(fields[i as int].ty == body.fields@[i as int].ty.model());
        collect_unguarded(&body.fields[i].ty, slots, references);
        i += 1;
    }
    assert forall|s: usize| #[trigger] references@.contains(s) <==> before.contains(s) || exposed_slot(
        Tpl::Struct(body.model()),
        slots@,
        s,
    ) by {
        if exposed_slot(Tpl::Struct(body.model()), slots@, s) {
            let k = choose|k: int| 0 <= k < fields.len() && exposes((#[trigger] fields[k]).ty, slots@[s as int]);
            assert(exposed_slot(fields[k].ty, slots@, s));
        }
    }
}

fn collect_unguarded_in_enum(body: &EnumTemplate, slots: &NameSet, references: &mut Vec<usize>)
    requires
        slots.wf(),
    ensures
        forall|s: usize| #[trigger]
            final(references)@.contains(s) <==> old(references)@.contains(s) || exposed_slot(
                Tpl::Enum(body.model()),
                slots@,
                s,
            ),
    decreases body, 0nat,
{
    let ghost before = references@;
    let ghost variants = body.model().variants;
    let mut i: usize = 0;
    while i < body.variants.len()
        invariant
            i <= body.variants@.len(),
            slots.wf(),
            variants == body.model().variants,
            forall|s: usize| #[trigger]
                references@.contains(s) <==> before.contains(s) || exists|k: int|
                    0 <= k < i && match (#[trigger] variants[k]).value {
                        Some(value) => exposed_slot(value, slots@, s),
                        None => false,
                    },
        decreases body.variants@.len() - i,
    {
        assert(decreases_to!(body.variants => body.variants@[i as int]));
        assert(variants[i as int] == body.variants@[i as int].model());
        if let Some(value) = &body.variants[i].value {
            collect_unguarded(value, slots, references);
        }
        i += 1;
    }
    assert forall|s: usize| #[trigger] references@.contains(s) <==> before.contains(s) || exposed_slot(
        Tpl::Enum(body.model()),
        slots@,
        s,
    ) by {
        if exposed_slot(Tpl::Enum(body.model()), slots@, s) {
            let k = choose|k: int|
                0 <= k < variants.len() && match (#[trigger] variants[k]).value {
                    Some(value) => exposes(value, slots@[s as int]),
                    None => false,
                };
            assert(exposed_slot(variants[k].value->0, slots@, s));
        }
    }
}

impl AggregateTemplate {
    /// The names that this definition refers to, in order.
    pub(crate) fn references(&self) -> (references: NameSet)
        ensures
            references.wf(),
            forall|name: Seq<char>| #[trigger] references@.contains(name) <==> refers_to(self.model(), name),
    {
        let mut references = NameSet::new();
        match self {
            AggregateTemplate::Struct(body) => collect_from_struct(body, &mut references),
            AggregateTemplate::Enum(body) => collect_from_enum(body, &mut references),
        }
        references
    }

    /// The slots of the group members to which this definition refers other than below a barrier.
    pub(crate) fn unguarded_references(&self, slots: &NameSet) -> (references: Vec<usize>)
        requires
            slots.wf(),
        ensures
            forall|s: usize| #[trigger] references@.contains(s) <==> exposed_slot(self.model(), slots@, s),
    {
        let mut references: Vec<usize> = Vec::new();
        match self {
            AggregateTemplate::Struct(body) => collect_unguarded_in_struct(body, slots, &mut references),
            AggregateTemplate::Enum(body) => collect_unguarded_in_enum(body, slots, &mut references),
        }
        references
    }
}

} // verus!
