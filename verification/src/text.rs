//! Types and errors as text.
use vstd::prelude::*;
use vstd::string::StringExecFns;

use crate::aggregates::{EnumFault, Fault, InvalidDefinition, InvalidEnumTypeError};
use crate::numerals::{decimal, numeral};
use crate::recursive::MAX_RECURSIVE_GROUP_SIZE;
use crate::templates::{BuildFault, RecursiveTypeError};
use crate::types::{
    models, AddressSpace, CallConv, DefTy, EnumRef, EnumTy, EnumType, FieldTy, Scalar, StructField, StructRef, StructTy,
    StructType, Ty, Type, TypeRepr, Variant, VariantTy,
};

verus! {

// TYPES
// ================================================================================================

pub open spec fn scalar_text(scalar: Scalar) -> Seq<char> {
    match scalar {
        Scalar::Unknown => "?"@,
        Scalar::Never => "!"@,
        Scalar::Variadic => "..."@,
        Scalar::I1 => "i1"@,
        Scalar::I8 => "i8"@,
        Scalar::U8 => "u8"@,
        Scalar::I16 => "i16"@,
        Scalar::U16 => "u16"@,
        Scalar::I32 => "i32"@,
        Scalar::U32 => "u32"@,
        Scalar::I64 => "i64"@,
        Scalar::U64 => "u64"@,
        Scalar::I128 => "i128"@,
        Scalar::U128 => "u128"@,
        Scalar::U256 => "u256"@,
        Scalar::F64 => "f64"@,
        Scalar::Felt => "felt"@,
    }
}

pub open spec fn space_text(space: AddressSpace) -> Seq<char> {
    match space {
        AddressSpace::Byte => "byte"@,
        AddressSpace::Element => "element"@,
    }
}

pub open spec fn abi_text(abi: CallConv) -> Seq<char> {
    match abi {
        CallConv::Fast => "fast"@,
        CallConv::C => "C"@,
        CallConv::Wasm => "wasm"@,
        CallConv::ComponentModel => "component-model"@,
    }
}

/// The text of a representation, which stands before the fields.
pub open spec fn repr_text(repr: TypeRepr) -> Seq<char> {
    match repr {
        TypeRepr::Default => Seq::empty(),
        TypeRepr::Transparent => "#[repr(transparent)] "@,
        TypeRepr::Align(align) => "#[repr(align("@ + numeral(align as nat) + "))] "@,
        TypeRepr::Packed(align) => "#[repr(packed("@ + numeral(align as nat) + "))] "@,
    }
}

/// The text of the name of a struct, which stands before its representation.
pub open spec fn name_text(name: Option<Seq<char>>) -> Seq<char> {
    match name {
        None => Seq::empty(),
        Some(name) => name + " "@,
    }
}

/// The text of a type, on one line. A recursive type is given by its name.
pub open spec fn ty_text(ty: Ty) -> Seq<char>
    decreases ty, 0nat,
{
    match ty {
        Ty::Scalar(scalar) => scalar_text(scalar),
        Ty::Ptr(space, pointee) => "ptr<"@ + space_text(space) + ", "@ + ty_text(*pointee) + ">"@,
        Ty::Array(element, len) => "["@ + ty_text(*element) + "; "@ + numeral(len) + "]"@,
        Ty::List(element) => "list<"@ + ty_text(*element) + ">"@,
        Ty::Function(abi, params, results) => "extern \""@ + abi_text(abi) + "\" fn("@ + tys_text(params, params.len()) + ")"@ + if results.len()
            == 0 {
            Seq::<char>::empty()
        } else {
            " -> "@ + tys_text(results, results.len())
        },
        Ty::Struct(body) => "struct "@ + name_text(body.name) + repr_text(body.repr) + "{"@ + fields_text(
            body.fields,
            body.fields.len(),
        ) + "}"@,
        Ty::Enum(body) => "enum "@ + body.name + " : "@ + ty_text(*body.discriminant) + "{"@ + variants_text(
            body.variants,
            body.variants.len(),
        ) + "}"@,
        Ty::RecStruct(defs, slot) => "struct "@ + defs[slot as int].name,
        Ty::RecEnum(defs, slot) => "enum "@ + defs[slot as int].name,
    }
}

/// What stands before the `n`-th item of a list.
pub open spec fn separator(n: nat) -> Seq<char> {
    if n <= 1 {
        Seq::empty()
    } else {
        ", "@
    }
}

pub open spec fn tys_text(tys: Seq<Ty>, n: nat) -> Seq<char>
    decreases tys, n,
{
    if n == 0 || n > tys.len() {
        Seq::empty()
    } else {
        tys_text(tys, (n - 1) as nat) + separator(n) + ty_text(tys[n - 1])
    }
}

pub open spec fn fields_text(fields: Seq<FieldTy>, n: nat) -> Seq<char>
    decreases fields, n,
{
    if n == 0 || n > fields.len() {
        Seq::empty()
    } else {
        fields_text(fields, (n - 1) as nat) + separator(n) + match fields[n - 1].name {
            None => Seq::<char>::empty(),
            Some(name) => name + " : "@,
        } + ty_text(fields[n - 1].ty)
    }
}

/// The text of a discriminant value, which stands behind a variant.
pub open spec fn value_text(value: Option<u128>) -> Seq<char> {
    match value {
        None => Seq::empty(),
        Some(value) => " = "@ + numeral(value as nat),
    }
}

pub open spec fn variants_text(variants: Seq<VariantTy>, n: nat) -> Seq<char>
    decreases variants, n,
{
    if n == 0 || n > variants.len() {
        Seq::empty()
    } else {
        let variant = variants[n - 1];
        variants_text(variants, (n - 1) as nat) + separator(n) + variant.name + match variant.value {
            None => Seq::<char>::empty(),
            Some(value) => "("@ + ty_text(value) + ")"@,
        } + value_text(variant.discriminant_value)
    }
}

fn append_scalar(text: &mut String, scalar: Scalar)
    ensures
        final(text)@ == old(text)@ + scalar_text(scalar),
{
    let word = match scalar {
        Scalar::Unknown => "?",
        Scalar::Never => "!",
        Scalar::Variadic => "...",
        Scalar::I1 => "i1",
        Scalar::I8 => "i8",
        Scalar::U8 => "u8",
        Scalar::I16 => "i16",
        Scalar::U16 => "u16",
        Scalar::I32 => "i32",
        Scalar::U32 => "u32",
        Scalar::I64 => "i64",
        Scalar::U64 => "u64",
        Scalar::I128 => "i128",
        Scalar::U128 => "u128",
        Scalar::U256 => "u256",
        Scalar::F64 => "f64",
        Scalar::Felt => "felt",
    };
    text.append(word);
}

fn append_repr(text: &mut String, repr: TypeRepr)
    ensures
        final(text)@ == old(text)@ + repr_text(repr),
{
    let ghost before = text@;
    match repr {
        TypeRepr::Default => {},
        TypeRepr::Transparent => {
            text.append("#[repr(transparent)] ");
        },
        TypeRepr::Align(align) => {
            text.append("#[repr(align(");
            text.append(decimal(align as u128).as_str());
            text.append("))] ");
        },
        TypeRepr::Packed(align) => {
            text.append("#[repr(packed(");
            text.append(decimal(align as u128).as_str());
            text.append("))] ");
        },
    }
    assert(text@ =~= before + repr_text(repr));
}

/// Appends the text of a type.
fn append_type(text: &mut String, ty: &Type)
    ensures
        final(text)@ == old(text)@ + ty_text(ty.model()),
    decreases ty, 0nat,
{
    let ghost before = text@;
    if let Some(scalar) = ty.scalar() {
        append_scalar(text, scalar);
        return;
    }
    match ty {
        Type::Ptr(pointer) => {
            text.append("ptr<");
            let space = match pointer.addrspace {
                AddressSpace::Byte => "byte",
                AddressSpace::Element => "element",
            };
            text.append(space);
            text.append(", ");
            append_type(text, &pointer.pointee);
            text.append(">");
        },
        Type::Array(array) => {
            text.append("[");
            append_type(text, &array.ty);
            text.append("; ");
            text.append(decimal(array.len as u128).as_str());
            text.append("]");
        },
        Type::List(element) => {
            text.append("list<");
            append_type(text, element);
            text.append(">");
        },
        Type::Function(function) => {
            proof {
                assert(ty.model()->Function_1 =~= models(function.params@));
                assert(ty.model()->Function_2 =~= models(function.results@));
            }
            let abi = match function.abi {
                CallConv::Fast => "fast",
                CallConv::C => "C",
                CallConv::Wasm => "wasm",
                CallConv::ComponentModel => "component-model",
            };
            text.append("extern \"");
            text.append(abi);
            text.append("\" fn(");
            append_types(text, &function.params);
            text.append(")");
            if function.results.len() > 0 {
                text.append(" -> ");
                append_types(text, &function.results);
            }
        },
        Type::Struct(StructRef::Plain(body)) => append_struct(text, body),
        Type::Enum(EnumRef::Plain(body)) => append_enum(text, body),
        Type::Struct(StructRef::Rec(reference)) => {
            text.append("struct ");
            text.append(reference.name());
        },
        Type::Enum(EnumRef::Rec(reference)) => {
            text.append("enum ");
            text.append(reference.name());
        },
        _ => {},
    }
    assert(text@ =~= before + ty_text(ty.model()));
}

fn append_separator(text: &mut String, i: usize)
    requires
        i < usize::MAX,
    ensures
        final(text)@ == old(text)@ + separator((i + 1) as nat),
{
    let ghost before = text@;
    if i > 0 {
        text.append(", ");
    }
    assert(text@ =~= before + separator((i + 1) as nat));
}

fn append_types(text: &mut String, tys: &Vec<Type>)
    ensures
        final(text)@ == old(text)@ + tys_text(models(tys@), tys@.len()),
    decreases tys, 0nat,
{
    let ghost before = text@;
    let ghost all = models(tys@);
    let mut i: usize = 0;
    assert(before + Seq::<char>::empty() =~= before);
    while i < tys.len()
        invariant
            i <= tys@.len(),
            all == models(tys@),
            text@ == before + tys_text(all, i as nat),
        decreases tys@.len() - i,
    {
        assert(decreases_to!(*tys => tys@[i as int]));
        append_separator(text, i);
        append_type(text, &tys[i]);
        assert(text@ =~= before + tys_text(all, (i + 1) as nat));
        i += 1;
    }
}

fn append_struct(text: &mut String, body: &StructType)
    ensures
        final(text)@ == old(text)@ + ty_text(Ty::Struct(body.model())),
    decreases body, 0nat,
{
    let ghost before = text@;
    let ghost fields = body.model().fields;
    text.append("struct ");
    if let Some(name) = &body.name {
        text.append(name);
        text.append(" ");
    }
    append_repr(text, body.repr);
    text.append("{");
    let ghost head = before + "struct "@ + name_text(body.model().name) + repr_text(body.repr) + "{"@;
    assert(text@ =~= head);
    let mut i: usize = 0;
    assert(head + Seq::<char>::empty() =~= head);
    while i < body.fields.len()
        invariant
            i <= body.fields@.len(),
            fields == body.model().fields,
            text@ == head + fields_text(fields, i as nat),
        decreases body.fields@.len() - i,
    {
        proof {
            assert(decreases_to!(body.fields => body.fields@[i as int]));
            assert(fields[i as int] == body.fields@[i as int].model());
        }
        append_separator(text, i);
        append_field(text, &body.fields[i]);
        assert(text@ =~= head + fields_text(fields, (i + 1) as nat));
        i += 1;
    }
    text.append("}");
    assert(text@ =~= before + ty_text(Ty::Struct(body.model())));
}

fn append_field(text: &mut String, field: &StructField)
    ensures
        final(text)@ == old(text)@ + match field.model().name {
            None => Seq::<char>::empty(),
            Some(name) => name + " : "@,
        } + ty_text(field.ty.model()),
    decreases field, 0nat,
{
    let ghost before = text@;
    if let Some(name) = &field.name {
        text.append(name);
        text.append(" : ");
        assert(text@ =~= before + ((**name)@ + " : "@));
    } else {
        assert(text@ =~= before + Seq::<char>::empty());
    }
    append_type(text, &field.ty);
}

fn append_enum(text: &mut String, body: &EnumType)
    ensures
        final(text)@ == old(text)@ + ty_text(Ty::Enum(body.model())),
    decreases body, 0nat,
{
    let ghost before = text@;
    let ghost variants = body.model().variants;
    text.append("enum ");
    text.append(&body.name);
    text.append(" : ");
    append_type(text, &body.discriminant);
    text.append("{");
    let ghost head = before + "enum "@ + (*body.name)@ + " : "@ + ty_text(body.discriminant.model()) + "{"@;
    assert(text@ =~= head);
    let mut i: usize = 0;
    assert(head + Seq::<char>::empty() =~= head);
    while i < body.variants.len()
        invariant
            i <= body.variants@.len(),
            variants == body.model().variants,
            text@ == head + variants_text(variants, i as nat),
        decreases body.variants@.len() - i,
    {
        proof {
            assert(decreases_to!(body.variants => body.variants@[i as int]));
            assert(variants[i as int] == body.variants@[i as int].model());
        }
        append_separator(text, i);
        append_variant(text, &body.variants[i]);
        assert(text@ =~= head + variants_text(variants, (i + 1) as nat));
        i += 1;
    }
    text.append("}");
    assert(text@ =~= before + ty_text(Ty::Enum(body.model())));
}

fn append_variant(text: &mut String, variant: &Variant)
    ensures
        final(text)@ == old(text)@ + (*variant.name)@ + match variant.model().value {
            None => Seq::<char>::empty(),
            Some(value) => "("@ + ty_text(value) + ")"@,
        } + value_text(variant.discriminant_value),
    decreases variant, 0nat,
{
    text.append(&variant.name);
    let ghost named = text@;
    match &variant.value {
        None => {
            assert(text@ =~= named + Seq::<char>::empty());
        },
        Some(value) => {
            text.append("(");
            append_type(text, value);
            text.append(")");
            assert(text@ =~= named + ("("@ + ty_text(value.model()) + ")"@));
        },
    }
    let ghost loaded = text@;
    match variant.discriminant_value {
        None => {
            assert(text@ =~= loaded + Seq::<char>::empty());
        },
        Some(value) => {
            text.append(" = ");
            text.append(decimal(value).as_str());
            assert(text@ =~= loaded + (" = "@ + numeral(value as nat)));
        },
    }
}

impl Type {
    /// This type as text, on one line. A recursive type is given by its name, and so does not
    /// unfold for ever.
    pub fn to_text(&self) -> (text: String)
        ensures
            text@ == ty_text(self.model()),
    {
        let mut text = String::new();
        append_type(&mut text, self);
        assert(text@ =~= ty_text(self.model()));
        text
    }
}

// ERRORS
// ================================================================================================

pub open spec fn enum_fault_text(fault: EnumFault) -> Seq<char> {
    match fault {
        EnumFault::DiscriminantType(ty) => "invalid discriminant type '"@ + ty_text(ty)
            + "': expected integer type"@,
        EnumFault::ImplicitValue(variant, ty, value) => "invalid enum variant '"@ + variant
            + "': discriminant value is out of range for "@ + ty_text(ty) + ", preceding variant had value "@ + numeral(
            value as nat,
        ),
        EnumFault::Value(variant, ty, value) => "invalid enum variant '"@ + variant + "': discriminant value "@
            + numeral(value as nat) + " is out of range for "@ + ty_text(ty),
        EnumFault::DuplicateVariant(variant) => "invalid enum variant: '"@ + variant
            + "' cannot be defined twice in the same enum"@,
        EnumFault::DuplicateValue(variant, _) => "invalid enum variant '"@ + variant
            + "': discriminant value has already been claimed by a previous discriminant"@,
    }
}

pub open spec fn fault_text(fault: Fault) -> Seq<char> {
    match fault {
        Fault::Enum(fault) => enum_fault_text(fault),
        Fault::Layout => "invalid type: its layout is out of range"@,
        Fault::KindMismatch => "definition kind does not match its computed layout"@,
        Fault::TemplateMismatch => "type template does not match its computed layout"@,
    }
}

pub open spec fn build_fault_text(fault: BuildFault) -> Seq<char> {
    "invalid recursive type: "@ + match fault {
        BuildFault::EmptyName => "definition name must not be empty"@,
        BuildFault::DuplicateName(name) => "duplicate definition name '"@ + name + "'"@,
        BuildFault::UndefinedReference(name) => "reference to undefined type '"@ + name + "'"@,
        BuildFault::UnguardedRecursion(name) => "'"@ + name
            + "' is recursive without an intervening pointer, list, or function, so it would have infinite size"@,
        BuildFault::GroupTooLarge(name, len) => "group containing '"@ + name + "' has "@ + numeral(len)
            + " definitions, but no more than "@ + numeral(MAX_RECURSIVE_GROUP_SIZE as nat) + " are allowed"@,
        BuildFault::InvalidDefinition(fault) => fault_text(fault),
    }
}

impl InvalidEnumTypeError {
    /// What is wrong, as text.
    pub fn message(&self) -> (text: String)
        ensures
            text@ == enum_fault_text(self.model()),
    {
        let mut text = String::new();
        match self {
            InvalidEnumTypeError::InvalidDiscriminantType(ty) => {
                text.append("invalid discriminant type '");
                append_type(&mut text, ty);
                text.append("': expected integer type");
            },
            InvalidEnumTypeError::InvalidImplicitDiscriminantValue {
                variant,
                discriminant_ty,
                value_of_preceding_variant,
            } => {
                text.append("invalid enum variant '");
                text.append(variant);
                text.append("': discriminant value is out of range for ");
                append_type(&mut text, discriminant_ty);
                text.append(", preceding variant had value ");
                text.append(decimal(*value_of_preceding_variant).as_str());
            },
            InvalidEnumTypeError::InvalidDiscriminantValue { variant, discriminant_ty, value } => {
                text.append("invalid enum variant '");
                text.append(variant);
                text.append("': discriminant value ");
                text.append(decimal(*value).as_str());
                text.append(" is out of range for ");
                append_type(&mut text, discriminant_ty);
            },
            InvalidEnumTypeError::DuplicateVariant { variant } => {
                text.append("invalid enum variant: '");
                text.append(variant);
                text.append("' cannot be defined twice in the same enum");
            },
            InvalidEnumTypeError::DuplicateDiscriminantValue { variant, value: _ } => {
                text.append("invalid enum variant '");
                text.append(variant);
                text.append("': discriminant value has already been claimed by a previous discriminant");
            },
        }
        assert(text@ =~= enum_fault_text(self.model()));
        text
    }
}

impl InvalidDefinition {
    /// What is wrong, as text.
    pub fn message(&self) -> (text: String)
        ensures
            text@ == fault_text(self.model()),
    {
        match self {
            InvalidDefinition::Enum(error) => error.message(),
            InvalidDefinition::Layout => String::from_str("invalid type: its layout is out of range"),
            InvalidDefinition::KindMismatch => String::from_str("definition kind does not match its computed layout"),
            InvalidDefinition::TemplateMismatch => String::from_str("type template does not match its computed layout"),
        }
    }
}

impl RecursiveTypeError {
    /// What is wrong, as text.
    pub fn message(&self) -> (text: String)
        ensures
            text@ == build_fault_text(self.model()),
    {
        let mut text = String::from_str("invalid recursive type: ");
        match self {
            RecursiveTypeError::EmptyName => {
                text.append("definition name must not be empty");
            },
            RecursiveTypeError::DuplicateName(name) => {
                text.append("duplicate definition name '");
                text.append(name);
                text.append("'");
            },
            RecursiveTypeError::UndefinedReference(name) => {
                text.append("reference to undefined type '");
                text.append(name);
                text.append("'");
            },
            RecursiveTypeError::UnguardedRecursion(name) => {
                text.append("'");
                text.append(name);
                text.append(
                    "' is recursive without an intervening pointer, list, or function, so it would have infinite size",
                );
            },
            RecursiveTypeError::GroupTooLarge(name, len) => {
                text.append("group containing '");
                text.append(name);
                text.append("' has ");
                text.append(decimal(*len as u128).as_str());
                text.append(" definitions, but no more than ");
                text.append(decimal(MAX_RECURSIVE_GROUP_SIZE as u128).as_str());
                text.append(" are allowed");
            },
            RecursiveTypeError::InvalidDefinition(reason) => {
                text.append(reason.message().as_str());
            },
        }
        assert(text@ =~= build_fault_text(self.model()));
        text
    }
}

/// Some texts with a comma between each two.
pub open spec fn joined(texts: Seq<Seq<char>>) -> Seq<char>
    decreases texts.len(),
{
    if texts.len() == 0 {
        Seq::empty()
    } else if texts.len() == 1 {
        texts[0]
    } else {
        texts[0] + ", "@ + joined(texts.skip(1))
    }
}

proof fn joined_last(texts: Seq<Seq<char>>)
    requires
        texts.len() > 0,
    ensures
        joined(texts) == joined(texts.drop_last()) + separator(texts.len()) + texts.last(),
    decreases texts.len(),
{
    if texts.len() == 1 {
        assert(joined(texts.drop_last()) =~= Seq::empty());
    } else {
        let rest = texts.skip(1);
        joined_last(rest);
        assert(rest.drop_last() =~= texts.drop_last().skip(1));
        assert(rest.last() == texts.last());
        if texts.len() == 2 {
            assert(texts.drop_last().len() == 1);
            assert(rest.len() == 1);
            assert(joined(texts) =~= texts[0] + ", "@ + texts[1]);
        } else {
            assert(joined(texts.drop_last()) == texts[0] + ", "@ + joined(texts.drop_last().skip(1)));
            assert(joined(texts) =~= joined(texts.drop_last()) + ", "@ + texts.last());
        }
    }
}

/// The text of a field: its name, if it has one, and its type.
pub open spec fn field_text(field: FieldTy) -> Seq<char> {
    match field.name {
        None => ty_text(field.ty),
        Some(name) => name + " : "@ + ty_text(field.ty),
    }
}

/// The text of a variant: its name, its payload in brackets, and its value.
pub open spec fn variant_text(variant: VariantTy) -> Seq<char> {
    match (variant.value, variant.discriminant_value) {
        (None, None) => variant.name,
        (None, Some(value)) => variant.name + " = "@ + numeral(value as nat),
        (Some(payload), None) => variant.name + "("@ + ty_text(payload) + ")"@,
        (Some(payload), Some(value)) => variant.name + "("@ + ty_text(payload) + ")"@ + " = "@ + numeral(value as nat),
    }
}

proof fn tys_are_listed(tys: Seq<Ty>, n: nat)
    requires
        n <= tys.len(),
    ensures
        tys_text(tys, n) == joined(tys.take(n as int).map_values(|ty: Ty| ty_text(ty))),
    decreases n,
{
    let texts = tys.take(n as int).map_values(|ty: Ty| ty_text(ty));
    if n > 0 {
        tys_are_listed(tys, (n - 1) as nat);
        joined_last(texts);
        assert(texts.drop_last() =~= tys.take(n - 1).map_values(|ty: Ty| ty_text(ty)));
    }
}

proof fn fields_are_listed(fields: Seq<FieldTy>, n: nat)
    requires
        n <= fields.len(),
    ensures
        fields_text(fields, n) == joined(fields.take(n as int).map_values(|field: FieldTy| field_text(field))),
    decreases n,
{
    let texts = fields.take(n as int).map_values(|field: FieldTy| field_text(field));
    if n > 0 {
        fields_are_listed(fields, (n - 1) as nat);
        joined_last(texts);
        assert(texts.drop_last() =~= fields.take(n - 1).map_values(|field: FieldTy| field_text(field)));
        assert(texts.last() == field_text(fields[n - 1]));
        assert(fields_text(fields, n) =~= fields_text(fields, (n - 1) as nat) + separator(n) + field_text(
            fields[n - 1],
        ));
    }
}

proof fn variants_are_listed(variants: Seq<VariantTy>, n: nat)
    requires
        n <= variants.len(),
    ensures
        variants_text(variants, n) == joined(
            variants.take(n as int).map_values(|variant: VariantTy| variant_text(variant)),
        ),
    decreases n,
{
    let texts = variants.take(n as int).map_values(|variant: VariantTy| variant_text(variant));
    if n > 0 {
        variants_are_listed(variants, (n - 1) as nat);
        joined_last(texts);
        assert(texts.drop_last() =~= variants.take(n - 1).map_values(|variant: VariantTy| variant_text(variant)));
        assert(texts.last() == variant_text(variants[n - 1]));
        assert(variants_text(variants, n) =~= variants_text(variants, (n - 1) as nat) + separator(n) + variant_text(
            variants[n - 1],
        ));
    }
}

/// The parameters and results of a function, the fields of a struct and the variants of an enum are
/// listed in order, with a comma between each two.
pub proof fn parts_are_listed(abi: CallConv, params: Seq<Ty>, results: Seq<Ty>, body: StructTy, choices: EnumTy)
    ensures
        ty_text(Ty::Function(abi, params, results)) == "extern \""@ + abi_text(abi) + "\" fn("@ + joined(
            params.map_values(|ty: Ty| ty_text(ty)),
        ) + ")"@ + if results.len() == 0 {
            Seq::<char>::empty()
        } else {
            " -> "@ + joined(results.map_values(|ty: Ty| ty_text(ty)))
        },
        ty_text(Ty::Struct(body)) == "struct "@ + name_text(body.name) + repr_text(body.repr) + "{"@ + joined(
            body.fields.map_values(|field: FieldTy| field_text(field)),
        ) + "}"@,
        ty_text(Ty::Enum(choices)) == "enum "@ + choices.name + " : "@ + ty_text(*choices.discriminant) + "{"@ + joined(
            choices.variants.map_values(|variant: VariantTy| variant_text(variant)),
        ) + "}"@,
{
    tys_are_listed(params, params.len());
    tys_are_listed(results, results.len());
    fields_are_listed(body.fields, body.fields.len());
    variants_are_listed(choices.variants, choices.variants.len());
    assert(params.take(params.len() as int) =~= params);
    assert(results.take(results.len() as int) =~= results);
    assert(body.fields.take(body.fields.len() as int) =~= body.fields);
    assert(choices.variants.take(choices.variants.len() as int) =~= choices.variants);
}

/// Integers are named after their sign and their bits, and the other scalars have names of their own;
/// pointers, arrays and lists show what is within them.
pub proof fn types_have_their_names(inner: Ty, len: nat, defs: Seq<DefTy>, slot: nat)
    ensures
        ty_text(Ty::Scalar(Scalar::I1)) == "i1"@ && ty_text(Ty::Scalar(Scalar::I8)) == "i8"@,
        ty_text(Ty::Scalar(Scalar::U8)) == "u8"@ && ty_text(Ty::Scalar(Scalar::I16)) == "i16"@,
        ty_text(Ty::Scalar(Scalar::U16)) == "u16"@ && ty_text(Ty::Scalar(Scalar::I32)) == "i32"@,
        ty_text(Ty::Scalar(Scalar::U32)) == "u32"@ && ty_text(Ty::Scalar(Scalar::I64)) == "i64"@,
        ty_text(Ty::Scalar(Scalar::U64)) == "u64"@ && ty_text(Ty::Scalar(Scalar::I128)) == "i128"@,
        ty_text(Ty::Scalar(Scalar::U128)) == "u128"@ && ty_text(Ty::Scalar(Scalar::U256)) == "u256"@,
        ty_text(Ty::Scalar(Scalar::F64)) == "f64"@ && ty_text(Ty::Scalar(Scalar::Felt)) == "felt"@,
        ty_text(Ty::Scalar(Scalar::Unknown)) == "?"@ && ty_text(Ty::Scalar(Scalar::Never)) == "!"@,
        ty_text(Ty::Scalar(Scalar::Variadic)) == "..."@,
        ty_text(Ty::Ptr(AddressSpace::Byte, Box::new(inner))) == "ptr<"@ + "byte"@ + ", "@ + ty_text(inner) + ">"@,
        ty_text(Ty::Ptr(AddressSpace::Element, Box::new(inner))) == "ptr<"@ + "element"@ + ", "@ + ty_text(inner)
            + ">"@,
        ty_text(Ty::Array(Box::new(inner), len)) == "["@ + ty_text(inner) + "; "@ + numeral(len) + "]"@,
        ty_text(Ty::List(Box::new(inner))) == "list<"@ + ty_text(inner) + ">"@,
        ty_text(Ty::RecStruct(defs, slot)) == "struct "@ + defs[slot as int].name,
        ty_text(Ty::RecEnum(defs, slot)) == "enum "@ + defs[slot as int].name,
        abi_text(CallConv::Fast) == "fast"@ && abi_text(CallConv::C) == "C"@,
        abi_text(CallConv::Wasm) == "wasm"@ && abi_text(CallConv::ComponentModel) == "component-model"@,
{
}

/// A representation other than the default one is shown as an attribute, with its alignment.
pub proof fn representations_are_attributes(align: u16, name: Seq<char>)
    ensures
        repr_text(TypeRepr::Default).len() == 0,
        repr_text(TypeRepr::Transparent) == "#[repr(transparent)] "@,
        repr_text(TypeRepr::Align(align)) == "#[repr(align("@ + numeral(align as nat) + "))] "@,
        repr_text(TypeRepr::Packed(align)) == "#[repr(packed("@ + numeral(align as nat) + "))] "@,
        name_text(None).len() == 0,
        name_text(Some(name)) == name + " "@,
{
}

/// The text of a fault names what is at fault.
pub proof fn faults_name_what_is_wrong(name: Seq<char>, ty: Ty, value: u128, size: nat)
    ensures
        fault_text(Fault::Enum(EnumFault::DuplicateVariant(name))) == "invalid enum variant: '"@ + name
            + "' cannot be defined twice in the same enum"@,
        fault_text(Fault::Enum(EnumFault::DiscriminantType(ty))) == "invalid discriminant type '"@ + ty_text(ty)
            + "': expected integer type"@,
        fault_text(Fault::Enum(EnumFault::ImplicitValue(name, ty, value))) == "invalid enum variant '"@ + name
            + "': discriminant value is out of range for "@ + ty_text(ty) + ", preceding variant had value "@ + numeral(
            value as nat,
        ),
        fault_text(Fault::Enum(EnumFault::Value(name, ty, value))) == "invalid enum variant '"@ + name
            + "': discriminant value "@ + numeral(value as nat) + " is out of range for "@ + ty_text(ty),
        fault_text(Fault::Enum(EnumFault::DuplicateValue(name, value))) == "invalid enum variant '"@ + name
            + "': discriminant value has already been claimed by a previous discriminant"@,
        build_fault_text(BuildFault::EmptyName) == "invalid recursive type: "@ + "definition name must not be empty"@,
        build_fault_text(BuildFault::DuplicateName(name)) == "invalid recursive type: "@ + (
        "duplicate definition name '"@ + name + "'"@),
        build_fault_text(BuildFault::UndefinedReference(name)) == "invalid recursive type: "@ + (
        "reference to undefined type '"@ + name + "'"@),
        build_fault_text(BuildFault::UnguardedRecursion(name)) == "invalid recursive type: "@ + ("'"@ + name
            + "' is recursive without an intervening pointer, list, or function, so it would have infinite size"@),
        build_fault_text(BuildFault::GroupTooLarge(name, size)) == "invalid recursive type: "@ + (
        "group containing '"@ + name + "' has "@ + numeral(size) + " definitions, but no more than "@ + numeral(64)
            + " are allowed"@),
{
}

} // verus!
