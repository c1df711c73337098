//! Equality of types: two types are equal when they stand for the same.
use std::sync::Arc;

use vstd::prelude::*;
use vstd::std_specs::cmp::{PartialEqSpec, PartialEqSpecImpl};

use crate::hashing::fnv_ty;
use crate::names::same_text;
use crate::types::{
    def_models, field_models, models, numbers, open_field_models, open_models, open_variant_models, optional_text,
    variant_models, EnumRef, EnumType, OpenAggregate, OpenEnumType, OpenStructField, OpenStructType, OpenType,
    OpenVariant, RecDef, RecGroup, RecTypeRef, StructField, StructRef, StructType, Type, Variant,
};

verus! {

fn same_name(a: &Option<Arc<str>>, b: &Option<Arc<str>>) -> (same: bool)
    ensures
        same == (optional_text(*a) == optional_text(*b)),
{
    match (a, b) {
        (Some(a), Some(b)) => same_text(a, b),
        (None, None) => true,
        _ => false,
    }
}

fn same_offsets(a: &Vec<u32>, b: &Vec<u32>) -> (same: bool)
    ensures
        same == (numbers(a@) == numbers(b@)),
{
    if a.len() != b.len() {
        assert(numbers(a@).len() != numbers(b@).len());
        return false;
    }
    let mut i: usize = 0;
    while i < a.len()
        invariant
            i <= a@.len(),
            a@.len() == b@.len(),
            forall|j: int| 0 <= j < i ==> #[trigger] numbers(a@)[j] == numbers(b@)[j],
        decreases a@.len() - i,
    {
        if a[i] != b[i] {
            assert(numbers(a@)[i as int] != numbers(b@)[i as int]);
            return false;
        }
        i += 1;
    }
    assert(numbers(a@) =~= numbers(b@));
    true
}

/// Whether two types stand for the same.
fn same_type(a: &Type, b: &Type) -> (same: bool)
    ensures
        same == (a.model() == b.model()),
    decreases a, 0nat,
{
    match (a.scalar(), b.scalar()) {
        (Some(x), Some(y)) => {
            return x == y;
        },
        (None, None) => {},
        _ => {
            return false;
        },
    }
    match (a, b) {
        (Type::Ptr(x), Type::Ptr(y)) => x.addrspace == y.addrspace && same_type(&x.pointee, &y.pointee),
        (Type::Array(x), Type::Array(y)) => x.len == y.len && same_type(&x.ty, &y.ty),
        (Type::List(x), Type::List(y)) => same_type(x, y),
        (Type::Function(x), Type::Function(y)) => {
            proof {
                assert(a.model()->Function_1 =~= models(x.params@));
                assert(a.model()->Function_2 =~= models(x.results@));
                assert(b.model()->Function_1 =~= models(y.params@));
                assert(b.model()->Function_2 =~= models(y.results@));
            }
            x.abi == y.abi && same_types(&x.params, &y.params) && same_types(&x.results, &y.results)
        },
        (Type::Struct(StructRef::Plain(x)), Type::Struct(StructRef::Plain(y))) => same_struct(x, y),
        (Type::Struct(StructRef::Rec(x)), Type::Struct(StructRef::Rec(y))) => same_reference(x, y),
        (Type::Enum(EnumRef::Plain(x)), Type::Enum(EnumRef::Plain(y))) => same_enum(x, y),
        (Type::Enum(EnumRef::Rec(x)), Type::Enum(EnumRef::Rec(y))) => same_reference(x, y),
        _ => false,
    }
}

fn same_reference(a: &RecTypeRef, b: &RecTypeRef) -> (same: bool)
    ensures
        same == (a.slot() == b.slot() && a.defs() == b.defs()),
    decreases a, 0nat,
{
    a.index() == b.index() && same_group(a.group(), b.group())
}

/// The cached hash rejects unequal groups without walking them.
fn same_group(a: &RecGroup, b: &RecGroup) -> (same: bool)
    ensures
        same == (a.model() == b.model()),
    decreases a, 0nat,
{
    a.hash_value() == b.hash_value() && same_defs(a.definitions(), b.definitions())
}

fn same_struct(a: &StructType, b: &StructType) -> (same: bool)
    ensures
        same == (a.model() == b.model()),
    decreases a, 0nat,
{
    proof {
        assert(a.model().fields =~= field_models(a.fields@));
        assert(b.model().fields =~= field_models(b.fields@));
    }
    same_name(&a.name, &b.name) && a.repr == b.repr && a.size == b.size && same_fields(&a.fields, &b.fields)
}

fn same_field(a: &StructField, b: &StructField) -> (same: bool)
    ensures
        same == (a.model() == b.model()),
    decreases a, 0nat,
{
    same_name(&a.name, &b.name) && a.index == b.index && a.align == b.align && a.offset == b.offset && same_type(
        &a.ty,
        &b.ty,
    )
}

fn same_enum(a: &EnumType, b: &EnumType) -> (same: bool)
    ensures
        same == (a.model() == b.model()),
    decreases a, 0nat,
{
    proof {
        assert(a.model().variants =~= variant_models(a.variants@));
        assert(b.model().variants =~= variant_models(b.variants@));
    }
    same_text(&a.name, &b.name) && same_type(&a.discriminant, &b.discriminant) && a.size == b.size && a.align
        == b.align && same_variants(&a.variants, &b.variants) && same_offsets(&a.offsets, &b.offsets)
}

fn same_variant(a: &Variant, b: &Variant) -> (same: bool)
    ensures
        same == (a.model() == b.model()),
    decreases a, 0nat,
{
    let values = match (&a.value, &b.value) {
        (Some(x), Some(y)) => same_type(x, y),
        (None, None) => true,
        _ => false,
    };
    values && same_text(&a.name, &b.name) && a.discriminant_value == b.discriminant_value
}

fn same_open(a: &OpenType, b: &OpenType) -> (same: bool)
    ensures
        same == (a.model() == b.model()),
    decreases a, 0nat,
{
    match (a, b) {
        (OpenType::Closed(x), OpenType::Closed(y)) => same_type(x, y),
        (OpenType::Var(x), OpenType::Var(y)) => *x == *y,
        (OpenType::Ptr(s, x), OpenType::Ptr(t, y)) => *s == *t && same_open(x, y),
        (OpenType::Array(x, m), OpenType::Array(y, n)) => *m == *n && same_open(x, y),
        (OpenType::List(x), OpenType::List(y)) => same_open(x, y),
        (OpenType::Function(x), OpenType::Function(y)) => {
            proof {
                assert(a.model()->Function_1 =~= open_models(x.params@));
                assert(a.model()->Function_2 =~= open_models(x.results@));
                assert(b.model()->Function_1 =~= open_models(y.params@));
                assert(b.model()->Function_2 =~= open_models(y.results@));
            }
            x.abi == y.abi && same_opens(&x.params, &y.params) && same_opens(&x.results, &y.results)
        },
        (OpenType::Struct(x), OpenType::Struct(y)) => same_open_struct(x, y),
        (OpenType::Enum(x), OpenType::Enum(y)) => same_open_enum(x, y),
        _ => false,
    }
}

fn same_open_struct(a: &OpenStructType, b: &OpenStructType) -> (same: bool)
    ensures
        same == (a.model() == b.model()),
    decreases a, 0nat,
{
    proof {
        assert(a.model().fields =~= open_field_models(a.fields@));
        assert(b.model().fields =~= open_field_models(b.fields@));
    }
    same_name(&a.name, &b.name) && a.repr == b.repr && a.size == b.size && same_open_fields(&a.fields, &b.fields)
}

fn same_open_field(a: &OpenStructField, b: &OpenStructField) -> (same: bool)
    ensures
        same == (a.model() == b.model()),
    decreases a, 0nat,
{
    same_name(&a.name, &b.name) && a.index == b.index && a.align == b.align && a.offset == b.offset && same_open(
        &a.ty,
        &b.ty,
    )
}

fn same_open_enum(a: &OpenEnumType, b: &OpenEnumType) -> (same: bool)
    ensures
        same == (a.model() == b.model()),
    decreases a, 0nat,
{
    proof {
        assert(a.model().variants =~= open_variant_models(a.variants@));
        assert(b.model().variants =~= open_variant_models(b.variants@));
    }
    same_text(&a.name, &b.name) && same_type(&a.discriminant, &b.discriminant) && a.size == b.size && a.align
        == b.align && same_open_variants(&a.variants, &b.variants) && same_offsets(&a.offsets, &b.offsets)
}

fn same_open_variant(a: &OpenVariant, b: &OpenVariant) -> (same: bool)
    ensures
        same == (a.model() == b.model()),
    decreases a, 0nat,
{
    let values = match (&a.value, &b.value) {
        (Some(x), Some(y)) => same_open(x, y),
        (None, None) => true,
        _ => false,
    };
    values && same_text(&a.name, &b.name) && a.discriminant_value == b.discriminant_value
}

fn same_def(a: &RecDef, b: &RecDef) -> (same: bool)
    ensures
        same == (a.model() == b.model()),
    decreases a, 0nat,
{
    let bodies = match (&a.body, &b.body) {
        (OpenAggregate::Struct(x), OpenAggregate::Struct(y)) => same_open_struct(x, y),
        (OpenAggregate::Enum(x), OpenAggregate::Enum(y)) => same_open_enum(x, y),
        _ => false,
    };
    bodies && same_text(&a.name, &b.name) && a.kind == b.kind && a.layout == b.layout
}

fn same_types(a: &Vec<Type>, b: &Vec<Type>) -> (same: bool)
    ensures
        same == (models(a@) == models(b@)),
    decreases a, 0nat,
{
    if a.len() != b.len() {
        assert(models(a@).len() != models(b@).len());
        return false;
    }
    let mut i: usize = 0;
    while i < a.len()
        invariant
            i <= a@.len(),
            a@.len() == b@.len(),
            forall|j: int| 0 <= j < i ==> #[trigger] models(a@)[j] == models(b@)[j],
        decreases a@.len() - i,
    {
        assert(decreases_to!(*a => a@[i as int]));
        if !same_type(&a[i], &b[i]) {
            assert(models(a@)[i as int] != models(b@)[i as int]);
            return false;
        }
        i += 1;
    }
    assert(models(a@) =~= models(b@));
    true
}

fn same_fields(a: &Vec<StructField>, b: &Vec<StructField>) -> (same: bool)
    ensures
        same == (field_models(a@) == field_models(b@)),
    decreases a, 0nat,
{
    if a.len() != b.len() {
        assert(field_models(a@).len() != field_models(b@).len());
        return false;
    }
    let mut i: usize = 0;
    while i < a.len()
        invariant
            i <= a@.len(),
            a@.len() == b@.len(),
            forall|j: int| 0 <= j < i ==> #[trigger] field_models(a@)[j] == field_models(b@)[j],
        decreases a@.len() - i,
    {
        assert(decreases_to!(*a => a@[i as int]));
        if !same_field(&a[i], &b[i]) {
            assert(field_models(a@)[i as int] != field_models(b@)[i as int]);
            return false;
        }
        i += 1;
    }
    assert(field_models(a@) =~= field_models(b@));
    true
}

fn same_variants(a: &Vec<Variant>, b: &Vec<Variant>) -> (same: bool)
    ensures
        same == (variant_models(a@) == variant_models(b@)),
    decreases a, 0nat,
{
    if a.len() != b.len() {
        assert(variant_models(a@).len() != variant_models(b@).len());
        return false;
    }
    let mut i: usize = 0;
    while i < a.len()
        invariant
            i <= a@.len(),
            a@.len() == b@.len(),
            forall|j: int| 0 <= j < i ==> #[trigger] variant_models(a@)[j] == variant_models(b@)[j],
        decreases a@.len() - i,
    {
        assert(decreases_to!(*a => a@[i as int]));
        if !same_variant(&a[i], &b[i]) {
            assert(variant_models(a@)[i as int] != variant_models(b@)[i as int]);
            return false;
        }
        i += 1;
    }
    assert(variant_models(a@) =~= variant_models(b@));
    true
}

fn same_opens(a: &Vec<OpenType>, b: &Vec<OpenType>) -> (same: bool)
    ensures
        same == (open_models(a@) == open_models(b@)),
    decreases a, 0nat,
{
    if a.len() != b.len() {
        assert(open_models(a@).len() != open_models(b@).len());
        return false;
    }
    let mut i: usize = 0;
    while i < a.len()
        invariant
            i <= a@.len(),
            a@.len() == b@.len(),
            forall|j: int| 0 <= j < i ==> #[trigger] open_models(a@)[j] == open_models(b@)[j],
        decreases a@.len() - i,
    {
        assert(decreases_to!(*a => a@[i as int]));
        if !same_open(&a[i], &b[i]) {
            assert(open_models(a@)[i as int] != open_models(b@)[i as int]);
            return false;
        }
        i += 1;
    }
    assert(open_models(a@) =~= open_models(b@));
    true
}

fn same_open_fields(a: &Vec<OpenStructField>, b: &Vec<OpenStructField>) -> (same: bool)
    ensures
        same == (open_field_models(a@) == open_field_models(b@)),
    decreases a, 0nat,
{
    if a.len() != b.len() {
        assert(open_field_models(a@).len() != open_field_models(b@).len());
        return false;
    }
    let mut i: usize = 0;
    while i < a.len()
        invariant
            i <= a@.len(),
            a@.len() == b@.len(),
            forall|j: int| 0 <= j < i ==> #[trigger] open_field_models(a@)[j] == open_field_models(b@)[j],
        decreases a@.len() - i,
    {
        assert(decreases_to!(*a => a@[i as int]));
        if !same_open_field(&a[i], &b[i]) {
            assert(open_field_models(a@)[i as int] != open_field_models(b@)[i as int]);
            return false;
        }
        i += 1;
    }
    assert(open_field_models(a@) =~= open_field_models(b@));
    true
}

fn same_open_variants(a: &Vec<OpenVariant>, b: &Vec<OpenVariant>) -> (same: bool)
    ensures
        same == (open_variant_models(a@) == open_variant_models(b@)),
    decreases a, 0nat,
{
    if a.len() != b.len() {
        assert(open_variant_models(a@).len() != open_variant_models(b@).len());
        return false;
    }
    let mut i: usize = 0;
    while i < a.len()
        invariant
            i <= a@.len(),
            a@.len() == b@.len(),
            forall|j: int| 0 <= j < i ==> #[trigger] open_variant_models(a@)[j] == open_variant_models(b@)[j],
        decreases a@.len() - i,
    {
        assert(decreases_to!(*a => a@[i as int]));
        if !same_open_variant(&a[i], &b[i]) {
            assert(open_variant_models(a@)[i as int] != open_variant_models(b@)[i as int]);
            return false;
        }
        i += 1;
    }
    assert(open_variant_models(a@) =~= open_variant_models(b@));
    true
}

fn same_defs(a: &Vec<RecDef>, b: &Vec<RecDef>) -> (same: bool)
    ensures
        same == (def_models(a@) == def_models(b@)),
    decreases a, 0nat,
{
    if a.len() != b.len() {
        assert(def_models(a@).len() != def_models(b@).len());
        return false;
    }
    let mut i: usize = 0;
    while i < a.len()
        invariant
            i <= a@.len(),
            a@.len() == b@.len(),
            forall|j: int| 0 <= j < i ==> #[trigger] def_models(a@)[j] == def_models(b@)[j],
        decreases a@.len() - i,
    {
        assert(decreases_to!(*a => a@[i as int]));
        if !same_def(&a[i], &b[i]) {
            assert(def_models(a@)[i as int] != def_models(b@)[i as int]);
            return false;
        }
        i += 1;
    }
    assert(def_models(a@) =~= def_models(b@));
    true
}

impl PartialEq for Type {
    fn eq(&self, other: &Type) -> (same: bool) {
        same_type(self, other)
    }
}

impl Eq for Type {

}

impl PartialEqSpecImpl for Type {
    open spec fn obeys_eq_spec() -> bool {
        true
    }

    open spec fn eq_spec(&self, other: &Type) -> bool {
        self.model() == other.model()
    }
}

impl PartialEq for RecTypeRef {
    fn eq(&self, other: &RecTypeRef) -> (same: bool) {
        same_reference(self, other)
    }
}

impl Eq for RecTypeRef {

}

impl PartialEqSpecImpl for RecTypeRef {
    open spec fn obeys_eq_spec() -> bool {
        true
    }

    open spec fn eq_spec(&self, other: &RecTypeRef) -> bool {
        self.slot() == other.slot() && self.defs() == other.defs()
    }
}

impl PartialEq for RecGroup {
    fn eq(&self, other: &RecGroup) -> (same: bool) {
        same_group(self, other)
    }
}

impl Eq for RecGroup {

}

impl PartialEqSpecImpl for RecGroup {
    open spec fn obeys_eq_spec() -> bool {
        true
    }

    open spec fn eq_spec(&self, other: &RecGroup) -> bool {
        self.model() == other.model()
    }
}

/// Comparing types is an equivalence, and types that are equal have the same hash: the number that a
/// type feeds to a hasher, whatever the hasher.
pub proof fn equal_types_hash_equal(a: Type, b: Type, c: Type)
    ensures
        PartialEqSpec::eq_spec(&a, &a),
        PartialEqSpec::eq_spec(&a, &b) ==> PartialEqSpec::eq_spec(&b, &a),
        PartialEqSpec::eq_spec(&a, &b) && PartialEqSpec::eq_spec(&b, &c) ==> PartialEqSpec::eq_spec(&a, &c),
        PartialEqSpec::eq_spec(&a, &b) ==> fnv_ty(a.model()) == fnv_ty(b.model()),
{
}

} // verus!
