//! Types, and the mathematical values they stand for.
//!
//! A recursive aggregate is an immutable [`RecGroup`] of definitions, plus an index selecting one
//! of them. The group travels with every value that denotes a recursive type, so a recursive
//! [`Type`] is as self-contained as any other: nothing else is needed to interpret one.
//!
//! The definition bodies of a group are [`OpenType`]s, which may contain back-references to the
//! group. They are not [`Type`]s, so no [`Type`] holds an unbound back-reference.
use std::hash::{Hash, Hasher};
use std::sync::Arc;

use vstd::prelude::*;

use crate::hashing::{fnv_defs, hash_defs};
use crate::names::share;
use crate::unfolding::well_bound;

verus! {

// SMALL TYPES
// ================================================================================================

/// The types that hold no other.
#[derive(Debug, Clone, Copy, PartialEq, Eq, Hash, Structural)]
pub enum Scalar {
    Unknown,
    Never,
    Variadic,
    I1,
    I8,
    U8,
    I16,
    U16,
    I32,
    U32,
    I64,
    U64,
    I128,
    U128,
    U256,
    F64,
    Felt,
}

/// The address space that a pointer points into.
#[derive(Debug, Clone, Copy, PartialEq, Eq, Hash, Structural)]
pub enum AddressSpace {
    Byte,
    Element,
}

/// The calling convention of a function.
#[derive(Debug, Clone, Copy, PartialEq, Eq, Hash, Structural)]
pub enum CallConv {
    Fast,
    C,
    Wasm,
    ComponentModel,
}

/// How an aggregate is laid out in memory. Alignments are powers of two.
#[derive(Debug, Clone, Copy, PartialEq, Eq, Hash, Structural)]
pub enum TypeRepr {
    /// The representation of the C ABI.
    Default,
    /// At least this alignment.
    Align(u16),
    /// At most this alignment, of the aggregate and of each field.
    Packed(u16),
    /// The representation of the one field that is not zero-sized.
    Transparent,
}

/// Which kind of aggregate a recursive definition describes.
#[derive(Debug, Clone, Copy, PartialEq, Eq, PartialOrd, Ord, Hash, Structural)]
pub enum AggregateKind {
    Struct,
    Enum,
}

/// The cached, immutable layout of a recursive definition.
#[derive(Debug, Clone, Copy, PartialEq, Eq, Hash, Structural)]
pub struct TypeLayout {
    pub size_in_bytes: u32,
    pub min_alignment: u16,
    pub is_zst: bool,
}

impl TypeLayout {
    pub fn size_in_bytes(&self) -> (size: usize)
        ensures
            size == self.size_in_bytes,
    {
        self.size_in_bytes as usize
    }

    pub fn min_alignment(&self) -> (align: usize)
        ensures
            align == self.min_alignment,
    {
        self.min_alignment as usize
    }

    pub fn is_zst(&self) -> (zst: bool)
        ensures
            zst == self.is_zst,
    {
        self.is_zst
    }
}

impl AggregateKind {
    /// The word that introduces a definition of this kind.
    pub fn keyword(&self) -> (word: &'static str)
        ensures
            word@ == match self {
                AggregateKind::Struct => "struct"@,
                AggregateKind::Enum => "enum"@,
            },
    {
        match self {
            AggregateKind::Struct => "struct",
            AggregateKind::Enum => "enum",
        }
    }
}

// TYPES
// ================================================================================================

/// A type.
#[derive(Debug)]
pub enum Type {
    Unknown,
    Never,
    Variadic,
    I1,
    I8,
    U8,
    I16,
    U16,
    I32,
    U32,
    I64,
    U64,
    I128,
    U128,
    U256,
    F64,
    Felt,
    Ptr(Arc<PointerType>),
    Struct(StructRef),
    Enum(EnumRef),
    Array(Arc<ArrayType>),
    List(Arc<Type>),
    Function(Arc<FunctionType>),
}

/// A pointer.
#[derive(Debug, Hash)]
pub struct PointerType {
    pub addrspace: AddressSpace,
    pub pointee: Type,
}

/// An array of a fixed length.
#[derive(Debug, Hash)]
pub struct ArrayType {
    pub ty: Type,
    pub len: usize,
}

/// The signature of a function.
#[derive(Debug, Hash)]
pub struct FunctionType {
    pub abi: CallConv,
    pub params: Vec<Type>,
    pub results: Vec<Type>,
}

/// A struct, given by its fields or by a recursive definition.
#[derive(Debug, Hash)]
pub enum StructRef {
    Plain(Arc<StructType>),
    Rec(RecTypeRef),
}

/// An enum, given by its variants or by a recursive definition.
#[derive(Debug, Hash)]
pub enum EnumRef {
    Plain(Arc<EnumType>),
    Rec(RecTypeRef),
}

/// A struct whose layout has been computed.
#[derive(Debug, Hash)]
pub struct StructType {
    pub name: Option<Arc<str>>,
    pub repr: TypeRepr,
    pub size: u32,
    pub fields: Vec<StructField>,
}

/// A field of a [`StructType`].
#[derive(Debug, Hash)]
pub struct StructField {
    pub name: Option<Arc<str>>,
    pub index: u8,
    pub align: u16,
    pub offset: u32,
    pub ty: Type,
}

/// An enum whose layout has been computed.
#[derive(Debug, Hash)]
pub struct EnumType {
    pub name: Arc<str>,
    pub discriminant: Type,
    pub variants: Vec<Variant>,
    pub offsets: Vec<u32>,
    pub size: u32,
    pub align: u32,
}

/// A variant of an [`EnumType`].
#[derive(Debug, Hash)]
pub struct Variant {
    pub name: Arc<str>,
    pub value: Option<Type>,
    pub discriminant_value: Option<u128>,
}

/// A self-contained reference to one definition of a recursive group.
#[derive(Debug)]
pub struct RecTypeRef {
    group: Arc<RecGroup>,
    index: u16,
}

/// An immutable, canonically ordered set of mutually recursive aggregate definitions.
///
/// A group is exactly one strongly connected component of the type reference graph, with its
/// definitions sorted by name. Two independently constructed but structurally identical recursive
/// types have identical groups, and therefore compare and hash equal.
#[derive(Debug)]
pub struct RecGroup {
    defs: Vec<RecDef>,
    /// Structural hash of `defs`, computed once at construction.
    hash: u64,
}

/// Feeds a number of 16 bits to a hasher.
///
/// This is `Hasher::write_u16`, of which nothing is claimed.
#[verifier::external_body]
fn feed_u16<H: Hasher>(state: &mut H, value: u16) {
    state.write_u16(value)
}

/// Feeds a number of 64 bits to a hasher.
///
/// This is `Hasher::write_u64`, of which nothing is claimed.
#[verifier::external_body]
pub(crate) fn feed_u64<H: Hasher>(state: &mut H, value: u64) {
    state.write_u64(value)
}

impl Hash for RecGroup {
    /// Feeds the cached hash alone, however many definitions there are.
    fn hash<H: Hasher>(&self, state: &mut H) {
        feed_u64(state, self.hash)
    }
}

impl Hash for RecTypeRef {
    /// Feeds the index, and the cached hash of the group.
    fn hash<H: Hasher>(&self, state: &mut H) {
        feed_u16(state, self.index);
        feed_u64(state, self.group.hash)
    }
}

/// A single definition within a [`RecGroup`].
#[derive(Debug, Hash)]
pub struct RecDef {
    pub name: Arc<str>,
    pub kind: AggregateKind,
    pub body: OpenAggregate,
    pub layout: TypeLayout,
}

/// A definition body which may contain back-references.
#[derive(Debug, Hash)]
pub enum OpenAggregate {
    Struct(OpenStructType),
    Enum(OpenEnumType),
}

/// A type expression that may contain back-references to the enclosing group.
///
/// An open variant is used only where an [`OpenType::Var`] occurs beneath it; anything closed is
/// an [`OpenType::Closed`].
#[derive(Debug, Hash)]
pub enum OpenType {
    Closed(Type),
    /// A back-reference to a definition of the enclosing group.
    Var(u16),
    Ptr(AddressSpace, Box<OpenType>),
    Array(Box<OpenType>, usize),
    List(Box<OpenType>),
    Function(Box<OpenFunctionType>),
    Struct(Box<OpenStructType>),
    Enum(Box<OpenEnumType>),
}

#[derive(Debug, Hash)]
pub struct OpenFunctionType {
    pub abi: CallConv,
    pub params: Vec<OpenType>,
    pub results: Vec<OpenType>,
}

#[derive(Debug, Hash)]
pub struct OpenStructType {
    pub name: Option<Arc<str>>,
    pub repr: TypeRepr,
    pub size: u32,
    pub fields: Vec<OpenStructField>,
}

#[derive(Debug, Hash)]
pub struct OpenStructField {
    pub name: Option<Arc<str>>,
    pub index: u8,
    pub align: u16,
    pub offset: u32,
    pub ty: OpenType,
}

#[derive(Debug, Hash)]
pub struct OpenEnumType {
    pub name: Arc<str>,
    pub discriminant: Type,
    pub variants: Vec<OpenVariant>,
    pub offsets: Vec<u32>,
    pub size: u32,
    pub align: u32,
}

#[derive(Debug, Hash)]
pub struct OpenVariant {
    pub name: Arc<str>,
    pub value: Option<OpenType>,
    pub discriminant_value: Option<u128>,
}

// MODELS
// ================================================================================================

/// What a [`Type`] stands for.
#[verifier::ext_equal]
pub enum Ty {
    Scalar(Scalar),
    Ptr(AddressSpace, Box<Ty>),
    Array(Box<Ty>, nat),
    List(Box<Ty>),
    Function(CallConv, Seq<Ty>, Seq<Ty>),
    Struct(StructTy),
    Enum(EnumTy),
    /// Definition of a group of recursive definitions, a struct.
    RecStruct(Seq<DefTy>, nat),
    /// Definition of a group of recursive definitions, an enum.
    RecEnum(Seq<DefTy>, nat),
}

/// What a [`StructType`] stands for.
#[verifier::ext_equal]
pub struct StructTy {
    pub name: Option<Seq<char>>,
    pub repr: TypeRepr,
    pub size: nat,
    pub fields: Seq<FieldTy>,
}

/// What a [`StructField`] stands for.
#[verifier::ext_equal]
pub struct FieldTy {
    pub name: Option<Seq<char>>,
    pub index: nat,
    pub align: nat,
    pub offset: nat,
    pub ty: Ty,
}

/// What an [`EnumType`] stands for.
#[verifier::ext_equal]
pub struct EnumTy {
    pub name: Seq<char>,
    pub discriminant: Box<Ty>,
    pub variants: Seq<VariantTy>,
    pub offsets: Seq<nat>,
    pub size: nat,
    pub align: nat,
}

/// What a [`Variant`] stands for.
#[verifier::ext_equal]
pub struct VariantTy {
    pub name: Seq<char>,
    pub value: Option<Ty>,
    pub discriminant_value: Option<u128>,
}

/// What a [`RecDef`] stands for.
#[verifier::ext_equal]
pub struct DefTy {
    pub name: Seq<char>,
    pub kind: AggregateKind,
    pub body: Open,
    pub layout: TypeLayout,
}

/// What an [`OpenType`] stands for.
#[verifier::ext_equal]
pub enum Open {
    Closed(Ty),
    Var(nat),
    Ptr(AddressSpace, Box<Open>),
    Array(Box<Open>, nat),
    List(Box<Open>),
    Function(CallConv, Seq<Open>, Seq<Open>),
    Struct(OpenStruct),
    Enum(OpenEnum),
}

/// What an [`OpenStructType`] stands for.
#[verifier::ext_equal]
pub struct OpenStruct {
    pub name: Option<Seq<char>>,
    pub repr: TypeRepr,
    pub size: nat,
    pub fields: Seq<OpenField>,
}

/// What an [`OpenStructField`] stands for.
#[verifier::ext_equal]
pub struct OpenField {
    pub name: Option<Seq<char>>,
    pub index: nat,
    pub align: nat,
    pub offset: nat,
    pub ty: Open,
}

/// What an [`OpenEnumType`] stands for.
#[verifier::ext_equal]
pub struct OpenEnum {
    pub name: Seq<char>,
    pub discriminant: Box<Ty>,
    pub variants: Seq<OpenVariantTy>,
    pub offsets: Seq<nat>,
    pub size: nat,
    pub align: nat,
}

/// What an [`OpenVariant`] stands for.
#[verifier::ext_equal]
pub struct OpenVariantTy {
    pub name: Seq<char>,
    pub value: Option<Open>,
    pub discriminant_value: Option<u128>,
}

/// The text of an optional name.
pub open spec fn optional_text(name: Option<Arc<str>>) -> Option<Seq<char>> {
    match name {
        Some(name) => Some((*name)@),
        None => None,
    }
}

/// The numbers that a list of offsets holds.
pub open spec fn numbers(offsets: Seq<u32>) -> Seq<nat> {
    offsets.map_values(|offset: u32| offset as nat)
}

/// What a list of types stands for.
pub open spec fn models(tys: Seq<Type>) -> Seq<Ty> {
    Seq::new(tys.len(), |i: int| tys[i].model())
}

/// What a list of fields stands for.
pub open spec fn field_models(fields: Seq<StructField>) -> Seq<FieldTy> {
    Seq::new(fields.len(), |i: int| fields[i].model())
}

/// What a list of variants stands for.
pub open spec fn variant_models(variants: Seq<Variant>) -> Seq<VariantTy> {
    Seq::new(variants.len(), |i: int| variants[i].model())
}

/// What a list of open types stands for.
pub open spec fn open_models(opens: Seq<OpenType>) -> Seq<Open> {
    Seq::new(opens.len(), |i: int| opens[i].model())
}

/// What a list of open fields stands for.
pub open spec fn open_field_models(fields: Seq<OpenStructField>) -> Seq<OpenField> {
    Seq::new(fields.len(), |i: int| fields[i].model())
}

/// What a list of open variants stands for.
pub open spec fn open_variant_models(variants: Seq<OpenVariant>) -> Seq<OpenVariantTy> {
    Seq::new(variants.len(), |i: int| variants[i].model())
}

/// What a list of definitions stands for.
pub open spec fn def_models(defs: Seq<RecDef>) -> Seq<DefTy> {
    Seq::new(defs.len(), |i: int| defs[i].model())
}

impl Type {
    pub open spec fn model(self) -> Ty
        decreases self,
    {
        match self {
            Type::Unknown => Ty::Scalar(Scalar::Unknown),
            Type::Never => Ty::Scalar(Scalar::Never),
            Type::Variadic => Ty::Scalar(Scalar::Variadic),
            Type::I1 => Ty::Scalar(Scalar::I1),
            Type::I8 => Ty::Scalar(Scalar::I8),
            Type::U8 => Ty::Scalar(Scalar::U8),
            Type::I16 => Ty::Scalar(Scalar::I16),
            Type::U16 => Ty::Scalar(Scalar::U16),
            Type::I32 => Ty::Scalar(Scalar::I32),
            Type::U32 => Ty::Scalar(Scalar::U32),
            Type::I64 => Ty::Scalar(Scalar::I64),
            Type::U64 => Ty::Scalar(Scalar::U64),
            Type::I128 => Ty::Scalar(Scalar::I128),
            Type::U128 => Ty::Scalar(Scalar::U128),
            Type::U256 => Ty::Scalar(Scalar::U256),
            Type::F64 => Ty::Scalar(Scalar::F64),
            Type::Felt => Ty::Scalar(Scalar::Felt),
            Type::Ptr(pointer) => Ty::Ptr(pointer.addrspace, Box::new(pointer.pointee.model())),
            Type::Struct(StructRef::Plain(body)) => Ty::Struct(body.model()),
            Type::Struct(StructRef::Rec(reference)) => Ty::RecStruct(reference.defs(), reference.slot()),
            Type::Enum(EnumRef::Plain(body)) => Ty::Enum(body.model()),
            Type::Enum(EnumRef::Rec(reference)) => Ty::RecEnum(reference.defs(), reference.slot()),
            Type::Array(array) => Ty::Array(Box::new(array.ty.model()), array.len as nat),
            Type::List(element) => Ty::List(Box::new(element.model())),
            Type::Function(function) => Ty::Function(
                function.abi,
                Seq::new(
                    function.params@.len(),
                    |i: int|
                        if 0 <= i < function.params@.len() {
                            function.params@[i].model()
                        } else {
                            arbitrary()
                        },
                ),
                Seq::new(
                    function.results@.len(),
                    |i: int|
                        if 0 <= i < function.results@.len() {
                            function.results@[i].model()
                        } else {
                            arbitrary()
                        },
                ),
            ),
        }
    }
}

impl StructType {
    pub open spec fn model(self) -> StructTy
        decreases self,
    {
        StructTy {
            name: optional_text(self.name),
            repr: self.repr,
            size: self.size as nat,
            fields: Seq::new(
                self.fields@.len(),
                |i: int|
                    if 0 <= i < self.fields@.len() {
                        self.fields@[i].model()
                    } else {
                        arbitrary()
                    },
            ),
        }
    }
}

impl StructField {
    pub open spec fn model(self) -> FieldTy
        decreases self,
    {
        FieldTy {
            name: optional_text(self.name),
            index: self.index as nat,
            align: self.align as nat,
            offset: self.offset as nat,
            ty: self.ty.model(),
        }
    }
}

impl EnumType {
    pub open spec fn model(self) -> EnumTy
        decreases self,
    {
        EnumTy {
            name: (*self.name)@,
            discriminant: Box::new(self.discriminant.model()),
            variants: Seq::new(
                self.variants@.len(),
                |i: int|
                    if 0 <= i < self.variants@.len() {
                        self.variants@[i].model()
                    } else {
                        arbitrary()
                    },
            ),
            offsets: numbers(self.offsets@),
            size: self.size as nat,
            align: self.align as nat,
        }
    }
}

impl Variant {
    pub open spec fn model(self) -> VariantTy
        decreases self,
    {
        VariantTy {
            name: (*self.name)@,
            value: match self.value {
                Some(value) => Some(value.model()),
                None => None,
            },
            discriminant_value: self.discriminant_value,
        }
    }
}

impl RecTypeRef {
    /// The definitions of the group.
    pub closed spec fn defs(self) -> Seq<DefTy>
        decreases self,
    {
        self.group.model()
    }

    /// The number of the definition selected.
    pub closed spec fn slot(self) -> nat {
        self.index as nat
    }

    #[verifier::type_invariant]
    spec fn selects(self) -> bool {
        self.index < self.group.defs@.len()
    }
}

impl RecGroup {
    /// The definitions.
    pub closed spec fn model(&self) -> Seq<DefTy>
        decreases self,
    {
        Seq::new(
            self.defs@.len(),
            |i: int|
                if 0 <= i < self.defs@.len() {
                    self.defs@[i].model()
                } else {
                    arbitrary()
                },
        )
    }

    #[verifier::type_invariant]
    spec fn wf(self) -> bool {
        &&& self.hash == fnv_defs(self.model())
        &&& well_bound(self.model())
    }
}

impl RecDef {
    pub open spec fn model(self) -> DefTy
        decreases self,
    {
        DefTy { name: (*self.name)@, kind: self.kind, body: self.body.model(), layout: self.layout }
    }
}

impl OpenAggregate {
    pub open spec fn model(self) -> Open
        decreases self,
    {
        match self {
            OpenAggregate::Struct(body) => Open::Struct(body.model()),
            OpenAggregate::Enum(body) => Open::Enum(body.model()),
        }
    }
}

impl OpenType {
    pub open spec fn model(self) -> Open
        decreases self,
    {
        match self {
            OpenType::Closed(ty) => Open::Closed(ty.model()),
            OpenType::Var(index) => Open::Var(index as nat),
            OpenType::Ptr(addrspace, pointee) => Open::Ptr(addrspace, Box::new(pointee.model())),
            OpenType::Array(element, len) => Open::Array(Box::new(element.model()), len as nat),
            OpenType::List(element) => Open::List(Box::new(element.model())),
            OpenType::Function(function) => Open::Function(
                function.abi,
                Seq::new(
                    function.params@.len(),
                    |i: int|
                        if 0 <= i < function.params@.len() {
                            function.params@[i].model()
                        } else {
                            arbitrary()
                        },
                ),
                Seq::new(
                    function.results@.len(),
                    |i: int|
                        if 0 <= i < function.results@.len() {
                            function.results@[i].model()
                        } else {
                            arbitrary()
                        },
                ),
            ),
            OpenType::Struct(body) => Open::Struct(body.model()),
            OpenType::Enum(body) => Open::Enum(body.model()),
        }
    }
}

impl OpenStructType {
    pub open spec fn model(self) -> OpenStruct
        decreases self,
    {
        OpenStruct {
            name: optional_text(self.name),
            repr: self.repr,
            size: self.size as nat,
            fields: Seq::new(
                self.fields@.len(),
                |i: int|
                    if 0 <= i < self.fields@.len() {
                        self.fields@[i].model()
                    } else {
                        arbitrary()
                    },
            ),
        }
    }
}

impl OpenStructField {
    pub open spec fn model(self) -> OpenField
        decreases self,
    {
        OpenField {
            name: optional_text(self.name),
            index: self.index as nat,
            align: self.align as nat,
            offset: self.offset as nat,
            ty: self.ty.model(),
        }
    }
}

impl OpenEnumType {
    pub open spec fn model(self) -> OpenEnum
        decreases self,
    {
        OpenEnum {
            name: (*self.name)@,
            discriminant: Box::new(self.discriminant.model()),
            variants: Seq::new(
                self.variants@.len(),
                |i: int|
                    if 0 <= i < self.variants@.len() {
                        self.variants@[i].model()
                    } else {
                        arbitrary()
                    },
            ),
            offsets: numbers(self.offsets@),
            size: self.size as nat,
            align: self.align as nat,
        }
    }
}

impl OpenVariant {
    pub open spec fn model(self) -> OpenVariantTy
        decreases self,
    {
        OpenVariantTy {
            name: (*self.name)@,
            value: match self.value {
                Some(value) => Some(value.model()),
                None => None,
            },
            discriminant_value: self.discriminant_value,
        }
    }
}

// COPIES
// ================================================================================================

impl Clone for RecTypeRef {
    fn clone(&self) -> (copy: RecTypeRef)
        ensures
            copy == *self,
    {
        proof {
            use_type_invariant(self);
        }
        RecTypeRef { group: share(&self.group), index: self.index }
    }
}

impl Clone for StructRef {
    fn clone(&self) -> (copy: StructRef)
        ensures
            copy == *self,
    {
        match self {
            StructRef::Plain(body) => StructRef::Plain(share(body)),
            StructRef::Rec(reference) => StructRef::Rec(reference.clone()),
        }
    }
}

impl Clone for EnumRef {
    fn clone(&self) -> (copy: EnumRef)
        ensures
            copy == *self,
    {
        match self {
            EnumRef::Plain(body) => EnumRef::Plain(share(body)),
            EnumRef::Rec(reference) => EnumRef::Rec(reference.clone()),
        }
    }
}

impl Clone for Type {
    fn clone(&self) -> (copy: Type)
        ensures
            copy == *self,
    {
        match self {
            Type::Unknown => Type::Unknown,
            Type::Never => Type::Never,
            Type::Variadic => Type::Variadic,
            Type::I1 => Type::I1,
            Type::I8 => Type::I8,
            Type::U8 => Type::U8,
            Type::I16 => Type::I16,
            Type::U16 => Type::U16,
            Type::I32 => Type::I32,
            Type::U32 => Type::U32,
            Type::I64 => Type::I64,
            Type::U64 => Type::U64,
            Type::I128 => Type::I128,
            Type::U128 => Type::U128,
            Type::U256 => Type::U256,
            Type::F64 => Type::F64,
            Type::Felt => Type::Felt,
            Type::Ptr(pointer) => Type::Ptr(share(pointer)),
            Type::Struct(reference) => Type::Struct(reference.clone()),
            Type::Enum(reference) => Type::Enum(reference.clone()),
            Type::Array(array) => Type::Array(share(array)),
            Type::List(element) => Type::List(share(element)),
            Type::Function(function) => Type::Function(share(function)),
        }
    }
}

/// Another pointer to an optional name.
pub(crate) fn share_name(name: &Option<Arc<str>>) -> (shared: Option<Arc<str>>)
    ensures
        shared == *name,
{
    match name {
        Some(name) => Some(share(name)),
        None => None,
    }
}

// ACCESS
// ================================================================================================

impl Type {
    /// The scalar that this type is, if it is one.
    pub fn scalar(&self) -> (scalar: Option<Scalar>)
        ensures
            match scalar {
                Some(scalar) => self.model() == Ty::Scalar(scalar),
                None => !(self.model() is Scalar),
            },
    {
        match self {
            Type::Unknown => Some(Scalar::Unknown),
            Type::Never => Some(Scalar::Never),
            Type::Variadic => Some(Scalar::Variadic),
            Type::I1 => Some(Scalar::I1),
            Type::I8 => Some(Scalar::I8),
            Type::U8 => Some(Scalar::U8),
            Type::I16 => Some(Scalar::I16),
            Type::U16 => Some(Scalar::U16),
            Type::I32 => Some(Scalar::I32),
            Type::U32 => Some(Scalar::U32),
            Type::I64 => Some(Scalar::I64),
            Type::U64 => Some(Scalar::U64),
            Type::I128 => Some(Scalar::I128),
            Type::U128 => Some(Scalar::U128),
            Type::U256 => Some(Scalar::U256),
            Type::F64 => Some(Scalar::F64),
            Type::Felt => Some(Scalar::Felt),
            _ => None,
        }
    }
}

impl Type {
    /// Whether this is a pointer.
    pub fn is_pointer(&self) -> (result: bool)
        ensures
            result == (self.model() is Ptr),
    {
        matches!(self, Type::Ptr(_))
    }
}

impl PointerType {
    /// A byte-addressable pointer to `pointee`.
    pub fn new(pointee: Type) -> (pointer: PointerType)
        ensures
            pointer == (PointerType { addrspace: AddressSpace::Byte, pointee }),
    {
        PointerType { addrspace: AddressSpace::Byte, pointee }
    }

    /// The type pointed to.
    pub fn pointee(&self) -> (pointee: &Type)
        ensures
            *pointee == self.pointee,
    {
        &self.pointee
    }
}

impl StructType {
    /// The name of this struct, if it has one.
    pub fn name(&self) -> (name: Option<Arc<str>>)
        ensures
            optional_text(name) == self.model().name,
    {
        share_name(&self.name)
    }

    /// The fields of this struct, in the order specified.
    pub fn fields(&self) -> (fields: &Vec<StructField>)
        ensures
            field_models(fields@) == self.model().fields,
    {
        assert(field_models(self.fields@) =~= self.model().fields);
        &self.fields
    }
}

impl RecTypeRef {
    /// The definition selected.
    pub(crate) fn def(&self) -> (def: &RecDef)
        ensures
            self.slot() < self.defs().len(),
            def.model() == self.defs()[self.slot() as int],
            well_bound(self.defs()),
    {
        proof {
            use_type_invariant(self);
        }
        let defs = self.group.definitions();
        let index: usize = self.index as usize;
        assert(def_models(defs@)[index as int] == defs@[index as int].model());
        &defs[index]
    }

    /// The name of the definition this reference selects.
    pub fn name(&self) -> (name: &Arc<str>)
        ensures
            self.slot() < self.defs().len(),
            (**name)@ == self.defs()[self.slot() as int].name,
    {
        &self.def().name
    }

    /// Whether this reference selects a struct or an enum definition.
    pub fn kind(&self) -> (kind: AggregateKind)
        ensures
            self.slot() < self.defs().len(),
            kind == self.defs()[self.slot() as int].kind,
    {
        self.def().kind
    }

    /// The cached layout of the selected definition.
    pub fn layout(&self) -> (layout: TypeLayout)
        ensures
            self.slot() < self.defs().len(),
            layout == self.defs()[self.slot() as int].layout,
    {
        self.def().layout
    }

    /// The number of definitions in this reference's group.
    ///
    /// A group larger than one definition is mutually recursive.
    pub fn group_len(&self) -> (len: usize)
        ensures
            len == self.defs().len(),
    {
        self.group.definitions().len()
    }

    /// The representation of the selected struct definition, without unfolding it.
    pub fn struct_repr(&self) -> (repr: TypeRepr)
        ensures
            self.slot() < self.defs().len(),
            repr == match self.defs()[self.slot() as int].body {
                Open::Struct(body) => body.repr,
                _ => TypeRepr::Default,
            },
    {
        match &self.def().body {
            OpenAggregate::Struct(body) => body.repr,
            OpenAggregate::Enum(_) => TypeRepr::Default,
        }
    }

    /// The number of the definition selected.
    pub(crate) fn index(&self) -> (index: u16)
        ensures
            index == self.slot(),
    {
        self.index
    }

    /// The group.
    pub(crate) fn group(&self) -> (group: &Arc<RecGroup>)
        ensures
            group.model() == self.defs(),
            decreases_to!(*self => **group),
    {
        &self.group
    }

    /// The hash of the group.
    pub(crate) fn group_hash(&self) -> (hash: u64)
        ensures
            hash == fnv_defs(self.defs()),
    {
        self.group().hash_value()
    }
}

impl RecGroup {
    /// A group of definitions, with their hash.
    pub(crate) fn new(defs: Vec<RecDef>) -> (group: RecGroup)
        requires
            well_bound(def_models(defs@)),
        ensures
            group.model() == def_models(defs@),
    {
        let hash: u64 = hash_defs(&defs);
        proof {
            let held = RecGroup { defs, hash };
            assert(held.model() =~= def_models(defs@));
        }
        RecGroup { defs, hash }
    }

    /// The structural hash of the definitions, which was computed with the group.
    pub(crate) fn hash_value(&self) -> (hash: u64)
        ensures
            hash == fnv_defs(self.model()),
    {
        proof {
            use_type_invariant(self);
        }
        self.hash
    }

    /// The definitions.
    pub(crate) fn definitions(&self) -> (defs: &Vec<RecDef>)
        ensures
            def_models(defs@) == self.model(),
            well_bound(self.model()),
            decreases_to!(*self => *defs),
    {
        proof {
            use_type_invariant(self);
        }
        assert(def_models(self.defs@) =~= self.model());
        &self.defs
    }
}

/// The completed [`Type`] denoting definition `index` of `group`.
pub(crate) fn rec_type(group: Arc<RecGroup>, index: u16) -> (ty: Type)
    requires
        index < group.model().len(),
    ensures
        ty.model() == rec_ty(group.model(), index as nat),
{
    let reference = RecTypeRef { group, index };
    match reference.kind() {
        AggregateKind::Struct => Type::Struct(StructRef::Rec(reference)),
        AggregateKind::Enum => Type::Enum(EnumRef::Rec(reference)),
    }
}

/// What denotes definition `slot` of a group.
pub open spec fn rec_ty(defs: Seq<DefTy>, slot: nat) -> Ty {
    match defs[slot as int].kind {
        AggregateKind::Struct => Ty::RecStruct(defs, slot),
        AggregateKind::Enum => Ty::RecEnum(defs, slot),
    }
}

} // verus!
