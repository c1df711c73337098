//! Resolution of constants and types by the linker.
//!
//! Resolving one item may need others, which are evaluated elsewhere: resolution alternates between
//! the decisions made here and that evaluation. Each resolution is begun and finished, and the
//! items in between are marked, so that a cycle of items is found rather than followed.
use std::collections::BTreeMap;
use std::sync::Arc;

use vstd::prelude::*;

use crate::aggregates::{make_enum, InvalidDefinition};
use crate::names::share;
use crate::types::{variant_models, EnumRef, EnumType, Ty, Type, Variant, VariantTy};

verus! {

// ITEMS
// ================================================================================================

/// An item of a module of the program.
#[derive(Debug, Clone, Copy, PartialEq, Eq, Structural)]
pub struct GlobalItemIndex {
    pub module: u16,
    pub index: u16,
}

impl GlobalItemIndex {
    /// The number of the item among all those there could be.
    pub open spec fn number(self) -> u32 {
        (self.module * 0x1_0000 + self.index) as u32
    }

    /// The number of the item among all those there could be.
    pub fn key(&self) -> (key: u32)
        ensures
            key == self.number(),
    {
        self.module as u32 * 0x1_0000 + self.index as u32
    }

    /// No two items have the same number.
    pub proof fn numbers_differ(a: GlobalItemIndex, b: GlobalItemIndex)
        requires
            a.number() == b.number(),
        ensures
            a == b,
    {
    }
}

/// A range of bytes of a source file.
#[derive(Debug, Clone, Copy, PartialEq, Eq, Structural)]
pub struct SourceSpan {
    pub source_id: u32,
    pub start: u32,
    pub end: u32,
}

/// The value of a constant.
#[derive(Debug, Clone, PartialEq, Eq)]
pub enum ConstantValue {
    /// An integer, by its canonical representative.
    Int(SourceSpan, u64),
    /// A string.
    String(SourceSpan, String),
    /// Four field elements.
    Word(SourceSpan, u64, u64, u64, u64),
    /// A string to be hashed.
    Hash(SourceSpan, String),
}

impl ConstantValue {
    /// Where the constant is defined.
    pub open spec fn place(&self) -> SourceSpan {
        match self {
            ConstantValue::Int(span, _) => *span,
            ConstantValue::String(span, _) => *span,
            ConstantValue::Word(span, _, _, _, _) => *span,
            ConstantValue::Hash(span, _) => *span,
        }
    }

    /// Where the constant is defined.
    pub fn span(&self) -> (span: SourceSpan)
        ensures
            span == self.place(),
    {
        match self {
            ConstantValue::Int(span, _) => *span,
            ConstantValue::String(span, _) => *span,
            ConstantValue::Word(span, _, _, _, _) => *span,
            ConstantValue::Hash(span, _) => *span,
        }
    }
}

/// A variant of an enum declaration: its name, and whether a payload type is declared.
#[derive(Debug)]
pub struct VariantDeclaration {
    pub name: Arc<str>,
    pub has_payload: bool,
}

/// An enum declaration.
#[derive(Debug)]
pub struct EnumDeclaration {
    pub name: Arc<str>,
    pub discriminant: Type,
    pub variants: Vec<VariantDeclaration>,
}

/// What the linker knows of an item.
#[derive(Debug)]
pub enum SymbolItem {
    /// A constant of a compiled module.
    CompiledConstant,
    /// A type of a compiled module.
    CompiledType(Type),
    /// Another item of a compiled module.
    CompiledOther,
    /// A constant whose expression stands at a place.
    Constant(SourceSpan),
    /// An enum declaration.
    Enum(EnumDeclaration),
    /// A type alias.
    Alias,
    /// A procedure.
    Procedure,
}

/// Why an item cannot be resolved.
#[derive(Debug, Clone, PartialEq, Eq)]
pub enum LinkerError {
    /// A reference to a constant names something else.
    InvalidConstantRef { span: SourceSpan },
    /// A reference to a type names something else.
    InvalidTypeRef { span: SourceSpan },
    /// Evaluating a constant needs its own value.
    EvalCycle { start: SourceSpan, detected: SourceSpan },
    /// Resolving a type needs the type itself.
    RecursiveType { span: SourceSpan, cycle_span: SourceSpan },
    /// The discriminant of an enum variant is no integer.
    InvalidDiscriminant { span: SourceSpan },
    /// An enum declaration describes no enum.
    InvalidEnumType { span: SourceSpan, reason: InvalidDefinition },
}

// THE CACHE
// ================================================================================================

/// Resolutions of types and constants to values that contain no references to other symbols, and
/// the items that are being resolved.
#[derive(Debug)]
pub struct ResolverCache {
    pub types: BTreeMap<u32, Type>,
    pub constants: BTreeMap<u32, ConstantValue>,
    /// Constants currently being evaluated, and where the expression of each stands.
    pub evaluating_constants: BTreeMap<u32, SourceSpan>,
    /// Type declarations currently being resolved, and where resolution of each began.
    pub evaluating_types: BTreeMap<u32, SourceSpan>,
}

/// What a [`ResolverCache`] stands for.
#[verifier::ext_equal]
pub struct CacheTy {
    pub types: Map<u32, Type>,
    pub constants: Map<u32, ConstantValue>,
    pub evaluating_constants: Map<u32, SourceSpan>,
    pub evaluating_types: Map<u32, SourceSpan>,
}

impl View for ResolverCache {
    type V = CacheTy;

    open spec fn view(&self) -> CacheTy {
        CacheTy {
            types: self.types@,
            constants: self.constants@,
            evaluating_constants: self.evaluating_constants@,
            evaluating_types: self.evaluating_types@,
        }
    }
}

impl Default for ResolverCache {
    /// A cache of nothing.
    fn default() -> (cache: ResolverCache)
        ensures
            cache@ == (CacheTy {
                types: Map::empty(),
                constants: Map::empty(),
                evaluating_constants: Map::empty(),
                evaluating_types: Map::empty(),
            }),
    {
        ResolverCache {
            types: BTreeMap::new(),
            constants: BTreeMap::new(),
            evaluating_constants: BTreeMap::new(),
            evaluating_types: BTreeMap::new(),
        }
    }
}

// CONSTANTS
// ================================================================================================

/// How to go on with a constant.
#[derive(Debug, Clone, Copy, PartialEq, Eq, Structural)]
pub enum ConstantStep {
    /// Its value is known.
    Ready,
    /// Its expression is to be evaluated, and the evaluation finished.
    Evaluate,
}

/// What beginning to materialize a constant gives, and what it makes of the cache.
pub open spec fn begun_constant(
    cache: CacheTy,
    gid: GlobalItemIndex,
    span: SourceSpan,
    item: SymbolItem,
) -> (Result<ConstantStep, LinkerError>, CacheTy) {
    let key = gid.number();
    if cache.constants.contains_key(key) {
        (Ok(ConstantStep::Ready), cache)
    } else {
        match item {
            SymbolItem::CompiledConstant => (Ok(ConstantStep::Ready), cache),
            SymbolItem::Constant(expression) => if cache.evaluating_constants.contains_key(key) {
                (
                    Err(LinkerError::EvalCycle { start: cache.evaluating_constants[key], detected: span }),
                    cache,
                )
            } else {
                (
                    Ok(ConstantStep::Evaluate),
                    CacheTy { evaluating_constants: cache.evaluating_constants.insert(key, expression), ..cache },
                )
            },
            _ => (Err(LinkerError::InvalidConstantRef { span }), cache),
        }
    }
}

/// What finishing the evaluation of a constant makes of the cache.
pub open spec fn finished_constant<E>(
    cache: CacheTy,
    gid: GlobalItemIndex,
    value: Result<ConstantValue, E>,
) -> CacheTy {
    let unmarked = CacheTy { evaluating_constants: cache.evaluating_constants.remove(gid.number()), ..cache };
    match value {
        Ok(value) => CacheTy { constants: cache.constants.insert(gid.number(), value), ..unmarked },
        Err(_) => unmarked,
    }
}

/// Where the value of a constant is.
#[derive(Debug)]
pub enum ConstantSource<'a> {
    /// It has been evaluated.
    Cached(&'a ConstantValue),
    /// It stands in the compiled module.
    Compiled,
}

impl ResolverCache {
    /// Begins to materialize a constant: tells whether its value is known or its expression is to be
    /// evaluated, in which case it is marked.
    pub fn materialize_constant_by_gid(&mut self, gid: GlobalItemIndex, span: SourceSpan, item: &SymbolItem) -> (result:
        Result<ConstantStep, LinkerError>)
        ensures
            (result, final(self)@) == begun_constant(old(self)@, gid, span, *item),
    {
        broadcast use vstd::laws_cmp::group_laws_cmp;
        broadcast use vstd::std_specs::btree::group_btree_axioms;

        let ghost before = self@;
        let key: u32 = gid.key();
        if self.constants.contains_key(&key) {
            return Ok(ConstantStep::Ready);
        }
        match item {
            SymbolItem::CompiledConstant => Ok(ConstantStep::Ready),
            SymbolItem::Constant(expression) => {
                if let Some(start) = self.evaluating_constants.get(&key) {
                    return Err(LinkerError::EvalCycle { start: *start, detected: span });
                }
                self.evaluating_constants.insert(key, *expression);
                assert(self@ =~= begun_constant(before, gid, span, *item).1);
                Ok(ConstantStep::Evaluate)
            },
            _ => Err(LinkerError::InvalidConstantRef { span }),
        }
    }

    /// Finishes the evaluation of a constant, whose mark is removed. A value is kept.
    pub fn finish_constant<E>(&mut self, gid: GlobalItemIndex, value: Result<ConstantValue, E>) -> (result: Result<(), E>)
        ensures
            final(self)@ == finished_constant(old(self)@, gid, value),
            match (result, value) {
                (Ok(_), Ok(_)) => true,
                (Err(error), Err(expected)) => error == expected,
                _ => false,
            },
    {
        broadcast use vstd::laws_cmp::group_laws_cmp;
        broadcast use vstd::std_specs::btree::group_btree_axioms;

        let ghost before = self@;
        let key: u32 = gid.key();
        self.evaluating_constants.remove(&key);
        match value {
            Err(error) => {
                assert(self@ =~= finished_constant::<E>(before, gid, Err(error)));
                Err(error)
            },
            Ok(value) => {
                self.constants.insert(key, value);
                assert(self@ =~= finished_constant::<E>(before, gid, Ok(value)));
                Ok(())
            },
        }
    }

    /// Where the value of a materialized constant is.
    pub fn get_constant_by_gid(&self, gid: GlobalItemIndex, span: SourceSpan, item: &SymbolItem) -> (result: Result<
        ConstantSource<'_>,
        LinkerError,
    >)
        ensures
            match result {
                Ok(ConstantSource::Cached(value)) => self@.constants.contains_key(gid.number()) && *value
                    == self@.constants[gid.number()],
                Ok(ConstantSource::Compiled) => !self@.constants.contains_key(gid.number())
                    && item is CompiledConstant,
                Err(error) => !self@.constants.contains_key(gid.number()) && !(item is CompiledConstant) && error
                    == (LinkerError::InvalidConstantRef { span }),
            },
    {
        broadcast use vstd::laws_cmp::group_laws_cmp;
        broadcast use vstd::std_specs::btree::group_btree_axioms;

        let key: u32 = gid.key();
        if let Some(value) = self.constants.get(&key) {
            return Ok(ConstantSource::Cached(value));
        }
        match item {
            SymbolItem::CompiledConstant => Ok(ConstantSource::Compiled),
            _ => Err(LinkerError::InvalidConstantRef { span }),
        }
    }

    /// Keeps what a constant was evaluated to, if it was to a value and the item is known.
    pub fn on_eval_completed(&mut self, gid: Option<GlobalItemIndex>, value: Option<ConstantValue>)
        ensures
            final(self)@ == match (gid, value) {
                (Some(gid), Some(value)) => CacheTy {
                    constants: old(self)@.constants.insert(gid.number(), value),
                    ..old(self)@
                },
                _ => old(self)@,
            },
    {
        broadcast use vstd::laws_cmp::group_laws_cmp;
        broadcast use vstd::std_specs::btree::group_btree_axioms;

        let ghost before = self@;
        if let (Some(gid), Some(value)) = (gid, value) {
            let key: u32 = gid.key();
            self.constants.insert(key, value);
            assert(self@ =~= (CacheTy { constants: before.constants.insert(gid.number(), value), ..before }));
        }
    }
}

// TYPES
// ================================================================================================

/// How to go on with a type.
#[derive(Debug)]
pub enum TypeStep {
    /// It is known.
    Ready(Type),
    /// It is to be resolved, and the resolution finished.
    Resolve,
}

/// What beginning to resolve a type gives, and what it makes of the cache.
pub open spec fn begun_type(cache: CacheTy, context: SourceSpan, gid: GlobalItemIndex) -> (
    Result<TypeStep, LinkerError>,
    CacheTy,
) {
    let key = gid.number();
    if cache.types.contains_key(key) {
        (Ok(TypeStep::Ready(cache.types[key])), cache)
    } else if cache.evaluating_types.contains_key(key) {
        (
            Err(LinkerError::RecursiveType { span: cache.evaluating_types[key], cycle_span: context }),
            cache,
        )
    } else {
        (
            Ok(TypeStep::Resolve),
            CacheTy { evaluating_types: cache.evaluating_types.insert(key, context), ..cache },
        )
    }
}

/// What finishing the resolution of a type makes of the cache.
pub open spec fn finished_type<E>(cache: CacheTy, gid: GlobalItemIndex, resolved: Result<Type, E>) -> CacheTy {
    let unmarked = CacheTy { evaluating_types: cache.evaluating_types.remove(gid.number()), ..cache };
    match resolved {
        Ok(ty) => CacheTy { types: cache.types.insert(gid.number(), ty), ..unmarked },
        Err(_) => unmarked,
    }
}

/// How to resolve a type declaration.
#[derive(Debug)]
pub enum TypePlan<'a> {
    /// It stands in the compiled module.
    Ready(Type),
    /// Evaluate the discriminant and resolve the payload of each variant, and make the enum.
    Enum(EnumResolution<'a>),
    /// Resolve what it is an alias of.
    Alias,
}

/// The discriminant value that a constant gives.
pub open spec fn discriminant_of(value: ConstantValue) -> Result<u128, LinkerError> {
    match value {
        ConstantValue::Int(_, value) => Ok(value as u128),
        _ => Err(LinkerError::InvalidDiscriminant { span: value.place() }),
    }
}

impl ResolverCache {
    /// Begins to resolve a type: tells whether it is known or to be resolved, in which case it is
    /// marked. A type that is marked already needs itself.
    pub fn get_type(&mut self, context: SourceSpan, gid: GlobalItemIndex) -> (result: Result<TypeStep, LinkerError>)
        ensures
            (result, final(self)@) == begun_type(old(self)@, context, gid),
    {
        broadcast use vstd::laws_cmp::group_laws_cmp;
        broadcast use vstd::std_specs::btree::group_btree_axioms;

        let ghost before = self@;
        let key: u32 = gid.key();
        if let Some(cached) = self.types.get(&key) {
            return Ok(TypeStep::Ready(cached.clone()));
        }
        if let Some(start) = self.evaluating_types.get(&key) {
            return Err(LinkerError::RecursiveType { span: *start, cycle_span: context });
        }
        self.evaluating_types.insert(key, context);
        assert(self@ =~= begun_type(before, context, gid).1);
        Ok(TypeStep::Resolve)
    }

    /// Begins to resolve a type of a module.
    pub fn get_local_type(&mut self, context: SourceSpan, module: u16, index: u16) -> (result: Result<
        TypeStep,
        LinkerError,
    >)
        ensures
            (result, final(self)@) == begun_type(old(self)@, context, GlobalItemIndex { module, index }),
    {
        self.get_type(context, GlobalItemIndex { module, index })
    }

    /// Finishes the resolution of a type, whose mark is removed. A resolved type is kept.
    pub fn finish_type<E>(&mut self, gid: GlobalItemIndex, resolved: Result<Type, E>) -> (result: Result<Type, E>)
        ensures
            final(self)@ == finished_type(old(self)@, gid, resolved),
            result == resolved,
    {
        broadcast use vstd::laws_cmp::group_laws_cmp;
        broadcast use vstd::std_specs::btree::group_btree_axioms;

        let ghost before = self@;
        let key: u32 = gid.key();
        self.evaluating_types.remove(&key);
        match resolved {
            Err(error) => {
                assert(self@ =~= finished_type::<E>(before, gid, Err(error)));
                Err(error)
            },
            Ok(ty) => {
                self.types.insert(key, ty.clone());
                assert(self@ =~= finished_type::<E>(before, gid, Ok(ty)));
                Ok(ty)
            },
        }
    }
}

/// Decides how to resolve what a reference to a type names.
pub fn resolve_type_by_gid<'a>(context: SourceSpan, item: &'a SymbolItem) -> (result: Result<TypePlan<'a>, LinkerError>)
    ensures
        match item {
            SymbolItem::CompiledType(ty) => result == Ok::<TypePlan<'a>, LinkerError>(TypePlan::Ready(*ty)),
            SymbolItem::Enum(declaration) => result matches Ok(TypePlan::Enum(resolution)) && resolution.declared()
                == *declaration && resolution@ == enum_start(),
            SymbolItem::Alias => result == Ok::<TypePlan<'a>, LinkerError>(TypePlan::Alias),
            _ => result == Err::<TypePlan<'a>, LinkerError>(LinkerError::InvalidTypeRef { span: context }),
        },
{
    match item {
        SymbolItem::CompiledType(ty) => Ok(TypePlan::Ready(ty.clone())),
        SymbolItem::Enum(declaration) => Ok(TypePlan::Enum(EnumResolution::new(declaration))),
        SymbolItem::Alias => Ok(TypePlan::Alias),
        _ => Err(LinkerError::InvalidTypeRef { span: context }),
    }
}

/// The discriminant value of a variant, which must be an integer.
pub fn discriminant_value(value: &ConstantValue) -> (result: Result<u128, LinkerError>)
    ensures
        result == discriminant_of(*value),
{
    match value {
        ConstantValue::Int(_, value) => Ok(*value as u128),
        invalid => Err(LinkerError::InvalidDiscriminant { span: invalid.span() }),
    }
}

// ENUM DECLARATIONS
// ================================================================================================

/// How far the resolution of an enum declaration has come.
#[verifier::ext_equal]
pub struct EnumProgress {
    /// The variants that are resolved.
    pub resolved: Seq<VariantTy>,
    /// The discriminant value of the next variant, where its payload is yet to be resolved.
    pub pending: Option<u128>,
}

/// What the resolution of an enum declaration needs next.
#[derive(Debug, Clone, Copy, PartialEq, Eq, Structural)]
pub enum EnumStep {
    /// The value of the discriminant expression of a variant.
    Evaluate(usize),
    /// The payload type of a variant.
    ResolvePayload(usize),
    /// Nothing: the enum can be made.
    Finish,
}

/// The resolution of an enum declaration before anything is resolved.
pub open spec fn enum_start() -> EnumProgress {
    EnumProgress { resolved: Seq::empty(), pending: None }
}

/// What the resolution of an enum declaration needs next.
pub open spec fn enum_step(declaration: EnumDeclaration, progress: EnumProgress) -> EnumStep {
    let next = progress.resolved.len();
    if next >= declaration.variants@.len() {
        EnumStep::Finish
    } else if progress.pending is Some {
        EnumStep::ResolvePayload(next as usize)
    } else {
        EnumStep::Evaluate(next as usize)
    }
}

/// The resolution of an enum declaration once the next variant has a discriminant value.
pub open spec fn with_discriminant(declaration: EnumDeclaration, progress: EnumProgress, value: u128) -> EnumProgress {
    let next = declaration.variants@[progress.resolved.len() as int];
    if next.has_payload {
        EnumProgress { pending: Some(value), ..progress }
    } else {
        EnumProgress {
            resolved: progress.resolved.push(
                VariantTy { name: (*next.name)@, value: None, discriminant_value: Some(value) },
            ),
            pending: None,
        }
    }
}

/// The resolution of an enum declaration once the next variant has a payload.
pub open spec fn with_payload(
    declaration: EnumDeclaration,
    progress: EnumProgress,
    payload: Option<Ty>,
) -> EnumProgress {
    let next = declaration.variants@[progress.resolved.len() as int];
    EnumProgress {
        resolved: progress.resolved.push(
            VariantTy { name: (*next.name)@, value: payload, discriminant_value: progress.pending },
        ),
        pending: None,
    }
}

/// The resolution of an enum declaration: variant by variant, first the value of the discriminant
/// and then the type of the payload, where one is declared.
#[derive(Debug)]
pub struct EnumResolution<'a> {
    declaration: &'a EnumDeclaration,
    resolved: Vec<Variant>,
    pending: Option<u128>,
}

impl<'a> View for EnumResolution<'a> {
    type V = EnumProgress;

    closed spec fn view(&self) -> EnumProgress {
        EnumProgress { resolved: variant_models(self.resolved@), pending: self.pending }
    }
}

impl<'a> EnumResolution<'a> {
    /// The declaration that is being resolved.
    pub closed spec fn declared(self) -> EnumDeclaration {
        *self.declaration
    }

    /// Begins to resolve a declaration.
    pub fn new(declaration: &'a EnumDeclaration) -> (resolution: EnumResolution<'a>)
        ensures
            resolution.declared() == *declaration,
            resolution@ == enum_start(),
    {
        let resolution = EnumResolution { declaration, resolved: Vec::new(), pending: None };
        assert(resolution@ =~= enum_start());
        resolution
    }

    /// What is needed next.
    pub fn step(&self) -> (step: EnumStep)
        ensures
            step == enum_step(self.declared(), self@),
    {
        let next: usize = self.resolved.len();
        if next >= self.declaration.variants.len() {
            EnumStep::Finish
        } else if self.pending.is_some() {
            EnumStep::ResolvePayload(next)
        } else {
            EnumStep::Evaluate(next)
        }
    }

    /// Takes what the discriminant expression of the next variant evaluates to, which must be an
    /// integer.
    pub fn take_discriminant(&mut self, value: &ConstantValue) -> (result: Result<(), LinkerError>)
        requires
            enum_step(old(self).declared(), old(self)@) is Evaluate,
        ensures
            final(self).declared() == old(self).declared(),
            match discriminant_of(*value) {
                Ok(number) => result is Ok && final(self)@ == with_discriminant(
                    old(self).declared(),
                    old(self)@,
                    number,
                ),
                Err(error) => result == Err::<(), LinkerError>(error) && final(self)@ == old(self)@,
            },
    {
        let ghost before = self@;
        let number: u128 = match discriminant_value(value) {
            Err(error) => {
                return Err(error);
            },
            Ok(number) => number,
        };
        let next = &self.declaration.variants[self.resolved.len()];
        if next.has_payload {
            self.pending = Some(number);
            assert(self@ =~= with_discriminant(self.declared(), before, number));
        } else {
            self.resolved.push(Variant { name: share(&next.name), value: None, discriminant_value: Some(number) });
            assert(self@ =~= with_discriminant(self.declared(), before, number));
        }
        Ok(())
    }

    /// Takes what the payload of the next variant resolves to.
    pub fn take_payload(&mut self, payload: Option<Type>)
        requires
            enum_step(old(self).declared(), old(self)@) is ResolvePayload,
        ensures
            final(self).declared() == old(self).declared(),
            final(self)@ == with_payload(old(self).declared(), old(self)@, optional_model(payload)),
    {
        let ghost before = self@;
        let name = share(&self.declaration.variants[self.resolved.len()].name);
        let discriminant_value: Option<u128> = self.pending;
        self.resolved.push(Variant { name, value: payload, discriminant_value });
        self.pending = None;
        assert(self@ =~= with_payload(self.declared(), before, optional_model(payload)));
    }

    /// Makes the enum of a declaration whose variants are resolved.
    pub fn finish(self, context: SourceSpan) -> (result: Result<Type, LinkerError>)
        requires
            enum_step(self.declared(), self@) is Finish,
        ensures
            match (
                result,
                make_enum((*self.declared().name)@, self.declared().discriminant.model(), self@.resolved),
            ) {
                (Ok(ty), Ok(expected)) => ty.model() == Ty::Enum(expected),
                (Err(LinkerError::InvalidEnumType { span, reason }), Err(fault)) => span == context && reason.model()
                    == fault,
                _ => false,
            },
    {
        match EnumType::new(share(&self.declaration.name), self.declaration.discriminant.clone(), self.resolved) {
            Ok(body) => Ok(Type::Enum(EnumRef::Plain(Arc::new(body)))),
            Err(reason) => Err(LinkerError::InvalidEnumType { span: context, reason }),
        }
    }
}

/// What an optional type stands for.
pub open spec fn optional_model(ty: Option<Type>) -> Option<Ty> {
    match ty {
        Some(ty) => Some(ty.model()),
        None => None,
    }
}

/// The resolution of an enum declaration once the first `n` variants have been resolved, where the
/// discriminants evaluate to `values` and the payloads resolve to `payloads`.
pub open spec fn enum_after(
    declaration: EnumDeclaration,
    values: Seq<u128>,
    payloads: Seq<Option<Ty>>,
    n: nat,
) -> EnumProgress
    decreases n,
{
    if n == 0 {
        enum_start()
    } else {
        let before = enum_after(declaration, values, payloads, (n - 1) as nat);
        let valued = with_discriminant(declaration, before, values[n - 1]);
        if enum_step(declaration, valued) == EnumStep::ResolvePayload((n - 1) as usize) {
            with_payload(declaration, valued, payloads[n - 1])
        } else {
            valued
        }
    }
}

// LAWS
// ================================================================================================

/// A constant that is being evaluated is not evaluated again: needing its own value is an error,
/// which tells where its expression stands, and leaves the cache as it is.
pub proof fn constant_cycles_are_found(
    cache: CacheTy,
    gid: GlobalItemIndex,
    span: SourceSpan,
    expression: SourceSpan,
    later: CacheTy,
    detected: SourceSpan,
)
    requires
        begun_constant(cache, gid, span, SymbolItem::Constant(expression)).0 == Ok::<ConstantStep, LinkerError>(
            ConstantStep::Evaluate,
        ),
        later.evaluating_constants.contains_key(gid.number()),
        later.evaluating_constants[gid.number()] == begun_constant(
            cache,
            gid,
            span,
            SymbolItem::Constant(expression),
        ).1.evaluating_constants[gid.number()],
        !later.constants.contains_key(gid.number()),
    ensures
        begun_constant(later, gid, detected, SymbolItem::Constant(expression)) == (
            Err::<ConstantStep, LinkerError>(LinkerError::EvalCycle { start: expression, detected }),
            later,
        ),
{
}

/// Beginning and finishing the evaluation of a constant leaves no mark behind, and the next attempt
/// finds the value.
pub proof fn finished_constant_is_ready<E>(
    cache: CacheTy,
    gid: GlobalItemIndex,
    span: SourceSpan,
    item: SymbolItem,
    value: Result<ConstantValue, E>,
)
    requires
        begun_constant(cache, gid, span, item).0 == Ok::<ConstantStep, LinkerError>(ConstantStep::Evaluate),
    ensures
        ({
            let after = finished_constant(begun_constant(cache, gid, span, item).1, gid, value);
            &&& after.evaluating_constants == cache.evaluating_constants
            &&& value is Ok ==> begun_constant(after, gid, span, item) == (
                Ok::<ConstantStep, LinkerError>(ConstantStep::Ready),
                after,
            )
            &&& value is Err ==> after == cache
        }),
{
    let begun = begun_constant(cache, gid, span, item).1;
    let after = finished_constant(begun, gid, value);
    assert(after.evaluating_constants =~= cache.evaluating_constants);
    if value is Err {
        assert(after =~= cache);
    }
}

/// A type that is being resolved is not resolved again: needing itself is an error, which tells
/// where its resolution began, and leaves the cache as it is.
pub proof fn type_cycles_are_found(
    cache: CacheTy,
    context: SourceSpan,
    gid: GlobalItemIndex,
    later: CacheTy,
    cycle_span: SourceSpan,
)
    requires
        begun_type(cache, context, gid).0 == Ok::<TypeStep, LinkerError>(TypeStep::Resolve),
        later.evaluating_types.contains_key(gid.number()),
        later.evaluating_types[gid.number()] == begun_type(cache, context, gid).1.evaluating_types[gid.number()],
        !later.types.contains_key(gid.number()),
    ensures
        begun_type(later, cycle_span, gid) == (
            Err::<TypeStep, LinkerError>(LinkerError::RecursiveType { span: context, cycle_span }),
            later,
        ),
{
}

/// Beginning and finishing the resolution of a type leaves no mark behind, and the next attempt
/// finds the type.
pub proof fn finished_type_is_ready<E>(
    cache: CacheTy,
    context: SourceSpan,
    gid: GlobalItemIndex,
    resolved: Result<Type, E>,
)
    requires
        begun_type(cache, context, gid).0 == Ok::<TypeStep, LinkerError>(TypeStep::Resolve),
    ensures
        ({
            let after = finished_type(begun_type(cache, context, gid).1, gid, resolved);
            &&& after.evaluating_types == cache.evaluating_types
            &&& resolved matches Ok(ty) ==> begun_type(after, context, gid) == (
                Ok::<TypeStep, LinkerError>(TypeStep::Ready(ty)),
                after,
            )
            &&& resolved is Err ==> after == cache
        }),
{
    let begun = begun_type(cache, context, gid).1;
    let after = finished_type(begun, gid, resolved);
    assert(after.evaluating_types =~= cache.evaluating_types);
    if resolved is Err {
        assert(after =~= cache);
    }
}

/// Resolving the variants one by one gives each variant in its place, with its discriminant value,
/// and with its payload where one is declared.
pub proof fn variants_are_resolved_in_order(
    declaration: EnumDeclaration,
    values: Seq<u128>,
    payloads: Seq<Option<Ty>>,
    n: nat,
)
    requires
        n <= declaration.variants@.len(),
        values.len() == declaration.variants@.len(),
        payloads.len() == declaration.variants@.len(),
    ensures
        enum_after(declaration, values, payloads, n) == (EnumProgress {
            resolved: Seq::new(
                n,
                |i: int|
                    VariantTy {
                        name: (*declaration.variants@[i].name)@,
                        value: if declaration.variants@[i].has_payload {
                            payloads[i]
                        } else {
                            None
                        },
                        discriminant_value: Some(values[i]),
                    },
            ),
            pending: None,
        }),
    decreases n,
{
    let all = |k: nat|
        Seq::new(
            k,
            |i: int|
                VariantTy {
                    name: (*declaration.variants@[i].name)@,
                    value: if declaration.variants@[i].has_payload {
                        payloads[i]
                    } else {
                        None
                    },
                    discriminant_value: Some(values[i]),
                },
        );
    if n > 0 {
        let k = (n - 1) as nat;
        variants_are_resolved_in_order(declaration, values, payloads, k);
        let before = enum_after(declaration, values, payloads, k);
        assert(before.resolved.len() == k);
        assert(enum_after(declaration, values, payloads, n).resolved =~= all(n));
    } else {
        assert(enum_after(declaration, values, payloads, 0).resolved =~= all(0));
    }
}

/// Every integer is a discriminant value, with its own value; nothing else is one.
pub proof fn integers_are_discriminants(value: ConstantValue)
    ensures
        value matches ConstantValue::Int(_, v) ==> discriminant_of(value) == Ok::<u128, LinkerError>(v as u128),
        discriminant_of(value) is Ok <==> value is Int,
        value matches ConstantValue::String(span, _) ==> discriminant_of(value) == Err::<u128, LinkerError>(
            LinkerError::InvalidDiscriminant { span },
        ),
        value matches ConstantValue::Word(span, _, _, _, _) ==> discriminant_of(value) == Err::<u128, LinkerError>(
            LinkerError::InvalidDiscriminant { span },
        ),
        value matches ConstantValue::Hash(span, _) ==> discriminant_of(value) == Err::<u128, LinkerError>(
            LinkerError::InvalidDiscriminant { span },
        ),
{
}

/// Two integers give the same discriminant value exactly where they are the same, wherever they
/// stand.
pub proof fn discriminants_tell_integers_apart(a: u64, b: u64, here: SourceSpan, there: SourceSpan)
    ensures
        discriminant_of(ConstantValue::Int(here, a)) == discriminant_of(ConstantValue::Int(there, b)) <==> a == b,
{
}

/// Nothing but the mark of the item itself can change when a constant is begun.
pub proof fn beginning_a_constant_marks_it_alone(
    cache: CacheTy,
    gid: GlobalItemIndex,
    span: SourceSpan,
    item: SymbolItem,
    other: u32,
)
    requires
        other != gid.number(),
    ensures
        ({
            let (result, after) = begun_constant(cache, gid, span, item);
            &&& after.types == cache.types
            &&& after.constants == cache.constants
            &&& after.evaluating_types == cache.evaluating_types
            &&& after.evaluating_constants.contains_key(other) == cache.evaluating_constants.contains_key(other)
            &&& after.evaluating_constants[other] == cache.evaluating_constants[other]
            &&& after != cache ==> result == Ok::<ConstantStep, LinkerError>(ConstantStep::Evaluate)
        }),
{
}

/// A source constant that is neither known nor being evaluated is to be evaluated, whatever else is
/// known or being evaluated, and is marked with the place of its expression.
pub proof fn new_constants_are_evaluated(
    cache: CacheTy,
    gid: GlobalItemIndex,
    span: SourceSpan,
    expression: SourceSpan,
)
    requires
        !cache.constants.contains_key(gid.number()),
        !cache.evaluating_constants.contains_key(gid.number()),
    ensures
        ({
            let (result, after) = begun_constant(cache, gid, span, SymbolItem::Constant(expression));
            &&& result == Ok::<ConstantStep, LinkerError>(ConstantStep::Evaluate)
            &&& after.evaluating_constants == cache.evaluating_constants.insert(gid.number(), expression)
            &&& after.constants == cache.constants
            &&& after.types == cache.types
            &&& after.evaluating_types == cache.evaluating_types
        }),
{
}

/// A cycle is reported exactly where the constant itself is being evaluated and not known, and with
/// the mark of that constant.
pub proof fn constant_cycles_are_those_of_the_constant(
    cache: CacheTy,
    gid: GlobalItemIndex,
    span: SourceSpan,
    item: SymbolItem,
)
    ensures
        begun_constant(cache, gid, span, item).0 matches Err(LinkerError::EvalCycle { start, detected }) ==> {
            &&& cache.evaluating_constants.contains_key(gid.number())
            &&& !cache.constants.contains_key(gid.number())
            &&& item is Constant
            &&& start == cache.evaluating_constants[gid.number()]
            &&& detected == span
        },
        cache.evaluating_constants.contains_key(gid.number()) && !cache.constants.contains_key(gid.number())
            && item is Constant ==> begun_constant(cache, gid, span, item).0 == Err::<ConstantStep, LinkerError>(
            LinkerError::EvalCycle { start: cache.evaluating_constants[gid.number()], detected: span },
        ),
{
}

/// A constant that is known is ready, and so is one of a compiled module; nothing changes.
pub proof fn known_constants_are_ready(cache: CacheTy, gid: GlobalItemIndex, span: SourceSpan, item: SymbolItem)
    requires
        cache.constants.contains_key(gid.number()) || item is CompiledConstant,
    ensures
        begun_constant(cache, gid, span, item) == (Ok::<ConstantStep, LinkerError>(ConstantStep::Ready), cache),
{
}

/// A reference to what is no constant is rejected with its own place, exactly where the item is no
/// constant and none is known for it.
pub proof fn other_items_are_no_constants(cache: CacheTy, gid: GlobalItemIndex, span: SourceSpan, item: SymbolItem)
    ensures
        begun_constant(cache, gid, span, item).0 is Err && !(begun_constant(cache, gid, span, item).0->Err_0 is EvalCycle)
            <==> !cache.constants.contains_key(gid.number()) && !(item is Constant) && !(item is CompiledConstant),
        !cache.constants.contains_key(gid.number()) && !(item is Constant) && !(item is CompiledConstant)
            ==> begun_constant(cache, gid, span, item) == (
            Err::<ConstantStep, LinkerError>(LinkerError::InvalidConstantRef { span }),
            cache,
        ),
{
}

/// Finishing a constant removes its mark, keeps its value where it has one, and changes nothing else.
pub proof fn finishing_a_constant_keeps_its_value<E>(
    cache: CacheTy,
    gid: GlobalItemIndex,
    value: Result<ConstantValue, E>,
    other: u32,
)
    requires
        other != gid.number(),
    ensures
        ({
            let after = finished_constant(cache, gid, value);
            let key = gid.number();
            &&& !after.evaluating_constants.contains_key(key)
            &&& value matches Ok(kept) ==> after.constants.contains_key(key) && after.constants[key] == kept
            &&& value is Err ==> after.constants == cache.constants
            &&& after.constants.contains_key(other) == cache.constants.contains_key(other)
            &&& after.constants[other] == cache.constants[other]
            &&& after.evaluating_constants.contains_key(other) == cache.evaluating_constants.contains_key(other)
            &&& after.evaluating_constants[other] == cache.evaluating_constants[other]
            &&& after.types == cache.types
            &&& after.evaluating_types == cache.evaluating_types
        }),
{
}

/// A chain of constants, each of which needs the next, is evaluated from its end: every one of them is
/// begun, and each is known once it is finished. `n` of them are begun here, one after the other.
pub open spec fn begun_chain(
    cache: CacheTy,
    chain: Seq<GlobalItemIndex>,
    span: SourceSpan,
    expressions: Seq<SourceSpan>,
    n: nat,
) -> CacheTy
    decreases n,
{
    if n == 0 {
        cache
    } else {
        begun_constant(
            begun_chain(cache, chain, span, expressions, (n - 1) as nat),
            chain[n - 1],
            span,
            SymbolItem::Constant(expressions[n - 1]),
        ).1
    }
}

/// However long a chain of different constants is, the next of them is to be evaluated: a chain is no
/// cycle.
pub proof fn chains_are_no_cycles(
    cache: CacheTy,
    chain: Seq<GlobalItemIndex>,
    span: SourceSpan,
    expressions: Seq<SourceSpan>,
    n: nat,
)
    requires
        n < chain.len(),
        expressions.len() == chain.len(),
        forall|i: int, j: int| 0 <= i < j < chain.len() ==> #[trigger] chain[i] != #[trigger] chain[j],
        forall|i: int|
            0 <= i < chain.len() ==> !cache.constants.contains_key((#[trigger] chain[i]).number())
                && !cache.evaluating_constants.contains_key(chain[i].number()),
    ensures
        begun_constant(
            begun_chain(cache, chain, span, expressions, n),
            chain[n as int],
            span,
            SymbolItem::Constant(expressions[n as int]),
        ).0 == Ok::<ConstantStep, LinkerError>(ConstantStep::Evaluate),
{
    chain_marks(cache, chain, span, expressions, n);
    let key = chain[n as int].number();
    let after = begun_chain(cache, chain, span, expressions, n);
    if after.evaluating_constants.contains_key(key) {
        let i = choose|i: int| 0 <= i < n && (#[trigger] chain[i]).number() == key;
        GlobalItemIndex::numbers_differ(chain[i], chain[n as int]);
    }
}

proof fn chain_marks(
    cache: CacheTy,
    chain: Seq<GlobalItemIndex>,
    span: SourceSpan,
    expressions: Seq<SourceSpan>,
    n: nat,
)
    requires
        n <= chain.len(),
        expressions.len() == chain.len(),
    ensures
        begun_chain(cache, chain, span, expressions, n).constants == cache.constants,
        forall|key: u32| #[trigger]
            begun_chain(cache, chain, span, expressions, n).evaluating_constants.contains_key(key)
                ==> cache.evaluating_constants.contains_key(key) || exists|i: int|
                0 <= i < n && (#[trigger] chain[i]).number() == key,
    decreases n,
{
    if n > 0 {
        chain_marks(cache, chain, span, expressions, (n - 1) as nat);
        let before = begun_chain(cache, chain, span, expressions, (n - 1) as nat);
        let after = begun_chain(cache, chain, span, expressions, n);
        assert forall|key: u32| #[trigger] after.evaluating_constants.contains_key(key) implies
            cache.evaluating_constants.contains_key(key) || exists|i: int|
            0 <= i < n && (#[trigger] chain[i]).number() == key by {
            if before.evaluating_constants.contains_key(key) {
                if !cache.evaluating_constants.contains_key(key) {
                    let i = choose|i: int| 0 <= i < n - 1 && (#[trigger] chain[i]).number() == key;
                    assert(chain[i].number() == key);
                }
            } else {
                assert(chain[n - 1].number() == key);
            }
        }
    }
}

/// A type that is neither known nor being resolved is to be resolved, whatever else is known or being
/// resolved, and is marked with where its resolution began; nothing else changes.
pub proof fn new_types_are_resolved(cache: CacheTy, context: SourceSpan, gid: GlobalItemIndex)
    requires
        !cache.types.contains_key(gid.number()),
        !cache.evaluating_types.contains_key(gid.number()),
    ensures
        ({
            let (result, after) = begun_type(cache, context, gid);
            &&& result == Ok::<TypeStep, LinkerError>(TypeStep::Resolve)
            &&& after.evaluating_types == cache.evaluating_types.insert(gid.number(), context)
            &&& after.types == cache.types
            &&& after.constants == cache.constants
            &&& after.evaluating_constants == cache.evaluating_constants
        }),
{
}

/// A type that is known is given as it is, whatever is being resolved; nothing changes.
pub proof fn known_types_are_ready(cache: CacheTy, context: SourceSpan, gid: GlobalItemIndex)
    requires
        cache.types.contains_key(gid.number()),
    ensures
        begun_type(cache, context, gid) == (
            Ok::<TypeStep, LinkerError>(TypeStep::Ready(cache.types[gid.number()])),
            cache,
        ),
{
}

/// A type is reported to need itself exactly where it is being resolved and not known, and with the
/// mark of that type.
pub proof fn type_cycles_are_those_of_the_type(cache: CacheTy, context: SourceSpan, gid: GlobalItemIndex)
    ensures
        begun_type(cache, context, gid).0 is Err <==> cache.evaluating_types.contains_key(gid.number())
            && !cache.types.contains_key(gid.number()),
        begun_type(cache, context, gid).0 is Err ==> begun_type(cache, context, gid) == (
            Err::<TypeStep, LinkerError>(
                LinkerError::RecursiveType {
                    span: cache.evaluating_types[gid.number()],
                    cycle_span: context,
                },
            ),
            cache,
        ),
{
}

/// Finishing a type removes its mark, keeps the type where there is one, and changes nothing else.
pub proof fn finishing_a_type_keeps_it<E>(
    cache: CacheTy,
    gid: GlobalItemIndex,
    resolved: Result<Type, E>,
    other: u32,
)
    requires
        other != gid.number(),
    ensures
        ({
            let after = finished_type(cache, gid, resolved);
            let key = gid.number();
            &&& !after.evaluating_types.contains_key(key)
            &&& resolved matches Ok(kept) ==> after.types.contains_key(key) && after.types[key] == kept
            &&& resolved is Err ==> after.types == cache.types
            &&& after.types.contains_key(other) == cache.types.contains_key(other)
            &&& after.types[other] == cache.types[other]
            &&& after.evaluating_types.contains_key(other) == cache.evaluating_types.contains_key(other)
            &&& after.evaluating_types[other] == cache.evaluating_types[other]
            &&& after.constants == cache.constants
            &&& after.evaluating_constants == cache.evaluating_constants
        }),
{
}

/// Every item has its own number: the index within the module, behind the number of the module.
pub proof fn numbers_are_pairs(gid: GlobalItemIndex)
    ensures
        gid.number() / 0x1_0000 == gid.module,
        gid.number() % 0x1_0000 == gid.index,
{
}

/// A declaration needs, for its variants in turn, a discriminant and then a payload where one is
/// declared, and can be finished exactly where every variant is resolved.
pub proof fn declarations_are_resolved_step_by_step(
    declaration: EnumDeclaration,
    progress: EnumProgress,
    value: u128,
    payload: Option<Ty>,
)
    requires
        progress.resolved.len() < declaration.variants@.len(),
    ensures
        ({
            let next = progress.resolved.len() as int;
            let variant = declaration.variants@[next];
            let valued = with_discriminant(declaration, progress, value);
            let paid = with_payload(declaration, progress, payload);
            // No discriminant yet: it is asked for.
            &&& progress.pending is None ==> enum_step(declaration, progress) == EnumStep::Evaluate(next as usize)
            // A variant with a payload waits for it, and keeps its discriminant meanwhile.
            &&& variant.has_payload ==> enum_step(declaration, valued) == EnumStep::ResolvePayload(next as usize)
                && valued.pending == Some(value) && valued.resolved == progress.resolved
            // One without is resolved.
            &&& !variant.has_payload ==> valued.pending is None && valued.resolved == progress.resolved.push(
                VariantTy { name: (*variant.name)@, value: None, discriminant_value: Some(value) },
            )
            // With its payload a variant is resolved.
            &&& paid.pending is None && paid.resolved == progress.resolved.push(
                VariantTy { name: (*variant.name)@, value: payload, discriminant_value: progress.pending },
            )
        }),
        forall|done: EnumProgress|
            done.resolved.len() >= declaration.variants@.len() <==> #[trigger] enum_step(declaration, done) is Finish,
{
}

} // verus!
