//! Resolution of constants and types.
use miden_replay::aggregates::{InvalidDefinition, InvalidEnumTypeError};
use miden_replay::resolver::{
    discriminant_value, resolve_type_by_gid, ConstantSource, ConstantStep, ConstantValue, EnumDeclaration,
    EnumResolution, EnumStep, GlobalItemIndex, LinkerError, ResolverCache, SourceSpan, SymbolItem, TypePlan,
    TypeStep, VariantDeclaration,
};
use miden_replay::types::Type;

fn span(start: u32) -> SourceSpan {
    SourceSpan { source_id: 1, start, end: start + 1 }
}

fn item(index: u16) -> GlobalItemIndex {
    GlobalItemIndex { module: 3, index }
}

fn declaration(discriminant: Type) -> EnumDeclaration {
    EnumDeclaration {
        name: "E".into(),
        discriminant,
        variants: vec![
            VariantDeclaration { name: "A".into(), has_payload: false },
            VariantDeclaration { name: "B".into(), has_payload: true },
        ],
    }
}

#[test]
fn a_constant_is_evaluated_once() {
    let mut cache = ResolverCache::default();
    let constant = SymbolItem::Constant(span(10));
    assert_eq!(cache.materialize_constant_by_gid(item(0), span(1), &constant), Ok(ConstantStep::Evaluate));
    let value = ConstantValue::Int(span(10), 42);
    assert_eq!(cache.finish_constant::<()>(item(0), Ok(value.clone())), Ok(()));
    assert_eq!(cache.materialize_constant_by_gid(item(0), span(2), &constant), Ok(ConstantStep::Ready));
    assert!(cache.evaluating_constants.is_empty());
    assert!(matches!(
        cache.get_constant_by_gid(item(0), span(2), &constant),
        Ok(ConstantSource::Cached(found)) if *found == value
    ));
}

#[test]
fn a_constant_that_needs_itself_is_found() {
    let mut cache = ResolverCache::default();
    let constant = SymbolItem::Constant(span(10));
    assert_eq!(cache.materialize_constant_by_gid(item(0), span(1), &constant), Ok(ConstantStep::Evaluate));
    assert_eq!(
        cache.materialize_constant_by_gid(item(1), span(2), &SymbolItem::Constant(span(20))),
        Ok(ConstantStep::Evaluate)
    );
    let error = LinkerError::EvalCycle { start: span(10), detected: span(3) };
    assert_eq!(cache.materialize_constant_by_gid(item(0), span(3), &constant), Err(error.clone()));
    assert_eq!(cache.finish_constant(item(1), Err(error.clone())), Err(error.clone()));
    assert_eq!(cache.finish_constant(item(0), Err(error.clone())), Err(error));
    assert!(cache.evaluating_constants.is_empty());
    assert!(cache.constants.is_empty());
}

#[test]
fn what_is_no_constant_is_rejected() {
    let mut cache = ResolverCache::default();
    for other in [SymbolItem::Procedure, SymbolItem::Enum(declaration(Type::U8)), SymbolItem::Alias, SymbolItem::CompiledOther] {
        assert_eq!(
            cache.materialize_constant_by_gid(item(0), span(1), &other),
            Err(LinkerError::InvalidConstantRef { span: span(1) })
        );
        assert!(matches!(
            cache.get_constant_by_gid(item(0), span(1), &other),
            Err(LinkerError::InvalidConstantRef { .. })
        ));
    }
    assert_eq!(
        cache.materialize_constant_by_gid(item(0), span(1), &SymbolItem::CompiledConstant),
        Ok(ConstantStep::Ready)
    );
    assert!(matches!(
        cache.get_constant_by_gid(item(0), span(1), &SymbolItem::CompiledConstant),
        Ok(ConstantSource::Compiled)
    ));
}

#[test]
fn evaluated_constants_are_kept() {
    let mut cache = ResolverCache::default();
    cache.on_eval_completed(None, Some(ConstantValue::Int(span(1), 1)));
    cache.on_eval_completed(Some(item(0)), None);
    assert!(cache.constants.is_empty());
    cache.on_eval_completed(Some(item(0)), Some(ConstantValue::Int(span(1), 1)));
    assert_eq!(cache.constants.len(), 1);
}

#[test]
fn a_type_is_resolved_once() {
    let mut cache = ResolverCache::default();
    assert!(matches!(cache.get_type(span(1), item(0)), Ok(TypeStep::Resolve)));
    assert_eq!(cache.finish_type::<()>(item(0), Ok(Type::U32)), Ok(Type::U32));
    assert!(matches!(cache.get_local_type(span(2), 3, 0), Ok(TypeStep::Ready(Type::U32))));
    assert!(cache.evaluating_types.is_empty());
}

#[test]
fn a_type_that_needs_itself_is_found() {
    // type A = B, type B = A
    let mut cache = ResolverCache::default();
    assert!(matches!(cache.get_type(span(1), item(0)), Ok(TypeStep::Resolve)));
    assert!(matches!(cache.get_type(span(2), item(1)), Ok(TypeStep::Resolve)));
    let error = cache.get_type(span(3), item(0)).unwrap_err();
    assert_eq!(error, LinkerError::RecursiveType { span: span(1), cycle_span: span(3) });
    assert_eq!(cache.finish_type(item(1), Err(error.clone())), Err(error.clone()));
    assert_eq!(cache.finish_type(item(0), Err(error.clone())), Err(error));
    assert!(cache.evaluating_types.is_empty());
    assert!(cache.types.is_empty());
}

#[test]
fn declarations_are_resolved_by_kind() {
    assert!(matches!(
        resolve_type_by_gid(span(1), &SymbolItem::CompiledType(Type::Felt)),
        Ok(TypePlan::Ready(Type::Felt))
    ));
    let item = SymbolItem::Enum(declaration(Type::U8));
    assert!(matches!(
        resolve_type_by_gid(span(1), &item),
        Ok(TypePlan::Enum(resolution)) if resolution.step() == EnumStep::Evaluate(0)
    ));
    assert!(matches!(resolve_type_by_gid(span(1), &SymbolItem::Alias), Ok(TypePlan::Alias)));
    for other in [
        SymbolItem::Procedure,
        SymbolItem::Constant(span(9)),
        SymbolItem::CompiledConstant,
        SymbolItem::CompiledOther,
    ] {
        assert_eq!(
            resolve_type_by_gid(span(1), &other).unwrap_err(),
            LinkerError::InvalidTypeRef { span: span(1) }
        );
    }
}

#[test]
fn discriminants_are_integers() {
    assert_eq!(discriminant_value(&ConstantValue::Int(span(1), u64::MAX)), Ok(u64::MAX as u128));
    for other in [
        ConstantValue::String(span(2), "text".to_string()),
        ConstantValue::Word(span(2), 1, 2, 3, 4),
        ConstantValue::Hash(span(2), "text".to_string()),
    ] {
        assert_eq!(other.span(), span(2));
        assert_eq!(discriminant_value(&other), Err(LinkerError::InvalidDiscriminant { span: span(2) }));
    }
}

#[test]
fn an_enum_is_made_of_its_variants() {
    let declaration = declaration(Type::U8);
    let mut resolution = EnumResolution::new(&declaration);
    assert_eq!(resolution.step(), EnumStep::Evaluate(0));
    assert_eq!(resolution.take_discriminant(&ConstantValue::Int(span(2), 1)), Ok(()));
    assert_eq!(resolution.step(), EnumStep::Evaluate(1));
    assert_eq!(resolution.take_discriminant(&ConstantValue::Int(span(2), 2)), Ok(()));
    assert_eq!(resolution.step(), EnumStep::ResolvePayload(1));
    resolution.take_payload(Some(Type::U32));
    assert_eq!(resolution.step(), EnumStep::Finish);
    let ty = resolution.finish(span(1)).unwrap();
    assert_eq!(ty.to_text(), "enum E : u8{A = 1, B(u32) = 2}");
    assert_eq!(ty.size_in_bytes(), 8);
}

#[test]
fn an_enum_whose_discriminant_is_no_integer_is_rejected() {
    let declaration = declaration(Type::U8);
    let mut resolution = EnumResolution::new(&declaration);
    assert_eq!(
        resolution.take_discriminant(&ConstantValue::String(span(2), "text".to_string())),
        Err(LinkerError::InvalidDiscriminant { span: span(2) })
    );
    assert_eq!(resolution.step(), EnumStep::Evaluate(0));
}

#[test]
fn an_enum_that_breaks_the_rules_is_rejected() {
    let declaration = declaration(Type::F64);
    let mut resolution = EnumResolution::new(&declaration);
    assert_eq!(resolution.take_discriminant(&ConstantValue::Int(span(2), 1)), Ok(()));
    assert_eq!(resolution.take_discriminant(&ConstantValue::Int(span(2), 2)), Ok(()));
    resolution.take_payload(None);
    assert_eq!(
        resolution.finish(span(1)),
        Err(LinkerError::InvalidEnumType {
            span: span(1),
            reason: InvalidDefinition::Enum(InvalidEnumTypeError::InvalidDiscriminantType(Type::F64)),
        })
    );
}
