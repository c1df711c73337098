//! Sizes, alignments and the text of types.
use std::sync::Arc;

use miden_replay::aggregates::NameAndType;
use miden_replay::types::{
    AddressSpace, ArrayType, CallConv, EnumRef, EnumType, FunctionType, PointerType, StructRef, StructType, Type,
    TypeRepr, Variant,
};

fn parts(tys: Vec<Type>) -> Vec<NameAndType> {
    tys.into_iter().map(|ty| NameAndType { name: None, ty }).collect()
}

fn pointer() -> Type {
    Type::Ptr(Arc::new(PointerType::new(Type::U32)))
}

fn array(ty: Type, len: usize) -> Type {
    Type::Array(Arc::new(ArrayType { ty, len }))
}

#[test]
fn scalars_have_sizes() {
    assert_eq!(Type::I1.size_in_bits(), Some(1));
    assert_eq!(Type::I1.size_in_bytes(), 1);
    assert_eq!(Type::Felt.size_in_bytes(), 4);
    assert_eq!(Type::U64.size_in_bytes(), 8);
    assert_eq!(Type::U64.min_alignment(), 4);
    assert_eq!(Type::U256.size_in_bytes(), 32);
    assert_eq!(Type::U256.min_alignment(), 16);
    assert_eq!(Type::Never.size_in_bytes(), 0);
    assert!(Type::Never.is_zst());
    assert!(!Type::Unknown.is_zst());
}

#[test]
fn default_structs_are_padded() {
    let body = StructType::from_parts(None, TypeRepr::Default, &parts(vec![pointer(), Type::U8, Type::I32])).unwrap();
    assert_eq!(body.size, 12);
    assert_eq!(body.min_alignment(), 4);
    let offsets: Vec<u32> = body.fields().iter().map(|f| f.offset).collect();
    assert_eq!(offsets, vec![0, 4, 8]);
}

#[test]
fn packed_structs_are_not_padded() {
    let body = StructType::from_parts(None, TypeRepr::Packed(1), &parts(vec![pointer(), Type::U8, Type::I32])).unwrap();
    assert_eq!(body.size, 9);
    assert_eq!(body.min_alignment(), 1);
    let offsets: Vec<u32> = body.fields().iter().map(|f| f.offset).collect();
    assert_eq!(offsets, vec![0, 4, 5]);
}

#[test]
fn aligned_structs_are_rounded_up() {
    let body = StructType::from_parts(None, TypeRepr::Align(16), &parts(vec![Type::U8])).unwrap();
    assert_eq!(body.size, 16);
    assert_eq!(body.min_alignment(), 16);
}

#[test]
fn transparent_structs_have_one_field_that_takes_memory() {
    let body = StructType::from_parts(None, TypeRepr::Transparent, &parts(vec![Type::Never, Type::U64])).unwrap();
    assert_eq!(body.size, 8);
    assert!(StructType::from_parts(None, TypeRepr::Transparent, &parts(vec![Type::U8, Type::U8])).is_none());
}

#[test]
fn structs_have_at_most_255_fields() {
    assert!(StructType::from_parts(None, TypeRepr::Default, &parts(vec![Type::U8; 255])).is_some());
    assert!(StructType::from_parts(None, TypeRepr::Default, &parts(vec![Type::U8; 256])).is_none());
}

#[test]
fn arrays_are_padded_between_elements() {
    let three = Type::Struct(StructRef::Plain(Arc::new(
        StructType::from_parts(None, TypeRepr::Packed(2), &parts(vec![Type::U8, Type::U8, Type::U8])).unwrap(),
    )));
    assert_eq!(three.size_in_bytes(), 3);
    assert_eq!(array(three.clone(), 0).size_in_bytes(), 0);
    assert_eq!(array(three.clone(), 1).size_in_bytes(), 3);
    assert_eq!(array(three, 3).size_in_bytes(), 4 + 4 + 3);
    assert_eq!(array(Type::U32, usize::MAX).size_in_bits(), None);
}

#[test]
fn enums_are_as_large_as_their_largest_variant() {
    let variant = |name: &str, value: Option<Type>| Variant { name: name.into(), value, discriminant_value: None };
    let body = EnumType::new("E".into(), Type::U8, vec![
        variant("A", None),
        variant("B", Some(Type::U16)),
        variant("C", Some(Type::U64)),
    ])
    .unwrap();
    assert_eq!((body.size, body.align), (12, 4));
    assert_eq!(body.offsets, vec![0, 2, 4]);
    let body = EnumType::new("E".into(), Type::U16, vec![variant("A", None)]).unwrap();
    assert_eq!((body.size, body.align), (2, 2));
    let body = EnumType::new("E".into(), Type::U16, vec![]).unwrap();
    assert_eq!((body.size, body.align), (0, 1));
    assert!(Type::Enum(EnumRef::Plain(Arc::new(body))).is_zst());
}

#[test]
fn types_have_texts() {
    let named = StructType::from_parts(
        Some("S".into()),
        TypeRepr::Align(8),
        &vec![NameAndType { name: Some("x".into()), ty: array(Type::U8, 10) }, NameAndType {
            name: None,
            ty: Type::List(Arc::new(Type::Felt)),
        }],
    )
    .unwrap();
    let ty = Type::Struct(StructRef::Plain(Arc::new(named)));
    assert_eq!(ty.to_text(), "struct S #[repr(align(8))] {x : [u8; 10], list<felt>}");
    let pointer = Type::Ptr(Arc::new(PointerType { addrspace: AddressSpace::Element, pointee: Type::Variadic }));
    assert_eq!(pointer.to_text(), "ptr<element, ...>");
    let function = Type::Function(Arc::new(FunctionType {
        abi: CallConv::Fast,
        params: vec![Type::I1, Type::I8],
        results: vec![],
    }));
    assert_eq!(function.to_text(), "extern \"fast\" fn(i1, i8)");
    let body = EnumType::new("E".into(), Type::U8, vec![
        Variant { name: "A".into(), value: Some(Type::U32), discriminant_value: Some(7) },
        Variant { name: "B".into(), value: None, discriminant_value: None },
    ])
    .unwrap();
    assert_eq!(Type::Enum(EnumRef::Plain(Arc::new(body))).to_text(), "enum E : u8{A(u32) = 7, B}");
}

#[test]
fn types_are_equal_by_structure() {
    let make = |name: &str| {
        Type::Struct(StructRef::Plain(Arc::new(
            StructType::from_parts(Some(name.into()), TypeRepr::Default, &parts(vec![Type::U8, pointer()])).unwrap(),
        )))
    };
    assert_eq!(make("S"), make("S"));
    assert_ne!(make("S"), make("T"));
    assert_ne!(make("S"), Type::U8);
    assert_eq!(make("S").clone(), make("S"));
    assert!(pointer().is_pointer());
    assert!(!make("S").is_pointer());
}
