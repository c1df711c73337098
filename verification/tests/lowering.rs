//! Cutting types into parts.
use std::sync::Arc;

use miden_replay::aggregates::NameAndType;
use miden_replay::types::{ArrayType, PointerType, StructRef, StructType, Type, TypeRepr};

fn array(ty: Type, len: usize) -> Type {
    Type::Array(Arc::new(ArrayType { ty, len }))
}

fn pointer() -> Type {
    Type::Ptr(Arc::new(PointerType::new(Type::U32)))
}

fn body(repr: TypeRepr, types: Vec<Type>) -> StructType {
    let parts = types.into_iter().map(|ty| NameAndType { name: None, ty }).collect();
    StructType::from_parts(None, repr, &parts).expect("should lay out")
}

fn struct_of(repr: TypeRepr, types: Vec<Type>) -> Type {
    Type::Struct(StructRef::Plain(Arc::new(body(repr, types))))
}

#[test]
fn types_are_lowered_to_parts_of_32_bits() {
    assert_eq!(array(Type::U8, 5).to_raw_parts(), Some(vec![array(Type::U8, 4), Type::U8]));
    assert_eq!(array(Type::I16, 3).to_raw_parts(), Some(vec![array(Type::I16, 2), Type::I16]));
    // A struct with padding between its fields.
    let ty = struct_of(TypeRepr::Default, vec![pointer(), Type::U8, Type::I32]);
    assert_eq!(ty.to_raw_parts(), Some(vec![pointer(), Type::U8, Type::I32]));
    // A struct without.
    let ty = struct_of(TypeRepr::Packed(1), vec![pointer(), Type::U8, Type::I32]);
    let partial = struct_of(TypeRepr::Packed(1), vec![Type::U8, array(Type::U8, 3)]);
    assert_eq!(ty.to_raw_parts(), Some(vec![pointer(), partial, Type::U8]));
    assert_eq!(Type::U64.to_raw_parts(), Some(vec![array(Type::U8, 4), array(Type::U8, 4)]));
    assert_eq!(Type::Unknown.to_raw_parts(), None);
    assert_eq!(Type::Never.to_raw_parts(), Some(vec![Type::Never]));
}

#[test]
fn what_fits_stays_whole() {
    assert_eq!(Type::U32.split(4), (Type::U32, None));
    assert_eq!(Type::U64.split(0), (Type::U64, None));
    assert_eq!(Type::U64.split(100), (Type::U64, None));
}

#[test]
fn other_types_are_cut_into_bytes() {
    assert_eq!(Type::U16.split(1), (Type::U8, Some(Type::U8)));
    assert_eq!(Type::U32.split(1), (Type::U8, Some(array(Type::U8, 3))));
    assert_eq!(Type::U32.split(3), (array(Type::U8, 3), Some(Type::U8)));
}

#[test]
fn arrays_are_cut_between_elements_or_through_one() {
    let words = array(Type::U32, 4);
    assert_eq!(words.split(8), (array(Type::U32, 2), Some(array(Type::U32, 2))));
    assert_eq!(words.split(12), (array(Type::U32, 3), Some(Type::U32)));
    // Six bytes are an element and a half; two and a half are left.
    let pair = |first, second| struct_of(TypeRepr::Packed(1), vec![first, second]);
    assert_eq!(
        words.split(6),
        (
            pair(array(Type::U32, 1), array(Type::U8, 2)),
            Some(pair(array(Type::U8, 2), array(Type::U32, 2)))
        )
    );
    assert_eq!(words.split(1), (Type::U8, Some(pair(array(Type::U8, 3), array(Type::U32, 3)))));
    assert_eq!(words.split(13), (pair(array(Type::U32, 3), Type::U8), Some(array(Type::U8, 3))));
    assert_eq!(array(Type::U32, 1).split(2), (array(Type::U8, 2), Some(array(Type::U8, 2))));
}

#[test]
fn structs_are_cut_where_the_bytes_end() {
    // { u8, u8, u32, u16 }: the fields are at 0, 1, 4 and 8, and the size is 12.
    let ty = struct_of(TypeRepr::Default, vec![Type::U8, Type::U8, Type::U32, Type::U16]);
    let Type::Struct(StructRef::Plain(whole)) = &ty else { panic!("expected a struct") };
    assert_eq!(whole.size, 12);
    let tail_of = |n| match ty.split(n) {
        (_, Some(Type::Struct(StructRef::Plain(tail)))) => tail,
        parts => panic!("expected a struct, got {parts:?}"),
    };
    // Between two fields.
    assert_eq!(ty.split(1).0, Type::U8);
    assert_eq!(tail_of(1).size, 11);
    assert_eq!(tail_of(1).fields.iter().map(|field| field.offset).collect::<Vec<_>>(), [0, 3, 7]);
    assert_eq!(tail_of(1).repr, TypeRepr::Default);
    // Through padding: two bytes of it are left before a field of alignment four.
    assert_eq!(tail_of(2).fields.iter().map(|field| field.offset).collect::<Vec<_>>(), [2, 6]);
    assert_eq!(tail_of(3).fields.iter().map(|field| field.offset).collect::<Vec<_>>(), [1, 5]);
    assert_eq!(tail_of(3).repr, TypeRepr::Packed(1));
    // At the end of padding.
    assert_eq!(tail_of(4).fields.iter().map(|field| field.offset).collect::<Vec<_>>(), [0, 4]);
    // Through a field.
    assert_eq!(tail_of(5).fields.iter().map(|field| field.offset).collect::<Vec<_>>(), [0, 3]);
    assert_eq!(tail_of(5).fields[0].ty, array(Type::U8, 3));
    assert_eq!(tail_of(5).repr, TypeRepr::Packed(1));
    // Behind the last field there is no data left.
    let (head, tail) = ty.split(11);
    assert_eq!(tail, None);
    assert_eq!(head.size_in_bytes(), 10);
}

#[test]
fn a_transparent_struct_is_cut_as_its_field_is() {
    let ty = struct_of(TypeRepr::Transparent, vec![Type::Never, Type::U64]);
    assert_eq!(ty.split(4), Type::U64.split(4));
}
