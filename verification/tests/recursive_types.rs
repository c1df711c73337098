//! Recursive struct and enum types.
use std::hash::{Hash, Hasher};
use std::mem::size_of;
use std::sync::Arc;

use miden_replay::aggregates::{InvalidDefinition, InvalidEnumTypeError, NameAndType};
use miden_replay::hashing::hash_type;
use miden_replay::recursive::{RecursiveTypeBuilder, MAX_RECURSIVE_GROUP_SIZE};
use miden_replay::templates::{
    EnumTemplate, FieldTemplate, RecursiveTypeError, StructTemplate, TypeTemplate, VariantTemplate,
};
use miden_replay::type_map::TypeMap;
use miden_replay::types::{
    AddressSpace, AggregateKind, ArrayType, CallConv, EnumRef, PointerType, StructRef, StructType, Type, TypeRepr,
};

fn struct_of(fields: Vec<FieldTemplate>) -> StructTemplate {
    StructTemplate::new(TypeRepr::Default, fields)
}

fn node_builder() -> RecursiveTypeBuilder {
    // struct Node { value: u32, next: *Node }
    let mut builder = RecursiveTypeBuilder::new();
    builder.define_struct(
        "Node",
        struct_of(vec![
            FieldTemplate::named("value", TypeTemplate::from(Type::U32)),
            FieldTemplate::named("next", TypeTemplate::ptr(TypeTemplate::rec("Node"))),
        ]),
    );
    builder
}

fn build_one(mut builder: RecursiveTypeBuilder, name: &str) -> Type {
    builder.build().expect("should build").get(name).expect("definition should exist").clone()
}

fn fields_of(ty: &Type) -> Arc<StructType> {
    let Type::Struct(reference) = ty else {
        panic!("expected a struct, got {ty:?}");
    };
    reference.get()
}

#[test]
fn a_recursive_type_prints_without_unfolding_forever() {
    let node = build_one(node_builder(), "Node");
    let printed = node.to_text();

    assert!(printed.contains("Node"), "expected the name in {printed:?}");
    assert_eq!(printed, "struct Node");
}

#[test]
fn type_size_is_pinned() {
    assert_eq!(size_of::<Type>(), 24);
    assert_eq!(size_of::<StructRef>(), 16);
    assert_eq!(size_of::<EnumRef>(), 16);
}

#[test]
fn a_recursive_pointee_equals_the_definition_it_points_at() {
    let node = build_one(node_builder(), "Node");

    let Type::Struct(struct_ref) = &node else {
        panic!("expected a struct, got {node:?}");
    };
    let unfolded = struct_ref.get();
    let Type::Ptr(next) = &unfolded.fields()[1].ty else {
        panic!("expected the `next` field to be a pointer");
    };

    assert_eq!(next.pointee(), &node);
}

#[test]
fn unfolding_preserves_field_names_and_offsets() {
    let node = build_one(node_builder(), "Node");
    let Type::Struct(struct_ref) = &node else {
        panic!("expected a struct")
    };
    let unfolded = struct_ref.get();

    assert_eq!(unfolded.name().as_deref(), Some("Node"));
    assert_eq!(unfolded.fields()[0].name.as_deref(), Some("value"));
    assert_eq!(unfolded.fields()[0].offset, 0);
    assert_eq!(unfolded.fields()[1].name.as_deref(), Some("next"));
    assert_eq!(unfolded.fields()[1].offset, 4);
}

struct Fnv(u64);

impl Hasher for Fnv {
    fn finish(&self) -> u64 {
        self.0
    }

    fn write(&mut self, bytes: &[u8]) {
        for byte in bytes {
            self.0 ^= u64::from(*byte);
            self.0 = self.0.wrapping_mul(0x0000_0100_0000_01b3);
        }
    }
}

fn hash_of(ty: &Type) -> u64 {
    let mut hasher = Fnv(0xcbf2_9ce4_8422_2325);
    ty.hash(&mut hasher);
    hasher.finish()
}

#[test]
fn independently_built_recursive_types_are_equal_and_hash_equal() {
    let first = build_one(node_builder(), "Node");
    let second = build_one(node_builder(), "Node");

    assert_eq!(first, second);
    assert_eq!(hash_of(&first), hash_of(&second));
    assert_eq!(hash_type(&first), hash_type(&second));
}

#[test]
fn mutually_recursive_structs_through_pointers() {
    // struct A { b: *B }   struct B { a: *A }
    let mut builder = RecursiveTypeBuilder::new();
    builder
        .define_struct(
            "A",
            struct_of(vec![FieldTemplate::named("b", TypeTemplate::ptr(TypeTemplate::rec("B")))]),
        )
        .define_struct(
            "B",
            struct_of(vec![FieldTemplate::named("a", TypeTemplate::ptr(TypeTemplate::rec("A")))]),
        );
    let built = builder.build().expect("mutual recursion should build");

    let a = built.get("A").expect("A").clone();
    let b = built.get("B").expect("B").clone();
    assert_eq!(a.size_in_bytes(), 4);
    assert_eq!(b.size_in_bytes(), 4);

    // Descending A -> b -> B -> a yields A again.
    let a_body = fields_of(&a);
    let Type::Ptr(to_b) = &a_body.fields()[0].ty else {
        panic!("expected pointer")
    };
    assert_eq!(to_b.pointee(), &b);

    let b_body = fields_of(to_b.pointee());
    let Type::Ptr(to_a) = &b_body.fields()[0].ty else {
        panic!("expected pointer")
    };
    assert_eq!(to_a.pointee(), &a);
}

#[test]
fn a_cycle_is_guarded_even_when_one_edge_is_not() {
    // struct A { b: B }    struct B { a: *A }
    let mut builder = RecursiveTypeBuilder::new();
    builder
        .define_struct("A", struct_of(vec![FieldTemplate::named("b", TypeTemplate::rec("B"))]))
        .define_struct(
            "B",
            struct_of(vec![FieldTemplate::named("a", TypeTemplate::ptr(TypeTemplate::rec("A")))]),
        );
    let built = builder.build().expect("guarded cycle should build");

    assert_eq!(built.get("A").unwrap().size_in_bytes(), 4);
    assert_eq!(built.get("B").unwrap().size_in_bytes(), 4);
}

fn build_pair(reversed: bool) -> TypeMap {
    let define_a = |builder: &mut RecursiveTypeBuilder| {
        builder.define_struct(
            "A",
            struct_of(vec![FieldTemplate::named("b", TypeTemplate::ptr(TypeTemplate::rec("B")))]),
        );
    };
    let define_b = |builder: &mut RecursiveTypeBuilder| {
        builder.define_struct(
            "B",
            struct_of(vec![FieldTemplate::named("a", TypeTemplate::ptr(TypeTemplate::rec("A")))]),
        );
    };
    let mut builder = RecursiveTypeBuilder::new();
    if reversed {
        define_b(&mut builder);
        define_a(&mut builder);
    } else {
        define_a(&mut builder);
        define_b(&mut builder);
    }
    builder.build().expect("should build")
}

#[test]
fn definition_order_does_not_affect_the_result() {
    let forward = build_pair(false);
    let reversed = build_pair(true);
    assert_eq!(forward.get("A"), reversed.get("A"));
    assert_eq!(forward.get("B"), reversed.get("B"));
}

#[test]
fn direct_recursion_is_rejected() {
    // struct T { value: T } has infinite size.
    let mut builder = RecursiveTypeBuilder::new();
    builder.define_struct("T", struct_of(vec![FieldTemplate::named("value", TypeTemplate::rec("T"))]));

    assert_eq!(builder.build(), Err(RecursiveTypeError::UnguardedRecursion("T".into())));
}

#[test]
fn recursion_through_a_fixed_array_alone_is_rejected() {
    // An array is not a barrier: its layout depends on its element type.
    let mut builder = RecursiveTypeBuilder::new();
    builder.define_struct(
        "T",
        struct_of(vec![FieldTemplate::named("values", TypeTemplate::array(TypeTemplate::rec("T"), 1))]),
    );

    assert_eq!(builder.build(), Err(RecursiveTypeError::UnguardedRecursion("T".into())));
}

#[test]
fn a_wholly_unguarded_mutual_cycle_is_rejected() {
    let mut builder = RecursiveTypeBuilder::new();
    builder
        .define_struct("A", struct_of(vec![FieldTemplate::named("b", TypeTemplate::rec("B"))]))
        .define_struct("B", struct_of(vec![FieldTemplate::named("a", TypeTemplate::rec("A"))]));

    assert!(matches!(builder.build(), Err(RecursiveTypeError::UnguardedRecursion(_))));
}

#[test]
fn a_reference_to_an_undefined_type_is_rejected() {
    let mut builder = RecursiveTypeBuilder::new();
    builder.define_struct(
        "T",
        struct_of(vec![FieldTemplate::named("other", TypeTemplate::ptr(TypeTemplate::rec("Missing")))]),
    );

    assert_eq!(builder.build(), Err(RecursiveTypeError::UndefinedReference("Missing".into())));
}

#[test]
fn duplicate_definition_names_are_rejected() {
    let mut builder = RecursiveTypeBuilder::new();
    builder
        .define_struct("T", struct_of(vec![FieldTemplate::named("a", TypeTemplate::from(Type::U8))]))
        .define_struct("T", struct_of(vec![FieldTemplate::named("b", TypeTemplate::from(Type::U8))]));

    assert_eq!(builder.build(), Err(RecursiveTypeError::DuplicateName("T".into())));
}

fn ring(count: usize) -> RecursiveTypeBuilder {
    let mut builder = RecursiveTypeBuilder::new();
    for i in 0..count {
        // Each definition points at the next, and the last wraps around.
        let next = format!("T{:03}", (i + 1) % count);
        builder.define_struct(
            &format!("T{i:03}"),
            struct_of(vec![FieldTemplate::named("next", TypeTemplate::ptr(TypeTemplate::rec(&next)))]),
        );
    }
    builder
}

#[test]
fn a_group_larger_than_the_cap_is_rejected() {
    let count = MAX_RECURSIVE_GROUP_SIZE + 1;
    assert!(matches!(
        ring(count).build(),
        Err(RecursiveTypeError::GroupTooLarge(_, n)) if n == count
    ));
}

#[test]
fn a_group_at_the_cap_is_accepted() {
    let count = MAX_RECURSIVE_GROUP_SIZE;
    let built = ring(count).build().expect("a group at the cap should build");
    assert_eq!(built.len(), count);
    assert_eq!(built.get("T000").unwrap().size_in_bytes(), 4);
}

// MORE OF THE SAME
// ================================================================================================

#[test]
fn an_empty_name_is_rejected() {
    let mut builder = RecursiveTypeBuilder::new();
    builder.define_struct("", struct_of(vec![]));
    assert_eq!(builder.build(), Err(RecursiveTypeError::EmptyName));
    // A builder has no definitions once it has built.
    assert_eq!(builder.build().expect("nothing to build").len(), 0);
}

#[test]
fn the_first_undefined_reference_is_the_least() {
    let mut builder = RecursiveTypeBuilder::new();
    builder
        .define_struct("A", struct_of(vec![FieldTemplate::named("b", TypeTemplate::rec("B"))]))
        .define_struct(
            "B",
            struct_of(vec![
                FieldTemplate::named("z", TypeTemplate::rec("Z")),
                FieldTemplate::named("y", TypeTemplate::rec("Y")),
                FieldTemplate::named("a", TypeTemplate::ptr(TypeTemplate::rec("A"))),
            ]),
        );
    assert_eq!(builder.build(), Err(RecursiveTypeError::UndefinedReference("Y".into())));
}

#[test]
fn a_plain_definition_is_not_recursive() {
    let mut builder = RecursiveTypeBuilder::new();
    builder
        .define_struct("Outer", struct_of(vec![
            FieldTemplate::named("tag", TypeTemplate::from(Type::U8)),
            FieldTemplate::named("inner", TypeTemplate::rec("Inner")),
        ]))
        .define_struct("Inner", struct_of(vec![FieldTemplate::named("value", TypeTemplate::from(Type::U64))]));
    let built = builder.build().expect("should build");
    assert_eq!(built.len(), 2);
    let outer = built.get("Outer").expect("Outer");
    assert!(matches!(outer, Type::Struct(StructRef::Plain(_))));
    assert_eq!(outer.size_in_bytes(), 12);
    let body = fields_of(outer);
    assert_eq!(body.fields()[1].offset, 4);
    assert_eq!(&body.fields()[1].ty, built.get("Inner").expect("Inner"));
    assert!(built.get("Missing").is_none());
}

#[test]
fn a_recursive_enum_unfolds() {
    // enum List { Nil, Cons { head: u32, tail: *List } }
    let mut builder = RecursiveTypeBuilder::new();
    builder.define_enum(
        "List",
        EnumTemplate::new("List", Type::U8, vec![
            VariantTemplate::c_like("Nil", None),
            VariantTemplate::new(
                "Cons",
                TypeTemplate::struct_type(TypeRepr::Default, vec![
                    FieldTemplate::from(TypeTemplate::from(Type::U32)),
                    FieldTemplate::from(TypeTemplate::ptr(TypeTemplate::rec("List"))),
                ]),
                None,
            ),
        ]),
    );
    let list = build_one(builder, "List");
    let Type::Enum(EnumRef::Rec(reference)) = &list else {
        panic!("expected a recursive enum")
    };
    assert_eq!(&**reference.name(), "List");
    assert_eq!(reference.kind(), AggregateKind::Enum);
    assert_eq!(reference.kind().keyword(), "enum");
    assert_eq!(reference.group_len(), 1);
    // One byte of discriminant, three of padding, and eight of payload.
    assert_eq!(reference.layout().size_in_bytes(), 12);
    assert_eq!(reference.layout().min_alignment(), 4);
    assert!(!reference.layout().is_zst());
    let Type::Enum(reference) = &list else { unreachable!() };
    let body = reference.get();
    assert_eq!(body.size, 12);
    assert_eq!(body.offsets, vec![0, 4]);
    let payload = body.variants[1].value.as_ref().expect("a payload");
    let fields = fields_of(payload);
    let Type::Ptr(tail) = &fields.fields()[1].ty else {
        panic!("expected a pointer")
    };
    assert_eq!(tail.pointee(), &list);
}

#[test]
fn lists_and_functions_are_barriers() {
    let mut builder = RecursiveTypeBuilder::new();
    builder.define_struct("T", struct_of(vec![
        FieldTemplate::named("children", TypeTemplate::list(TypeTemplate::rec("T"))),
        FieldTemplate::named(
            "visit",
            TypeTemplate::function(CallConv::C, vec![TypeTemplate::rec("T")], vec![TypeTemplate::from(Type::I1)]),
        ),
        FieldTemplate::named("parent", TypeTemplate::ptr_in(AddressSpace::Element, TypeTemplate::rec("T"))),
    ]));
    let ty = build_one(builder, "T");
    assert_eq!(ty.size_in_bytes(), 16);
    let body = fields_of(&ty);
    let Type::List(element) = &body.fields()[0].ty else {
        panic!("expected a list")
    };
    assert_eq!(&**element, &ty);
    let Type::Function(function) = &body.fields()[1].ty else {
        panic!("expected a function")
    };
    assert_eq!(function.params[0], ty);
    assert_eq!(function.results[0], Type::I1);
    assert_eq!(
        body.fields()[1].ty.to_text(),
        "extern \"C\" fn(struct T) -> i1"
    );
}

#[test]
fn a_stand_in_reproduces_the_layout_exactly() {
    // struct B is packed to 4 bytes of alignment although its fields need none: it has 3 bytes.
    // struct A { b: B, c: u8 }, where B refers to A below a pointer of an empty array.
    let mut builder = RecursiveTypeBuilder::new();
    builder
        .define_struct("A", struct_of(vec![
            FieldTemplate::named("b", TypeTemplate::rec("B")),
            FieldTemplate::named("c", TypeTemplate::from(Type::U8)),
        ]))
        .define_struct("B", StructTemplate::new(TypeRepr::Packed(4), vec![
            FieldTemplate::named("x", TypeTemplate::from(Type::U8)),
            FieldTemplate::named("y", TypeTemplate::from(Type::U8)),
            FieldTemplate::named("z", TypeTemplate::from(Type::U8)),
            FieldTemplate::named(
                "back",
                TypeTemplate::array(TypeTemplate::struct_type(TypeRepr::Packed(1), vec![FieldTemplate::from(
                    TypeTemplate::ptr(TypeTemplate::rec("A")),
                )]), 0),
            ),
        ]));
    let built = builder.build().expect("should build");
    let b = built.get("B").expect("B");
    assert_eq!(b.size_in_bytes(), 3);
    assert_eq!(b.min_alignment(), 4);
    let a = fields_of(built.get("A").expect("A"));
    assert_eq!(a.fields()[1].offset, 3);
    assert_eq!(built.get("A").expect("A").size_in_bytes(), 4);
}

#[test]
fn different_recursive_types_differ() {
    let node = build_one(node_builder(), "Node");
    let pair = build_pair(false);
    assert_ne!(&node, pair.get("A").unwrap());
    assert_ne!(pair.get("A"), pair.get("B"));
    assert_ne!(hash_type(&node), hash_type(pair.get("A").unwrap()));
}

#[test]
fn an_enum_that_cannot_be_made_is_rejected() {
    let build = |discriminant: Type, variants: Vec<VariantTemplate>| {
        let mut builder = RecursiveTypeBuilder::new();
        builder.define_enum("E", EnumTemplate::new("E", discriminant, variants));
        match builder.build() {
            Err(RecursiveTypeError::InvalidDefinition(InvalidDefinition::Enum(error))) => error,
            other => panic!("unexpected {other:?}"),
        }
    };
    let error = build(Type::U256, vec![]);
    assert_eq!(error, InvalidEnumTypeError::InvalidDiscriminantType(Type::U256));
    assert_eq!(error.message(), "invalid discriminant type 'u256': expected integer type");

    let error = build(Type::U8, vec![VariantTemplate::c_like("A", Some(256))]);
    assert_eq!(
        error.message(),
        "invalid enum variant 'A': discriminant value 256 is out of range for u8"
    );

    let error = build(Type::U8, vec![VariantTemplate::c_like("A", Some(255)), VariantTemplate::c_like("B", None)]);
    assert_eq!(
        error.message(),
        "invalid enum variant 'B': discriminant value is out of range for u8, preceding variant had value 255"
    );

    let error = build(Type::U8, vec![VariantTemplate::c_like("A", None), VariantTemplate::c_like("A", None)]);
    assert_eq!(error, InvalidEnumTypeError::DuplicateVariant { variant: "A".into() });

    let error = build(Type::U8, vec![VariantTemplate::c_like("A", None), VariantTemplate::c_like("B", Some(0))]);
    assert_eq!(error, InvalidEnumTypeError::DuplicateDiscriminantValue { variant: "A".into(), value: 0 });
}

#[test]
fn a_layout_out_of_range_is_rejected() {
    let mut builder = RecursiveTypeBuilder::new();
    builder.define_struct("T", StructTemplate::new(TypeRepr::Align(3), vec![]));
    let error = builder.build().unwrap_err();
    assert_eq!(error, RecursiveTypeError::InvalidDefinition(InvalidDefinition::Layout));

    let mut builder = RecursiveTypeBuilder::new();
    builder.define_struct("T", struct_of(vec![FieldTemplate::named(
        "big",
        TypeTemplate::array(TypeTemplate::from(Type::U32), 1 << 30),
    )]));
    assert_eq!(
        builder.build(),
        Err(RecursiveTypeError::InvalidDefinition(InvalidDefinition::Layout))
    );
}

#[test]
fn errors_have_messages() {
    assert_eq!(
        RecursiveTypeError::EmptyName.message(),
        "invalid recursive type: definition name must not be empty"
    );
    assert_eq!(
        RecursiveTypeError::DuplicateName("T".into()).message(),
        "invalid recursive type: duplicate definition name 'T'"
    );
    assert_eq!(
        RecursiveTypeError::UndefinedReference("T".into()).message(),
        "invalid recursive type: reference to undefined type 'T'"
    );
    assert_eq!(
        RecursiveTypeError::UnguardedRecursion("T".into()).message(),
        "invalid recursive type: 'T' is recursive without an intervening pointer, list, or function, \
         so it would have infinite size"
    );
    assert_eq!(
        RecursiveTypeError::GroupTooLarge("T".into(), 65).message(),
        "invalid recursive type: group containing 'T' has 65 definitions, but no more than 64 are allowed"
    );
}

#[test]
fn hashes_are_those_of_the_encoding() {
    // A scalar is encoded by two bytes; an array by a byte, its length in eight, and its element.
    assert_eq!(hash_type(&Type::U32), 0x8327f07b4eb60a2);
    let array = Type::Array(Arc::new(ArrayType { ty: Type::U32, len: 3 }));
    assert_eq!(hash_type(&array), 0x429dbacfc93dc241);
}

#[test]
fn built_names_come_in_ascending_order() {
    let mut builder = RecursiveTypeBuilder::default();
    for name in ["c", "a", "b", "aa"] {
        builder.define_struct(name, struct_of(vec![]));
    }
    let built = builder.build().expect("should build");
    let names = built.names();
    assert_eq!(names.iter().map(|name| &**name).collect::<Vec<_>>(), ["a", "aa", "b", "c"]);
    assert!(names.iter().all(|name| built.get(name).is_some()));
    assert!(TypeMap::new().names().is_empty());
}

#[test]
fn templates_are_copied() {
    let template = EnumTemplate::new(
        "E",
        Type::U8,
        vec![
            VariantTemplate::c_like("A", Some(1)),
            VariantTemplate::new(
                "B",
                TypeTemplate::struct_type(
                    TypeRepr::Default,
                    vec![
                        FieldTemplate::named("list", TypeTemplate::list(TypeTemplate::rec("E"))),
                        FieldTemplate::from(TypeTemplate::array(TypeTemplate::from(Type::U16), 2)),
                        FieldTemplate::from(TypeTemplate::function(
                            CallConv::C,
                            vec![TypeTemplate::ptr(TypeTemplate::rec("E"))],
                            vec![TypeTemplate::from(Type::Felt)],
                        )),
                    ],
                ),
                None,
            ),
        ],
    );
    let copy = template.clone();
    assert_eq!(format!("{copy:?}"), format!("{template:?}"));
    let build = |template: EnumTemplate| {
        let mut builder = RecursiveTypeBuilder::new();
        builder.define_enum("E", template);
        builder.build().expect("should build")
    };
    assert_eq!(build(template), build(copy));
}

#[test]
fn kinds_are_ordered() {
    assert!(AggregateKind::Struct < AggregateKind::Enum);
}

#[test]
fn a_recursive_struct_lowers_the_same_as_an_equivalent_non_recursive_one() {
    // Lowering a recursive aggregate opaquely would give two callers of the same signature different
    // operand-stack layouts. Unfolding is available with no context, so the recursive form lowers
    // identically to the shape it denotes.
    let node = build_one(node_builder(), "Node");

    let equivalent = Type::Struct(StructRef::Plain(Arc::new(
        StructType::from_parts(
            Some(Arc::from("Node")),
            TypeRepr::Default,
            &vec![
                NameAndType { name: Some(Arc::from("value")), ty: Type::U32 },
                NameAndType {
                    name: Some(Arc::from("next")),
                    ty: Type::Ptr(Arc::new(PointerType::new(Type::U32))),
                },
            ],
        )
        .expect("should lay out"),
    )));

    let recursive_parts = node.clone().to_raw_parts().expect("should lower");
    let equivalent_parts = equivalent.to_raw_parts().expect("should lower");

    assert_eq!(recursive_parts.len(), equivalent_parts.len());
    assert_eq!(recursive_parts.len(), 2);
    assert_eq!(recursive_parts[0], Type::U32);
    // The second part is the pointer field in both cases; only its pointee differs.
    assert!(recursive_parts[1].is_pointer());
    assert!(equivalent_parts[1].is_pointer());
}

#[test]
fn splitting_a_recursive_struct_terminates_and_preserves_field_structure() {
    let node = build_one(node_builder(), "Node");

    let (head, tail) = node.split(4);
    assert_eq!(head, Type::U32);
    let tail = tail.expect("the pointer field should remain");
    assert!(tail.is_pointer());
}

#[test]
fn a_type_feeds_its_hash_alone() {
    struct Numbers(Vec<u64>);
    impl Hasher for Numbers {
        fn finish(&self) -> u64 {
            0
        }
        fn write(&mut self, _bytes: &[u8]) {
            panic!("expected numbers only");
        }
        fn write_u16(&mut self, number: u16) {
            self.0.push(number.into());
        }
        fn write_u64(&mut self, number: u64) {
            self.0.push(number);
        }
    }
    let node = build_one(node_builder(), "Node");
    let mut numbers = Numbers(vec![]);
    node.hash(&mut numbers);
    assert_eq!(numbers.0, [hash_type(&node)]);
    // A reference feeds its index and the hash of its group.
    let Type::Struct(StructRef::Rec(reference)) = &node else { panic!("expected a recursive struct") };
    let mut numbers = Numbers(vec![]);
    reference.hash(&mut numbers);
    assert_eq!(numbers.0.len(), 2);
    assert_eq!(numbers.0[0], 0);
}
