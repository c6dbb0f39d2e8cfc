//! The handlers of a runner, one call at a time.
use facet_core::{
    Def, EnumRepr, EnumType, Facet, Field, FieldFlags, Repr, Shape, StructKind, StructType, Type,
    UserType,
};
use facet_deserialize::{
    DeserErrorKind, Float64, FloatWidth, Instruction, Number, Outcome, PopReason, Scalar, Span,
    Spanned, StackRunner, ValueReason,
};
use facet_reflect::{Partial, ReflectError};
use std::borrow::Cow;

fn runner() -> StackRunner<'static> {
    StackRunner {
        original_input: b"original",
        input: b"original",
        stack: vec![Instruction::Pop(PopReason::TopLevel)],
        last_span: Span::new(4, 2),
        format_source: "test",
        array_indices: vec![],
        enum_tuple_field_count: None,
        enum_tuple_current_field: None,
    }
}

fn wip(shape: &'static Shape) -> Partial<'static> {
    Partial::alloc_shape(shape).unwrap()
}

fn spanned(node: Outcome<'static>) -> Spanned<Outcome<'static>> {
    Spanned { node, span: Span::new(4, 2) }
}

fn text(s: &'static str) -> Outcome<'static> {
    Outcome::Scalar(Scalar::String(Cow::Borrowed(s)))
}

fn named(flags: FieldFlags) -> &'static Shape {
    let mut shape = *<(u32, String)>::SHAPE;
    let mut fields: Vec<Field> = match shape.ty {
        Type::User(UserType::Struct(st)) => st.fields.to_vec(),
        _ => panic!("not a struct"),
    };
    fields[0].name = "x";
    fields[1].name = "name";
    fields[1].flags = flags;
    shape.ty = Type::User(UserType::Struct(StructType {
        repr: Repr::default(),
        kind: StructKind::Struct,
        fields: Box::leak(fields.into_boxed_slice()),
    }));
    Box::leak(Box::new(shape))
}

fn enumeration() -> &'static Shape {
    let mut shape = *u64::SHAPE;
    shape.def = Def::Undefined;
    shape.ty = Type::User(UserType::Enum(EnumType {
        repr: Repr::default(),
        enum_repr: EnumRepr::U64,
        variants: &[],
    }));
    Box::leak(Box::new(shape))
}

#[test]
fn errors_are_placed_in_the_input() {
    let r = runner();
    let e = r.err(DeserErrorKind::Unimplemented("x"));
    assert_eq!(e.input, b"original");
    assert_eq!(e.span, Span::new(4, 2));
    let e = r.reflect_err(ReflectError::Unknown);
    assert!(matches!(e.kind, DeserErrorKind::ReflectError(ReflectError::Unknown)));
    assert_eq!(e.span, Span::new(4, 2));
}

#[test]
fn a_complete_struct_is_popped_as_it_is() {
    let mut w = wip(named(FieldFlags::EMPTY));
    w.begin_nth_field(0).unwrap().set(1u32).unwrap().end().unwrap();
    w.begin_nth_field(1).unwrap().set("n".to_string()).unwrap().end().unwrap();
    let mut r = runner();
    let mut w = r.pop(w, PopReason::TopLevel).ok().unwrap();
    assert_eq!(w.frame_count(), 1);
    assert_eq!(r.stack, vec![Instruction::Pop(PopReason::TopLevel)]);
    let value = w.build().unwrap().materialize::<(u32, String)>().unwrap();
    assert_eq!(value, (1, "n".to_string()));
}

#[test]
fn popping_fills_in_defaults() {
    let mut w = wip(named(FieldFlags::DEFAULT));
    w.begin_nth_field(0).unwrap().set(1u32).unwrap().end().unwrap();
    let mut w = runner().pop(w, PopReason::ObjectVal).ok().unwrap();
    assert_eq!(w.is_field_set(1).ok(), Some(true));
    let value = w.build().unwrap().materialize::<(u32, String)>().unwrap();
    assert_eq!(value, (1, String::new()));
}

#[test]
fn popping_reports_the_first_missing_field() {
    let e = runner().pop(wip(named(FieldFlags::DEFAULT)), PopReason::TopLevel).err().unwrap();
    match e.kind {
        DeserErrorKind::ReflectError(ReflectError::UninitializedField { field_name, .. }) => {
            assert_eq!(field_name, "x")
        }
        other => panic!("{:?}", other),
    }
    assert_eq!(e.span, Span::new(4, 2));
}

#[test]
fn popping_a_custom_value_leaves_it_alone() {
    let w = wip(named(FieldFlags::EMPTY));
    let w = runner().pop(w, PopReason::CustomDeserialization).ok().unwrap();
    assert_eq!(w.is_field_set(0).ok(), Some(false));
}

#[test]
fn popping_a_scalar_does_nothing() {
    let w = runner().pop(wip(u32::SHAPE), PopReason::ListVal).ok().unwrap();
    assert_eq!(w.is_field_set(0).ok(), Some(false));
}

#[test]
fn wraps_are_ended_in_the_order_they_were_entered() {
    let mut r = runner();
    let mut w = wip(<Option<Box<Option<u32>>>>::SHAPE);
    let handled = r.value(&mut w, spanned(Outcome::Scalar(Scalar::U64(3))));
    assert!(matches!(handled, Ok(None)));
    assert_eq!(w.frame_count(), 4);
    assert_eq!(
        r.stack,
        vec![
            Instruction::Pop(PopReason::TopLevel),
            Instruction::Pop(PopReason::OptionSome),
            Instruction::Pop(PopReason::SmartPointer),
            Instruction::Pop(PopReason::OptionSome),
        ]
    );
}

#[test]
fn a_null_enters_nothing() {
    let mut r = runner();
    let mut w = wip(<Option<Box<Option<u32>>>>::SHAPE);
    assert!(matches!(r.value(&mut w, spanned(Outcome::Scalar(Scalar::Null))), Ok(None)));
    assert_eq!(w.frame_count(), 1);
    assert_eq!(r.stack, vec![Instruction::Pop(PopReason::TopLevel)]);
}

#[test]
fn a_key_leaves_its_value_to_be_read() {
    let mut r = runner();
    let mut w = wip(named(FieldFlags::EMPTY));
    r.object_key_or_object_close(&mut w, spanned(text("name"))).unwrap();
    assert_eq!(w.frame_count(), 2);
    assert_eq!(w.shape(), String::SHAPE);
    assert_eq!(
        r.stack,
        vec![
            Instruction::Pop(PopReason::TopLevel),
            Instruction::ObjectKeyOrObjectClose,
            Instruction::Pop(PopReason::ObjectVal),
            Instruction::Value(ValueReason::ObjectVal),
        ]
    );
}

#[test]
fn there_is_a_frame_for_every_end() {
    let owed = |r: &StackRunner<'_>| {
        r.stack.iter().filter(|i| matches!(i, Instruction::Pop(_))).count() - 1
    };
    let mut r = runner();
    let mut w = wip(<Vec<Option<[u8; 2]>>>::SHAPE);
    for node in [
        Outcome::ListStarted,
        Outcome::ListStarted,
        Outcome::Scalar(Scalar::U64(1)),
    ] {
        let handled = if r.stack.len() == 1 {
            r.value(&mut w, spanned(node))
        } else {
            r.list_item_or_list_close(&mut w, spanned(node))
        };
        assert!(matches!(handled, Ok(None)));
        assert_eq!(w.frame_count() - 1, owed(&r));
    }
    assert_eq!(w.frame_count(), 4);
}

#[test]
fn an_unknown_key_leaves_its_value_to_be_skipped() {
    let mut r = runner();
    let mut w = wip(named(FieldFlags::EMPTY));
    r.object_key_or_object_close(&mut w, spanned(text("?"))).unwrap();
    assert_eq!(w.frame_count(), 1);
    assert_eq!(
        r.stack,
        vec![
            Instruction::Pop(PopReason::TopLevel),
            Instruction::ObjectKeyOrObjectClose,
            Instruction::SkipValue,
        ]
    );
    r.stack.truncate(1);
    r.object_key_or_object_close(&mut w, spanned(Outcome::ObjectEnded)).unwrap();
    assert_eq!(r.stack, vec![Instruction::Pop(PopReason::TopLevel)]);
}

#[test]
fn array_items_raise_the_index() {
    let mut r = runner();
    let mut w = wip(<[u8; 2]>::SHAPE);
    assert!(matches!(r.value(&mut w, spanned(Outcome::ListStarted)), Ok(None)));
    assert_eq!(r.array_indices, vec![0]);
    let item = || spanned(Outcome::Scalar(Scalar::U64(7)));
    assert!(matches!(r.list_item_or_list_close(&mut w, item()), Ok(None)));
    assert_eq!(r.array_indices, vec![1]);
    assert_eq!(
        r.stack[1..],
        [
            Instruction::ListItemOrListClose,
            Instruction::ListItemOrListClose,
            Instruction::Pop(PopReason::ListVal),
        ]
    );
    w.end().unwrap();
    assert!(matches!(r.list_item_or_list_close(&mut w, item()), Ok(None)));
    assert_eq!(r.array_indices, vec![2]);
    w.end().unwrap();
    let e = r.list_item_or_list_close(&mut w, item()).err().unwrap();
    assert!(matches!(e.kind, DeserErrorKind::ArrayOverflow { max_len: 2, .. }));
    assert_eq!(r.array_indices, vec![2]);
    assert!(matches!(r.list_item_or_list_close(&mut w, spanned(Outcome::ListEnded)), Ok(None)));
    assert!(r.array_indices.is_empty());
}

#[test]
fn array_items_without_an_index() {
    let mut w = wip(<[u8; 2]>::SHAPE);
    let item = spanned(Outcome::Scalar(Scalar::U64(7)));
    let e = runner().list_item_or_list_close(&mut w, item).err().unwrap();
    assert!(matches!(
        e.kind,
        DeserErrorKind::Unimplemented("Array index tracking not initialized")
    ));
}

#[test]
fn items_for_what_takes_none() {
    let item = || spanned(Outcome::Scalar(Scalar::U64(7)));
    for shape in [u32::SHAPE, named(FieldFlags::EMPTY)] {
        let e = runner().list_item_or_list_close(&mut wip(shape), item()).err().unwrap();
        match e.kind {
            DeserErrorKind::UnsupportedType { wanted, .. } => {
                assert_eq!(wanted, "array, list, or tuple")
            }
            other => panic!("{:?}", other),
        }
    }
    let e = runner().list_item_or_list_close(&mut wip(enumeration()), item()).err();
    match e.map(|e| e.kind) {
        Some(DeserErrorKind::UnsupportedType { wanted, .. }) => {
            assert_eq!(wanted, "enum with tuple variant selected")
        }
        other => panic!("{:?}", other),
    }
}

#[test]
fn the_end_of_a_list_in_a_tuple_variant() {
    let mut r = runner();
    r.enum_tuple_field_count = Some(2);
    r.enum_tuple_current_field = Some(1);
    let w = &mut wip(enumeration());
    assert!(matches!(r.list_item_or_list_close(w, spanned(Outcome::ListEnded)), Ok(None)));
    assert_eq!(r.enum_tuple_field_count, None);
    assert_eq!(r.enum_tuple_current_field, None);
}

#[test]
fn numbers_for_floating_point_come_back() {
    let mut w = wip(f32::SHAPE);
    let request = runner().set_numeric_value(&mut w, &5i64).ok().unwrap().unwrap();
    assert_eq!(request.width, FloatWidth::Single);
    assert_eq!(request.value, Number::I64(5));
    assert_eq!(w.is_field_set(0).ok(), Some(false));
    let mut w = wip(f64::SHAPE);
    let bits = 2.5f64.to_bits();
    let request =
        runner().handle_scalar(&mut w, Scalar::F64(Float64 { bits })).ok().unwrap().unwrap();
    assert_eq!(request.width, FloatWidth::Double);
    assert_eq!(request.value, Number::F64(Float64 { bits }));
}

#[test]
fn scalars_are_stored() {
    let mut w = wip(u16::SHAPE);
    assert!(matches!(runner().set_numeric_value(&mut w, &600u64), Ok(None)));
    assert_eq!(w.build().unwrap().materialize::<u16>().unwrap(), 600);
    let mut w = wip(bool::SHAPE);
    assert!(matches!(runner().handle_scalar(&mut w, Scalar::Bool(true)), Ok(None)));
    assert!(w.build().unwrap().materialize::<bool>().unwrap());
    let mut w = wip(String::SHAPE);
    assert!(matches!(runner().handle_scalar(&mut w, Scalar::Null), Ok(None)));
    assert_eq!(w.build().unwrap().materialize::<String>().unwrap(), "");
}
