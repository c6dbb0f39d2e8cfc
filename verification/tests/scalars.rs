//! Scalars, outcomes and spans on their own.
use facet_deserialize::driver::expectation;
use facet_deserialize::shape::constructible_from_pointee;
use facet_core::Facet;
use facet_deserialize::{
    DeserError, DeserErrorKind, Expectation, Float64, Instruction, Outcome, PopReason, Scalar, Span,
    ValueReason,
};
use facet_reflect::ReflectError;
use std::borrow::Cow;

#[test]
fn texts_of_scalars() {
    assert_eq!(Scalar::String(Cow::Borrowed("a\"b")).text(""), "string \"a\"b\"");
    assert_eq!(Scalar::String(Cow::Owned("own".to_string())).text(""), "string \"own\"");
    assert_eq!(Scalar::U64(0).text(""), "u64 0");
    assert_eq!(Scalar::U64(u64::MAX).text(""), "u64 18446744073709551615");
    assert_eq!(Scalar::I64(-1234567890).text(""), "i64 -1234567890");
    assert_eq!(Scalar::I64(i64::MIN).text(""), "i64 -9223372036854775808");
    assert_eq!(Scalar::F64(Float64 { bits: 1.5f64.to_bits() }).text("1.5"), "f64 1.5");
    assert_eq!(Scalar::U128(u128::MAX).text(""), format!("u128 {}", u128::MAX));
    assert_eq!(Scalar::I128(i128::MIN).text(""), format!("i128 {}", i128::MIN));
    assert_eq!(Scalar::I128(907).text(""), "i128 907");
    assert_eq!(Scalar::Bool(true).text(""), "bool true");
    assert_eq!(Scalar::Bool(false).text(""), "bool false");
    assert_eq!(Scalar::Null.text(""), "null");
}

#[test]
fn texts_of_outcomes() {
    assert_eq!(Outcome::from(Scalar::U64(7)).text(""), "scalar u64 7");
    assert_eq!(Outcome::ListStarted.text(""), "list start");
    assert_eq!(Outcome::ListEnded.text(""), "list end");
    assert_eq!(Outcome::ObjectStarted.text(""), "object start");
    assert_eq!(Outcome::ObjectEnded.text(""), "object end");
}

#[test]
fn owned_outcomes() {
    let input = String::from("key");
    let outcome = Outcome::Scalar(Scalar::String(Cow::Borrowed(input.as_str())));
    let copy = outcome.clone();
    assert_eq!(copy, outcome);
    let owned: Outcome<'static> = outcome.into_owned();
    drop(copy);
    drop(input);
    assert!(matches!(&owned, Outcome::Scalar(Scalar::String(Cow::Owned(s))) if s == "key"));
    for scalar in [
        Scalar::U64(1),
        Scalar::I64(-1),
        Scalar::F64(Float64 { bits: 0 }),
        Scalar::U128(2),
        Scalar::I128(-2),
        Scalar::Bool(true),
        Scalar::Null,
    ] {
        let outcome = Outcome::from(scalar);
        assert_eq!(outcome.clone().into_owned(), outcome);
    }
    for outcome in
        [Outcome::ListStarted, Outcome::ListEnded, Outcome::ObjectStarted, Outcome::ObjectEnded]
    {
        assert_eq!(outcome.clone().into_owned(), outcome);
    }
}

#[test]
fn spans() {
    let span = Span::new(3, 4);
    assert_eq!(span.start(), 3);
    assert_eq!(span.len(), 4);
    assert_eq!(span.end(), 7);
    assert!(!span.is_empty());
    assert!(Span::default().is_empty());
    assert_eq!(Span::default(), Span::new(0, 0));
}

#[test]
fn errors_hold_what_they_are_given() {
    let e = DeserError::new(DeserErrorKind::Unimplemented("x"), b"abc", Span::new(1, 2));
    assert_eq!(e.input, b"abc");
    assert_eq!(e.span, Span::new(1, 2));
    assert!(matches!(e.kind, DeserErrorKind::Unimplemented("x")));
    let e = DeserError::new_reflect(ReflectError::Unknown, b"abc", Span::new(0, 1));
    assert!(matches!(e.kind, DeserErrorKind::ReflectError(ReflectError::Unknown)));
    assert_eq!(e.span, Span::new(0, 1));
}

#[test]
fn what_a_format_is_asked_for() {
    assert_eq!(expectation(Instruction::Value(ValueReason::TopLevel)), Some(Expectation::Value));
    assert_eq!(
        expectation(Instruction::Value(ValueReason::ObjectVal)),
        Some(Expectation::ObjectVal)
    );
    assert_eq!(
        expectation(Instruction::ObjectKeyOrObjectClose),
        Some(Expectation::ObjectKeyOrObjectClose)
    );
    assert_eq!(
        expectation(Instruction::ListItemOrListClose),
        Some(Expectation::ListItemOrListClose)
    );
    assert_eq!(expectation(Instruction::SkipValue), None);
    assert_eq!(expectation(Instruction::Pop(PopReason::TopLevel)), None);
}

#[test]
fn pointers_made_from_their_pointee() {
    assert!(constructible_from_pointee(<Box<u32>>::SHAPE).is_some());
    assert!(constructible_from_pointee(<std::sync::Arc<str>>::SHAPE).is_some());
    assert!(constructible_from_pointee(<std::sync::Weak<u32>>::SHAPE).is_none());
    assert!(constructible_from_pointee(u32::SHAPE).is_none());
}
