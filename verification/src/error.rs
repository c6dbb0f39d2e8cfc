//! What can go wrong, and where.
use crate::scalar::{Outcome, OutcomeView};
use crate::span::Span;
use facet_core::Shape;
use facet_reflect::{ReflectError, VariantError};
use vstd::prelude::*;

verus! {

/// The kinds of error that deserialization ends in.
#[allow(inconsistent_fields)]
#[derive(Debug)]
pub enum DeserErrorKind {
    /// The input holds something else than what has to stand here.
    UnexpectedOutcome {
        /// What was read.
        got: Outcome<'static>,
        /// What would have been accepted.
        wanted: &'static str,
    },
    /// The target type cannot take what the input holds.
    UnsupportedType {
        /// The target type.
        got: &'static Shape,
        /// What would have been accepted.
        wanted: &'static str,
    },
    /// A number does not fit the target type.
    NumericConversion {
        /// The kind of the number that was read.
        from: &'static str,
        /// The target type.
        to: &'static str,
    },
    /// An enum has no variant of the name that was read.
    NoSuchVariant {
        /// The name that was read.
        name: String,
        /// The enum.
        enum_shape: &'static Shape,
    },
    /// An object has a key that its type does not know, and the type denies such keys.
    UnknownField {
        /// The key that was read.
        field_name: String,
        /// The type.
        shape: &'static Shape,
    },
    /// A list holds more items than the target type.
    ArrayOverflow {
        /// The target type.
        shape: &'static Shape,
        /// The number of items that it holds.
        max_len: usize,
    },
    /// The value is complete, but the input goes on behind it.
    InputLeft,
    /// Something that is not supported.
    Unimplemented(&'static str),
    /// Building the value failed.
    ReflectError(ReflectError),
    /// The variant of an enum value cannot be read.
    VariantError(VariantError),
}

/// What an error kind holds, with its texts as sequences of characters.
#[allow(inconsistent_fields)]
pub enum ErrorView {
    UnexpectedOutcome { got: OutcomeView, wanted: Seq<char> },
    UnsupportedType { got: &'static Shape, wanted: Seq<char> },
    NumericConversion { from: Seq<char>, to: Seq<char> },
    NoSuchVariant { name: Seq<char>, enum_shape: &'static Shape },
    UnknownField { field_name: Seq<char>, shape: &'static Shape },
    ArrayOverflow { shape: &'static Shape, max_len: usize },
    InputLeft,
    Unimplemented(Seq<char>),
    ReflectError(ReflectError),
    VariantError(VariantError),
}

impl View for DeserErrorKind {
    type V = ErrorView;

    open spec fn view(&self) -> ErrorView {
        match self {
            DeserErrorKind::UnexpectedOutcome { got, wanted } => ErrorView::UnexpectedOutcome {
                got: got@,
                wanted: wanted@,
            },
            DeserErrorKind::UnsupportedType { got, wanted } => ErrorView::UnsupportedType {
                got: *got,
                wanted: wanted@,
            },
            DeserErrorKind::NumericConversion { from, to } => ErrorView::NumericConversion {
                from: from@,
                to: to@,
            },
            DeserErrorKind::NoSuchVariant { name, enum_shape } => ErrorView::NoSuchVariant {
                name: name@,
                enum_shape: *enum_shape,
            },
            DeserErrorKind::UnknownField { field_name, shape } => ErrorView::UnknownField {
                field_name: field_name@,
                shape: *shape,
            },
            DeserErrorKind::ArrayOverflow { shape, max_len } => ErrorView::ArrayOverflow {
                shape: *shape,
                max_len: *max_len,
            },
            DeserErrorKind::InputLeft => ErrorView::InputLeft,
            DeserErrorKind::Unimplemented(what) => ErrorView::Unimplemented(what@),
            DeserErrorKind::ReflectError(e) => ErrorView::ReflectError(*e),
            DeserErrorKind::VariantError(e) => ErrorView::VariantError(*e),
        }
    }
}

/// An error, with the input and the place in it where it came up.
#[derive(Debug)]
pub struct DeserError<'input> {
    /// The whole input.
    pub input: &'input [u8],
    /// The place.
    pub span: Span,
    /// What went wrong.
    pub kind: DeserErrorKind,
}

impl<'input> DeserError<'input> {
    /// Creates an error of the given kind.
    pub fn new(kind: DeserErrorKind, input: &'input [u8], span: Span) -> (r: Self)
        ensures
            r.kind == kind,
            r.input == input,
            r.span == span,
    {
        DeserError { input, span, kind }
    }

    /// Creates the error for a failure to build the value.
    pub fn new_reflect(e: ReflectError, input: &'input [u8], span: Span) -> (r: Self)
        ensures
            r.kind == DeserErrorKind::ReflectError(e),
            r.input == input,
            r.span == span,
    {
        DeserError { input, span, kind: DeserErrorKind::ReflectError(e) }
    }
}

} // verus!
