//! Scalars, stored in the value under construction.
use crate::error::{DeserError, DeserErrorKind, ErrorView};
use crate::number_target::{self, FloatRequest, Placement};
use crate::numeric::Number;
use crate::partial::{self, Call, Fault, Op, Text, TextView};
use crate::runner::{self, Attempt, StackRunner};
use crate::scalar::{as_text, owned_text, Scalar};
use crate::shape::{self, DefInfo, KnownType, TypeInfo};
use facet_reflect::Partial;
use std::borrow::Cow;
use vstd::prelude::*;

verus! {

broadcast use {
    partial::lemma_effective_call,
    partial::lemma_effective_none,
    partial::lemma_effective_calls,
};

/// Whether `part` stands in `text` from character `at` on.
pub open spec fn occurs_at(text: Seq<char>, part: Seq<char>, at: int) -> bool {
    0 <= at <= text.len() - part.len() && text.subrange(at, at + part.len()) == part
}

/// Whether `part` stands anywhere in `text`.
pub open spec fn contains_text(text: Seq<char>, part: Seq<char>) -> bool {
    exists|at: int| occurs_at(text, part, at)
}

/// Calls `str::contains`: claims that it tells whether the pattern matches a sub-slice of the text.
#[verifier::external_body]
fn contains(text: &str, part: &str) -> (r: bool)
    ensures
        r == contains_text(text@, part@),
{
    text.contains(part)
}

/// What comes of the string `cow`, read for an enum: it names the variant, unless one is selected
/// already.
pub open spec fn enum_text_placement(log: Seq<Call>, text: Seq<char>, record: Seq<Call>) -> Attempt {
    let start = Attempt::begin(log);
    let shape = partial::shape_at(log);
    if partial::variant_at(log) is Some {
        start.call(Op::SetText(TextView::Either(text)), record)
    } else {
        match partial::variant_named(shape::variants_of(shape), text, 0) {
            Some((index, variant)) => if partial::trackable(variant) {
                start.call(Op::SelectNthVariant(index), record)
            } else {
                start.fail(runner::too_many_fields())
            },
            None => start.fail(ErrorView::NoSuchVariant { name: text, enum_shape: shape }),
        }
    }
}

/// What comes of the string `text`, read for a scalar type: the type parses it, or, if it cannot
/// parse at all, takes it as it is.
pub open spec fn parsed_placement(log: Seq<Call>, text: Seq<char>, record: Seq<Call>) -> Attempt {
    let parsed = Attempt::begin(log).call(Op::ParseFromStr(text), record);
    match record[log.len() as int].err {
        None => parsed,
        Some(e) => match partial::failed_operation(e) {
            Some(operation) => if contains_text(operation@, "does not support parsing"@) {
                Attempt::begin(parsed.log).call(Op::SetText(TextView::Owned(text)), record)
            } else {
                parse_failure(log, parsed)
            },
            None => parse_failure(log, parsed),
        },
    }
}

/// The calls of `parsed`, ended by the error on a string that the type does not parse.
pub open spec fn parse_failure(log: Seq<Call>, parsed: Attempt) -> Attempt {
    parsed.fail(
        ErrorView::ReflectError(
            partial::fault_error(
                Fault::OperationFailed {
                    shape: partial::shape_at(log),
                    operation: "Failed to parse string value",
                },
            ),
        ),
    )
}

/// What comes of the string `cow`, read for the last frame.
pub open spec fn text_placement(log: Seq<Call>, cow: Cow<'_, str>, record: Seq<Call>) -> Attempt {
    let start = Attempt::begin(log);
    let shape = partial::shape_at(log);
    if shape::type_info(shape) is Enum {
        enum_text_placement(log, cow@, record)
    } else if shape::type_info(shape) is Reference && shape::describes(shape, KnownType::StrRef) {
        match cow {
            Cow::Borrowed(s) => start.call(Op::SetText(TextView::Borrowed(s@)), record),
            Cow::Owned(s) => start.call(Op::SetText(TextView::Owned(s@)), record),
        }
    } else if shape::def_info(shape) is Scalar {
        parsed_placement(log, cow@, record)
    } else {
        start.call(Op::SetText(TextView::Owned(cow@)), record)
    }
}

/// What comes of `scalar`, read for the last frame.
pub open spec fn scalar_placement(
    log: Seq<Call>,
    scalar: Scalar<'_>,
    record: Seq<Call>,
) -> Placement {
    let start = Attempt::begin(log);
    match scalar {
        Scalar::String(cow) => Placement::plain(text_placement(log, cow, record)),
        Scalar::U64(v) => number_target::number_placement(log, Number::U64(v), record),
        Scalar::I64(v) => number_target::number_placement(log, Number::I64(v), record),
        Scalar::F64(v) => number_target::number_placement(log, Number::F64(v), record),
        Scalar::U128(v) => number_target::number_placement(log, Number::U128(v), record),
        Scalar::I128(v) => number_target::number_placement(log, Number::I128(v), record),
        Scalar::Bool(v) => Placement::plain(start.call(Op::SetBool(v), record)),
        Scalar::Null => Placement::plain(start.call(Op::SetDefault, record)),
    }
}

impl<'input> StackRunner<'input> {
    /// Stores a string in the last frame, which is an enum.
    fn set_enum_text<'facet>(&self, wip: &mut Partial<'facet>, cow: Cow<'input, str>) -> (r: Result<
        (),
        DeserError<'input>,
    >) where 'input: 'facet
        requires
            runner::ready(*old(wip)),
        ensures
            runner::ready(*final(wip)),
            runner::follows(partial::calls(*final(wip)), partial::calls(*old(wip))),
            runner::same_depth(*old(wip), *final(wip)),
            runner::results_in(
                enum_text_placement(
                    partial::calls(*old(wip)),
                    cow@,
                    partial::calls(*final(wip)),
                ),
                self@,
                *final(wip),
                r,
            ),
    {
        if partial::selected_variant(wip).is_some() {
            // If we already have a variant selected, just put the string
            return self.placed(partial::set_text(wip, Text::Either(cow)));
        }
        // Try to select the variant
        match partial::find_variant(wip, as_text(&cow)) {
            Some((index, variant)) => {
                if shape::read_fields(&shape::read_data(&variant)).len() > partial::MAX_FIELDS {
                    return Err(
                        self.err(
                            DeserErrorKind::Unimplemented(
                                "more than 63 fields in one struct or variant",
                            ),
                        ),
                    );
                }
                self.placed(partial::select_nth_variant(wip, index))
            },
            None => Err(
                self.err(
                    DeserErrorKind::NoSuchVariant {
                        name: owned_text(cow),
                        enum_shape: partial::current_shape(wip),
                    },
                ),
            ),
        }
    }

    /// Stores a string in the last frame, which is of a scalar type.
    fn set_parsed_text<'facet>(&self, wip: &mut Partial<'facet>, cow: Cow<'input, str>) -> (r:
        Result<(), DeserError<'input>>) where 'input: 'facet
        requires
            runner::ready(*old(wip)),
        ensures
            runner::ready(*final(wip)),
            runner::follows(partial::calls(*final(wip)), partial::calls(*old(wip))),
            runner::same_depth(*old(wip), *final(wip)),
            runner::results_in(
                parsed_placement(partial::calls(*old(wip)), cow@, partial::calls(*final(wip))),
                self@,
                *final(wip),
                r,
            ),
    {
        let shape = partial::current_shape(wip);
        // Scalar types may parse from strings (like IpAddr, UUID, Path, etc.)
        match partial::parse_from_str(wip, as_text(&cow)) {
            Ok(()) => Ok(()),
            Err(parse_err) => {
                let unsupported = match partial::operation_of(&parse_err) {
                    Some(operation) => contains(operation, "does not support parsing"),
                    None => false,
                };
                if unsupported {
                    // The type has no parse function, try direct conversion
                    self.placed(partial::set_text(wip, Text::Owned(owned_text(cow))))
                } else {
                    let fault = Fault::OperationFailed {
                        shape,
                        operation: "Failed to parse string value",
                    };
                    Err(self.reflect_err(partial::reflect_error(fault)))
                }
            },
        }
    }

    /// Stores a string in the last frame.
    fn set_text<'facet>(&self, wip: &mut Partial<'facet>, cow: Cow<'input, str>) -> (r: Result<
        (),
        DeserError<'input>,
    >) where 'input: 'facet
        requires
            runner::ready(*old(wip)),
        ensures
            runner::ready(*final(wip)),
            runner::follows(partial::calls(*final(wip)), partial::calls(*old(wip))),
            runner::same_depth(*old(wip), *final(wip)),
            runner::results_in(
                text_placement(partial::calls(*old(wip)), cow, partial::calls(*final(wip))),
                self@,
                *final(wip),
                r,
            ),
    {
        let shape = partial::current_shape(wip);
        let ty = shape::read_type(shape);
        match ty {
            TypeInfo::Enum => {
                return self.set_enum_text(wip, cow);
            },
            TypeInfo::Reference => {
                if shape::is_type(shape, KnownType::StrRef) {
                    // This is for handling the &str type
                    let text = match cow {
                        Cow::Borrowed(s) => Text::Borrowed(s),
                        Cow::Owned(s) => Text::Owned(s),
                    };
                    return self.placed(partial::set_text(wip, text));
                }
            },
            _ => {},
        }
        match shape::read_def(shape) {
            DefInfo::Scalar => self.set_parsed_text(wip, cow),
            _ => self.placed(partial::set_text(wip, Text::Owned(owned_text(cow)))),
        }
    }

    /// Stores a scalar in the last frame. A number for a floating-point type comes back to the
    /// caller, to be stored there.
    pub fn handle_scalar<'facet>(&self, wip: &mut Partial<'facet>, scalar: Scalar<'input>) -> (r:
        Result<Option<FloatRequest>, DeserError<'input>>) where 'input: 'facet
        requires
            runner::ready(*old(wip)),
        ensures
            runner::ready(*final(wip)),
            runner::follows(partial::calls(*final(wip)), partial::calls(*old(wip))),
            runner::same_depth(*old(wip), *final(wip)),
            number_target::placed_as(
                scalar_placement(
                    partial::calls(*old(wip)),
                    scalar,
                    partial::calls(*final(wip)),
                ),
                self@,
                *final(wip),
                r,
            ),
    {
        match scalar {
            Scalar::String(cow) => match self.set_text(wip, cow) {
                Ok(()) => Ok(None),
                Err(e) => Err(e),
            },
            Scalar::U64(value) => self.set_numeric_value(wip, &value),
            Scalar::I64(value) => self.set_numeric_value(wip, &value),
            Scalar::F64(value) => self.set_numeric_value(wip, &value),
            Scalar::U128(value) => self.set_numeric_value(wip, &value),
            Scalar::I128(value) => self.set_numeric_value(wip, &value),
            Scalar::Bool(value) => match partial::set_bool(wip, value) {
                Ok(()) => Ok(None),
                Err(e) => Err(self.reflect_err(e)),
            },
            Scalar::Null => match partial::set_default(wip) {
                Ok(()) => Ok(None),
                Err(e) => Err(self.reflect_err(e)),
            },
        }
    }
}

} // verus!
