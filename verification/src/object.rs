//! Objects: keys, and what the value of a key goes into.
use crate::error::{DeserError, DeserErrorKind, ErrorView};
use crate::instruction::{Instruction, PopReason, ValueReason};
use crate::partial::{self, Call, Op, Text, TextView, MAX_FIELDS};
use crate::runner::{self, Attempt, RunnerView, StackRunner};
use crate::scalar::{as_text, Outcome, Scalar};
use crate::shape::{self, DefInfo, FieldFlag, StructKind, TypeInfo};
use crate::span::Spanned;
use crate::value::{self, Turn, Wrap};
use facet_core::{Field, Shape};
use facet_reflect::Partial;
use std::borrow::Cow;
use vstd::prelude::*;

verus! {

broadcast use {
    partial::lemma_effective_call,
    partial::lemma_effective_none,
    partial::lemma_effective_calls,
};

/// What came of a key.
pub struct Entry {
    /// The calls.
    pub attempt: Attempt,
    /// What becomes of the value of the key.
    pub place: Place,
}

/// What becomes of the value of a key.
#[derive(Clone, Copy, Debug, PartialEq, Eq, Structural)]
pub enum Place {
    /// It is skipped.
    Skipped,
    /// It goes into a frame that was begun for it.
    Begun,
    /// It goes into a frame that was begun for it inside a flattened field, whose frame stays.
    Flattened,
    /// It goes into the last frame: an enum whose variant the key selected.
    Selected,
    /// It goes into the only field of the variant that the key selected.
    OnlyField,
}

/// The error on a key that is no field of the type `shape`.
pub open spec fn unknown_field(key: Seq<char>, shape: &'static Shape) -> ErrorView {
    ErrorView::UnknownField { field_name: key, shape }
}

/// What comes of a key that is no field of the last frame.
pub open spec fn unknown_entry(log: Seq<Call>, key: Seq<char>) -> Entry {
    let start = Attempt::begin(log);
    let shape = partial::shape_at(log);
    Entry {
        attempt: if shape::denies_unknown(shape) {
            start.fail(unknown_field(key, shape))
        } else {
            start
        },
        place: Place::Skipped,
    }
}

/// What comes of a key that is no field of a struct itself: the flattened fields from `index` on
/// are entered in order, until one has a field or a variant of that name.
pub open spec fn flattened_entry(
    fields: Seq<Field>,
    index: int,
    log: Seq<Call>,
    key: Seq<char>,
    record: Seq<Call>,
) -> Entry
    decreases fields.len() - index,
{
    if index < 0 || index >= fields.len() {
        unknown_entry(log, key)
    } else if !shape::flagged(fields[index], FieldFlag::Flatten) {
        flattened_entry(fields, index + 1, log, key, record)
    } else {
        let begun = Attempt::begin(log).field(index as usize, record);
        if begun.err is Some {
            Entry { attempt: begun, place: Place::Begun }
        } else {
            match partial::field_named(partial::frame_fields(begun.log), key, 0) {
                Some(inner) => Entry {
                    attempt: begun.field(inner, record),
                    place: Place::Flattened,
                },
                None => match partial::variant_named(
                    shape::variants_of(partial::shape_at(begun.log)),
                    key,
                    0,
                ) {
                    Some((_, variant)) => Entry {
                        attempt: if partial::trackable(variant) {
                            begun.call(Op::SelectVariantNamed(key), record)
                        } else {
                            begun.fail(runner::too_many_fields())
                        },
                        place: Place::Begun,
                    },
                    None => {
                        let left = begun.call(Op::End, record);
                        if left.err is Some {
                            Entry { attempt: left, place: Place::Begun }
                        } else {
                            flattened_entry(fields, index + 1, left.log, key, record)
                        }
                    },
                },
            }
        }
    }
}

/// What comes of a key of a struct.
pub open spec fn struct_entry(
    fields: Seq<Field>,
    log: Seq<Call>,
    key: Seq<char>,
    record: Seq<Call>,
) -> Entry {
    match partial::field_named(partial::frame_fields(log), key, 0) {
        Some(index) => Entry {
            attempt: Attempt::begin(log).field(index, record),
            place: Place::Begun,
        },
        None => flattened_entry(fields, 0, log, key, record),
    }
}

/// What comes of a key of an enum: it selects a variant, or is a field of the selected one.
pub open spec fn enum_entry(log: Seq<Call>, key: Seq<char>, record: Seq<Call>) -> Entry {
    let start = Attempt::begin(log);
    let shape = partial::shape_at(log);
    match partial::variant_named(shape::variants_of(shape), key, 0) {
        Some((index, variant)) => {
            let data = shape::data_of(variant);
            if !partial::trackable(variant) {
                Entry { attempt: start.fail(runner::too_many_fields()), place: Place::Selected }
            } else {
                let selected = start.call(Op::SelectNthVariant(index), record);
                if shape::kind_of(data) == StructKind::Tuple && shape::fields_of(data)@.len() == 1 {
                    Entry { attempt: selected.field(0, record), place: Place::OnlyField }
                } else {
                    Entry { attempt: selected, place: Place::Selected }
                }
            }
        },
        None => if partial::variant_at(log) is None {
            Entry {
                attempt: start.fail(ErrorView::NoSuchVariant { name: key, enum_shape: shape }),
                place: Place::Skipped,
            }
        } else {
            match partial::field_named(partial::frame_fields(log), key, 0) {
                Some(index) => Entry { attempt: start.field(index, record), place: Place::Begun },
                None => unknown_entry(log, key),
            }
        },
    }
}

/// What comes of a key of a map: it is stored, in the value that it wraps if it is a wrapper.
pub open spec fn map_entry(
    log: Seq<Call>,
    key_shape: &'static Shape,
    key: Seq<char>,
    record: Seq<Call>,
) -> Attempt {
    let begun = Attempt::begin(log).call(Op::BeginKey, record);
    let set = Op::SetText(TextView::Owned(key));
    if begun.err is Some {
        begun
    } else if shape::inner_shape(key_shape) is Some {
        value::entered(begun.log, Wrap::Inner, record).call(set, record).call(
            Op::End,
            record,
        ).call(Op::End, record).call(Op::BeginValue, record)
    } else {
        begun.call(set, record).call(Op::End, record).call(Op::BeginValue, record)
    }
}

/// What comes of a key, read for the last frame.
pub open spec fn key_entry(log: Seq<Call>, key: Seq<char>, record: Seq<Call>) -> Entry {
    let shape = partial::shape_at(log);
    match shape::type_info(shape) {
        TypeInfo::Struct(st) => struct_entry(shape::fields_of(st)@, log, key, record),
        TypeInfo::Enum => enum_entry(log, key, record),
        _ => match shape::def_info(shape) {
            DefInfo::Mapping { key: key_shape } => Entry {
                attempt: map_entry(log, key_shape, key, record),
                place: Place::Begun,
            },
            _ => Entry {
                attempt: Attempt::begin(log).fail(
                    ErrorView::Unimplemented("object key for non-struct/map"@),
                ),
                place: Place::Skipped,
            },
        },
    }
}

/// The instructions after a key: its value first, then what ends the value, then the next key.
pub open spec fn after_key(stack: Seq<Instruction>, place: Place) -> Seq<Instruction> {
    let end = Instruction::Pop(PopReason::ObjectVal);
    let next = Instruction::ObjectKeyOrObjectClose;
    let value = Instruction::Value(ValueReason::ObjectVal);
    match place {
        Place::Skipped => stack.push(next).push(Instruction::SkipValue),
        Place::Begun => stack.push(next).push(end).push(value),
        Place::Flattened => stack.push(next).push(end).push(value),
        Place::Selected => stack.push(next).push(value),
        Place::OnlyField => stack.push(end).push(next).push(value),
    }
}

/// What comes of `outcome`, read where a key or the end of an object is due.
pub open spec fn object_turn(
    runner: RunnerView,
    log: Seq<Call>,
    outcome: Outcome<'_>,
    record: Seq<Call>,
) -> Turn {
    match outcome {
        Outcome::Scalar(Scalar::String(key)) => {
            let entry = key_entry(log, key@, record);
            Turn::either(
                runner,
                RunnerView { stack: after_key(runner.stack, entry.place), ..runner },
                entry.attempt,
            )
        },
        Outcome::ObjectEnded => Turn::plain(runner, Attempt::begin(log)),
        _ => Turn::plain(
            runner,
            Attempt::begin(log).fail(
                ErrorView::UnexpectedOutcome {
                    got: outcome@,
                    wanted: "scalar or object close"@,
                },
            ),
        ),
    }
}

/// `r` is what came of the entry, which left `wip`.
pub open spec fn entered_as<'input>(
    entry: Entry,
    runner: RunnerView,
    wip: Partial<'_>,
    r: Result<Place, DeserError<'input>>,
) -> bool {
    &&& partial::calls(wip) == entry.attempt.log
    &&& r is Ok <==> entry.attempt.err is None
    &&& r matches Ok(place) ==> place == entry.place
    &&& r matches Err(e) ==> entry.attempt.err is Some && runner.reports(e, entry.attempt.err->0)
}

/// The number of frames that are begun for a value of that place.
pub open spec fn frames_for(place: Place) -> int {
    match place {
        Place::Skipped => 0,
        Place::Selected => 0,
        Place::OnlyField => 1,
        Place::Begun => 1,
        Place::Flattened => 2,
    }
}

/// The number of frames that are begun where `outcome` is read and a key or the end of an object is
/// due.
pub open spec fn frames_begun(log: Seq<Call>, outcome: Outcome<'_>, record: Seq<Call>) -> int {
    match outcome {
        Outcome::Scalar(Scalar::String(key)) => frames_for(key_entry(log, key@, record).place),
        _ => 0,
    }
}

/// Whether as many frames were begun as there are for a value of that place.
pub open spec fn begun_for(place: Place, before: Partial<'_>, after: Partial<'_>) -> bool {
    partial::depth_at(partial::calls(after)) == partial::depth_at(partial::calls(before))
        + frames_for(place)
}

/// The instructions after a key end as many frames as there are for its value.
proof fn lemma_owed_after_key(stack: Seq<Instruction>, place: Place)
    ensures
        runner::frames_owed(after_key(stack, place)) == runner::frames_owed(stack) + match place {
            Place::Skipped => 0int,
            Place::Selected => 0int,
            Place::OnlyField => 1int,
            Place::Begun => 1int,
            Place::Flattened => 1int,
        },
{
    let end = Instruction::Pop(PopReason::ObjectVal);
    let next = Instruction::ObjectKeyOrObjectClose;
    let value = Instruction::Value(ValueReason::ObjectVal);
    runner::lemma_frames_owed(stack, next);
    runner::lemma_frames_owed(stack, end);
    runner::lemma_frames_owed(stack.push(next), Instruction::SkipValue);
    runner::lemma_frames_owed(stack.push(next), end);
    runner::lemma_frames_owed(stack.push(next), value);
    runner::lemma_frames_owed(stack.push(next).push(end), value);
    runner::lemma_frames_owed(stack.push(end), next);
    runner::lemma_frames_owed(stack.push(end).push(next), value);
}

impl<'input> StackRunner<'input> {
    /// Handles a key that is no field of the last frame.
    fn unknown_key(&self, wip: &Partial<'_>, key: &Cow<'input, str>) -> (r: Result<
        Place,
        DeserError<'input>,
    >)
        requires
            runner::ready(*wip),
        ensures
            entered_as(unknown_entry(partial::calls(*wip), key@), self@, *wip, r),
            r matches Ok(place) ==> place is Skipped,
    {
        let shape = partial::current_shape(wip);
        if shape::has_deny_unknown_fields_attr(shape) {
            Err(
                self.err(
                    DeserErrorKind::UnknownField { field_name: as_text(key).to_owned(), shape },
                ),
            )
        } else {
            Ok(Place::Skipped)
        }
    }

    /// Handles a key that is no field of a struct itself.
    fn flattened_key(&self, wip: &mut Partial<'_>, fields: &'static [Field], key: &Cow<'input, str>) -> (r:
        Result<Place, DeserError<'input>>)
        requires
            runner::ready(*old(wip)),
        ensures
            runner::ready(*final(wip)),
            runner::follows(partial::calls(*final(wip)), partial::calls(*old(wip))),
            r matches Ok(place) ==> begun_for(place, *old(wip), *final(wip)),
            forall|record: Seq<Call>|
                runner::extends(record, partial::calls(*final(wip))) ==> entered_as(
                    #[trigger] flattened_entry(
                        fields@,
                        0,
                        partial::calls(*old(wip)),
                        key@,
                        record,
                    ),
                    self@,
                    *final(wip),
                    r,
                ),
    {
        let mut index: usize = 0;
        while index < fields.len()
            invariant
                index <= fields@.len(),
                runner::ready(*wip),
                runner::follows(partial::calls(*wip), partial::calls(*old(wip))),
                runner::same_depth(*old(wip), *wip),
                forall|record: Seq<Call>|
                    runner::extends(record, partial::calls(*wip)) ==> #[trigger] flattened_entry(
                        fields@,
                        0,
                        partial::calls(*old(wip)),
                        key@,
                        record,
                    ) == flattened_entry(
                        fields@,
                        index as int,
                        partial::calls(*wip),
                        key@,
                        record,
                    ),
            decreases fields@.len() - index,
        {
            if shape::has_flag(&fields[index], FieldFlag::Flatten) {
                // Enter the flattened field
                match self.begin_field(wip, index) {
                    Ok(()) => {},
                    Err(e) => {
                        return Err(e);
                    },
                }
                // Check if this flattened field has the requested key
                match partial::field_index(wip, as_text(key)) {
                    Some(inner) => {
                        return match self.begin_field(wip, inner) {
                            Ok(()) => Ok(Place::Flattened),
                            Err(e) => Err(e),
                        };
                    },
                    None => {},
                }
                match partial::find_variant(wip, as_text(key)) {
                    Some((_, variant)) => {
                        if shape::read_fields(&shape::read_data(&variant)).len() > MAX_FIELDS {
                            return Err(
                                self.err(
                                    DeserErrorKind::Unimplemented(
                                        "more than 63 fields in one struct or variant",
                                    ),
                                ),
                            );
                        }
                        return match partial::select_variant_named(wip, as_text(key)) {
                            Ok(()) => Ok(Place::Begun),
                            Err(e) => Err(self.reflect_err(e)),
                        };
                    },
                    None => {},
                }
                // Key not in this flattened field, go back up
                match partial::end(wip) {
                    Ok(()) => {},
                    Err(e) => {
                        return Err(self.reflect_err(e));
                    },
                }
            }
            index = index + 1;
        }
        self.unknown_key(wip, key)
    }

    /// Handles a key of a struct.
    fn struct_key(&self, wip: &mut Partial<'_>, fields: &'static [Field], key: &Cow<'input, str>) -> (r:
        Result<Place, DeserError<'input>>)
        requires
            runner::ready(*old(wip)),
        ensures
            runner::ready(*final(wip)),
            runner::follows(partial::calls(*final(wip)), partial::calls(*old(wip))),
            r matches Ok(place) ==> begun_for(place, *old(wip), *final(wip)),
            entered_as(
                struct_entry(
                    fields@,
                    partial::calls(*old(wip)),
                    key@,
                    partial::calls(*final(wip)),
                ),
                self@,
                *final(wip),
                r,
            ),
    {
        // First try to find a direct field match
        match partial::field_index(wip, as_text(key)) {
            Some(index) => match self.begin_field(wip, index) {
                Ok(()) => Ok(Place::Begun),
                Err(e) => Err(e),
            },
            None => self.flattened_key(wip, fields, key),
        }
    }

    /// Handles a key of an enum.
    fn enum_key(&self, wip: &mut Partial<'_>, key: &Cow<'input, str>) -> (r: Result<
        Place,
        DeserError<'input>,
    >)
        requires
            runner::ready(*old(wip)),
        ensures
            runner::ready(*final(wip)),
            runner::follows(partial::calls(*final(wip)), partial::calls(*old(wip))),
            r matches Ok(place) ==> begun_for(place, *old(wip), *final(wip)),
            entered_as(
                enum_entry(partial::calls(*old(wip)), key@, partial::calls(*final(wip))),
                self@,
                *final(wip),
                r,
            ),
    {
        match partial::find_variant(wip, as_text(key)) {
            Some((index, variant)) => {
                let data = shape::read_data(&variant);
                let fields = shape::read_fields(&data);
                if fields.len() > MAX_FIELDS {
                    return Err(
                        self.err(
                            DeserErrorKind::Unimplemented(
                                "more than 63 fields in one struct or variant",
                            ),
                        ),
                    );
                }
                match partial::select_nth_variant(wip, index) {
                    Ok(()) => {},
                    Err(e) => {
                        return Err(self.reflect_err(e));
                    },
                }
                // If the variant is tuple-like with only one field, the value is field 0
                if shape::read_kind(&data) == StructKind::Tuple && fields.len() == 1 {
                    match self.begin_field(wip, 0) {
                        Ok(()) => Ok(Place::OnlyField),
                        Err(e) => Err(e),
                    }
                } else {
                    Ok(Place::Selected)
                }
            },
            None => {
                if partial::selected_variant(wip).is_none() {
                    return Err(
                        self.err(
                            DeserErrorKind::NoSuchVariant {
                                name: as_text(key).to_owned(),
                                enum_shape: partial::current_shape(wip),
                            },
                        ),
                    );
                }
                // The key may be a field of the variant that is selected
                match partial::field_index(wip, as_text(key)) {
                    Some(index) => match self.begin_field(wip, index) {
                        Ok(()) => Ok(Place::Begun),
                        Err(e) => Err(e),
                    },
                    None => self.unknown_key(wip, key),
                }
            },
        }
    }

    /// Handles a key of a map whose keys are of the type `key_shape`.
    fn map_key(&self, wip: &mut Partial<'_>, key_shape: &'static Shape, key: &Cow<'input, str>) -> (r:
        Result<(), DeserError<'input>>)
        requires
            runner::ready(*old(wip)),
        ensures
            runner::ready(*final(wip)),
            runner::follows(partial::calls(*final(wip)), partial::calls(*old(wip))),
            r is Ok ==> runner::one_deeper(*old(wip), *final(wip)),
            runner::results_in(
                map_entry(
                    partial::calls(*old(wip)),
                    key_shape,
                    key@,
                    partial::calls(*final(wip)),
                ),
                self@,
                *final(wip),
                r,
            ),
    {
        match partial::begin_key(wip) {
            Ok(()) => {},
            Err(e) => {
                return Err(self.reflect_err(e));
            },
        }
        let wrapped = shape::read_inner(key_shape).is_some();
        if wrapped {
            // The key is stored in the value inside
            match self.enter_inner(wip) {
                Ok(()) => {},
                Err(e) => {
                    return Err(e);
                },
            }
        }
        match partial::set_text(wip, Text::Owned(as_text(key).to_owned())) {
            Ok(()) => {},
            Err(e) => {
                return Err(self.reflect_err(e));
            },
        }
        if wrapped {
            match partial::end(wip) {
                Ok(()) => {},
                Err(e) => {
                    return Err(self.reflect_err(e));
                },
            }
        }
        // Complete the key frame
        match partial::end(wip) {
            Ok(()) => {},
            Err(e) => {
                return Err(self.reflect_err(e));
            },
        }
        self.placed(partial::begin_value(wip))
    }

    /// Handles a key, read for the last frame.
    fn key(&self, wip: &mut Partial<'_>, key: &Cow<'input, str>) -> (r: Result<
        Place,
        DeserError<'input>,
    >)
        requires
            runner::ready(*old(wip)),
        ensures
            runner::ready(*final(wip)),
            runner::follows(partial::calls(*final(wip)), partial::calls(*old(wip))),
            r matches Ok(place) ==> begun_for(place, *old(wip), *final(wip)),
            entered_as(
                key_entry(partial::calls(*old(wip)), key@, partial::calls(*final(wip))),
                self@,
                *final(wip),
                r,
            ),
    {
        let shape = partial::current_shape(wip);
        match shape::read_type(shape) {
            TypeInfo::Struct(st) => self.struct_key(wip, shape::read_fields(&st), key),
            TypeInfo::Enum => self.enum_key(wip, key),
            _ => match shape::read_def(shape) {
                DefInfo::Mapping { key: key_shape } => match self.map_key(wip, key_shape, key) {
                    Ok(()) => Ok(Place::Begun),
                    Err(e) => Err(e),
                },
                _ => Err(
                    self.err(DeserErrorKind::Unimplemented("object key for non-struct/map")),
                ),
            },
        }
    }

    /// Handles what was read where a key or the end of an object is due.
    pub fn object_key_or_object_close<'facet>(
        &mut self,
        wip: &mut Partial<'facet>,
        outcome: Spanned<Outcome<'input>>,
    ) -> (r: Result<(), DeserError<'input>>) where 'input: 'facet
        requires
            runner::ready(*old(wip)),
        ensures
            runner::ready(*final(wip)),
            runner::follows(partial::calls(*final(wip)), partial::calls(*old(wip))),
            r is Ok ==> partial::depth_at(partial::calls(*final(wip))) == partial::depth_at(
                partial::calls(*old(wip)),
            ) + frames_begun(
                partial::calls(*old(wip)),
                outcome.node,
                partial::calls(*final(wip)),
            ),
            r is Ok ==> runner::slack(old(self)@.stack, partial::calls(*old(wip)))
                <= runner::slack(final(self)@.stack, partial::calls(*final(wip)))
                <= runner::slack(old(self)@.stack, partial::calls(*old(wip))) + 1,
            object_turn(
                old(self)@,
                partial::calls(*old(wip)),
                outcome.node,
                partial::calls(*final(wip)),
            ).ends_in(final(self)@, *final(wip), r),
    {
        let key = match outcome.node {
            Outcome::Scalar(Scalar::String(key)) => key,
            Outcome::ObjectEnded => {
                return Ok(());
            },
            other => {
                return Err(
                    self.err(
                        DeserErrorKind::UnexpectedOutcome {
                            got: other.into_owned(),
                            wanted: "scalar or object close",
                        },
                    ),
                );
            },
        };
        let place = match self.key(wip, &key) {
            Ok(place) => place,
            Err(e) => {
                return Err(e);
            },
        };
        proof {
            lemma_owed_after_key(self@.stack, place);
        }
        match place {
            Place::Skipped => {
                self.stack.push(Instruction::ObjectKeyOrObjectClose);
                self.stack.push(Instruction::SkipValue);
            },
            Place::Begun | Place::Flattened => {
                self.stack.push(Instruction::ObjectKeyOrObjectClose);
                self.stack.push(Instruction::Pop(PopReason::ObjectVal));
                self.stack.push(Instruction::Value(ValueReason::ObjectVal));
            },
            Place::Selected => {
                self.stack.push(Instruction::ObjectKeyOrObjectClose);
                self.stack.push(Instruction::Value(ValueReason::ObjectVal));
            },
            Place::OnlyField => {
                self.stack.push(Instruction::Pop(PopReason::ObjectVal));
                self.stack.push(Instruction::ObjectKeyOrObjectClose);
                self.stack.push(Instruction::Value(ValueReason::ObjectVal));
            },
        }
        Ok(())
    }
}

} // verus!
