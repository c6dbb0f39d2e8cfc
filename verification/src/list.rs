//! Lists: items, and what they go into.
use crate::error::{DeserError, DeserErrorKind, ErrorView};
use crate::instruction::{Instruction, PopReason};
use crate::number_target::FloatRequest;
use crate::partial::{self, Call, Op};
use crate::runner::{self, Attempt, RunnerView, StackRunner};
use crate::scalar::Outcome;
use crate::shape::{self, DefInfo, StructKind, TypeInfo};
use crate::span::Spanned;
use crate::value::{self, Turn};
use facet_core::Shape;
use facet_reflect::{Partial, ReflectError};
use vstd::prelude::*;

verus! {

broadcast use {
    partial::lemma_effective_call,
    partial::lemma_effective_none,
    partial::lemma_effective_calls,
};

/// The error on more items than the type `shape` holds.
pub open spec fn overflow(shape: &'static Shape, max_len: usize) -> ErrorView {
    ErrorView::ArrayOverflow { shape, max_len }
}

/// What came of an item: the state of the runner, and the calls.
pub struct Item {
    pub runner: RunnerView,
    pub attempt: Attempt,
}

/// `indices` with the last one raised by one.
pub open spec fn advanced(indices: Seq<usize>) -> Seq<usize> {
    indices.update(indices.len() - 1, (indices.last() + 1) as usize)
}

/// An item of an array of `len` items: it goes to the next index.
pub open spec fn array_item(
    runner: RunnerView,
    len: usize,
    log: Seq<Call>,
    record: Seq<Call>,
) -> Item {
    let start = Attempt::begin(log);
    if runner.array_indices.len() == 0 {
        Item {
            runner,
            attempt: start.fail(ErrorView::Unimplemented("Array index tracking not initialized"@)),
        }
    } else if runner.array_indices.last() >= len {
        Item { runner, attempt: start.fail(overflow(partial::shape_at(log), len)) }
    } else {
        let attempt = start.field(runner.array_indices.last(), record);
        Item {
            runner: if attempt.err is None {
                RunnerView { array_indices: advanced(runner.array_indices), ..runner }
            } else {
                runner
            },
            attempt,
        }
    }
}

/// An item of a tuple variant: it goes to the next field.
pub open spec fn variant_item(runner: RunnerView, log: Seq<Call>, record: Seq<Call>) -> Item {
    let start = Attempt::begin(log);
    let shape = partial::shape_at(log);
    match (runner.enum_tuple_field_count, runner.enum_tuple_current_field) {
        (Some(count), Some(current)) => if current >= count {
            Item { runner, attempt: start.fail(overflow(shape, count)) }
        } else {
            let attempt = start.field(current, record);
            Item {
                runner: if attempt.err is None {
                    RunnerView { enum_tuple_current_field: Some((current + 1) as usize), ..runner }
                } else {
                    runner
                },
                attempt,
            }
        },
        _ => Item {
            runner,
            attempt: start.fail(value::unsupported(shape, "enum with tuple variant selected"@)),
        },
    }
}

/// An item of a tuple of `count` fields: it goes to the first field from `index` on that is not
/// set.
pub open spec fn tuple_item(count: usize, index: int, log: Seq<Call>, record: Seq<Call>) -> Attempt
    decreases count - index,
{
    let start = Attempt::begin(log);
    if index < 0 || index >= count {
        start.fail(overflow(partial::shape_at(log), count))
    } else {
        match partial::field_set_at(log, index as usize) {
            Err(e) => start.fail(ErrorView::ReflectError(e)),
            Ok(true) => tuple_item(count, index + 1, log, record),
            Ok(false) => start.field(index as usize, record),
        }
    }
}

/// A place for an item, begun in the last frame.
pub open spec fn item_begun(runner: RunnerView, log: Seq<Call>, record: Seq<Call>) -> Item {
    let start = Attempt::begin(log);
    let shape = partial::shape_at(log);
    match shape::def_info(shape) {
        DefInfo::Array { len, .. } => array_item(runner, len, log, record),
        DefInfo::List { .. } => Item { runner, attempt: start.call(Op::BeginListItem, record) },
        DefInfo::Pointer(_) => Item { runner, attempt: start.call(Op::BeginListItem, record) },
        _ => match shape::type_info(shape) {
            TypeInfo::Enum => variant_item(runner, log, record),
            TypeInfo::Struct(st) => Item {
                runner,
                attempt: if shape::kind_of(st) == StructKind::Tuple {
                    tuple_item(shape::fields_of(st)@.len() as usize, 0, log, record)
                } else {
                    start.fail(value::unsupported(shape, "array, list, or tuple"@))
                },
            },
            _ => Item {
                runner,
                attempt: start.fail(value::unsupported(shape, "array, list, or tuple"@)),
            },
        },
    }
}

/// Whether `shape` is the empty tuple.
pub open spec fn is_empty_tuple(shape: &'static Shape) -> bool {
    shape::type_info(shape) matches TypeInfo::Struct(st) && shape::kind_of(st) == StructKind::Tuple
        && shape::fields_of(st)@.len() == 0
}

/// The empty tuple set to its value, where a list starts for it.
pub open spec fn empty_tuple_set(
    attempt: Attempt,
    outcome: Outcome<'_>,
    record: Seq<Call>,
) -> Attempt {
    if outcome is ListStarted && is_empty_tuple(partial::shape_at(attempt.log)) {
        attempt.call(Op::SetDefault, record)
    } else {
        attempt
    }
}

/// The state of the runner after the end of a list in the last frame, of the type `shape`.
pub open spec fn list_closed(runner: RunnerView, shape: &'static Shape) -> RunnerView {
    let in_variant = shape::type_info(shape) is Enum && runner.enum_tuple_field_count is Some;
    RunnerView {
        array_indices: if shape::def_info(shape) is Array {
            value::without_last(runner.array_indices)
        } else {
            runner.array_indices
        },
        enum_tuple_field_count: if in_variant {
            None
        } else {
            runner.enum_tuple_field_count
        },
        enum_tuple_current_field: if in_variant {
            None
        } else {
            runner.enum_tuple_current_field
        },
        ..runner
    }
}

/// What comes of `outcome`, read where an item or the end of a list is due.
pub open spec fn list_turn(
    runner: RunnerView,
    log: Seq<Call>,
    outcome: Outcome<'_>,
    record: Seq<Call>,
) -> Turn {
    if outcome is ListEnded {
        Turn::plain(list_closed(runner, partial::shape_at(log)), Attempt::begin(log))
    } else {
        let pushed = runner.push(Instruction::ListItemOrListClose).push(
            Instruction::Pop(PopReason::ListVal),
        );
        let item = item_begun(pushed, log, record);
        if item.attempt.err is Some {
            Turn::plain(item.runner, item.attempt)
        } else {
            let set = empty_tuple_set(item.attempt, outcome, record);
            if set.err is Some {
                Turn::plain(item.runner, set)
            } else {
                value::value_turn(item.runner, set.log, outcome, record)
            }
        }
    }
}

/// `r` is what came of the item, which left `runner` and `wip`.
pub open spec fn item_results_in<'input>(
    item: Item,
    runner: RunnerView,
    wip: Partial<'_>,
    r: Result<(), DeserError<'input>>,
) -> bool {
    &&& runner == item.runner
    &&& runner::results_in(item.attempt, runner, wip, r)
}

/// A place for an item of a tuple, once begun, stays as it is whatever is called later.
proof fn lemma_tuple_item_stable(
    count: usize,
    index: int,
    log: Seq<Call>,
    record: Seq<Call>,
    later: Seq<Call>,
)
    requires
        runner::extends(later, record),
        tuple_item(count, index, log, record).log == record,
        tuple_item(count, index, log, record).err is None,
    ensures
        tuple_item(count, index, log, later) == tuple_item(count, index, log, record),
    decreases count - index,
{
    if 0 <= index < count && partial::field_set_at(log, index as usize) == Ok::<bool, ReflectError>(
        true,
    ) {
        lemma_tuple_item_stable(count, index + 1, log, record, later);
    }
}

/// A place for an item, once begun, stays as it is whatever is called later.
proof fn lemma_item_stable(
    runner: RunnerView,
    log: Seq<Call>,
    record: Seq<Call>,
    later: Seq<Call>,
)
    requires
        runner::extends(later, record),
        item_begun(runner, log, record).attempt.log == record,
        item_begun(runner, log, record).attempt.err is None,
    ensures
        item_begun(runner, log, later) == item_begun(runner, log, record),
{
    let shape = partial::shape_at(log);
    match shape::type_info(shape) {
        TypeInfo::Struct(st) => {
            let item = item_begun(runner, log, record);
            if item.attempt == tuple_item(shape::fields_of(st)@.len() as usize, 0, log, record) {
                lemma_tuple_item_stable(
                    shape::fields_of(st)@.len() as usize,
                    0,
                    log,
                    record,
                    later,
                );
            }
        },
        _ => {},
    }
}

/// A smart pointer to a slice that was entered late was entered.
proof fn lemma_slice_entered_before(log: Seq<Call>, late: int, from: int)
    requires
        from <= late,
    ensures
        runner::enters_slice(log, late) ==> runner::enters_slice(log, from),
{
    if runner::enters_slice(log, late) {
        let k = choose|k: int|
            late <= k < log.len() && (#[trigger] log[k]).op is BeginSmartPtr && partial::depth_at(
                log.take(k + 1),
            ) == partial::depth_at(log.take(k));
        assert(from <= k < log.len() && log[k].op is BeginSmartPtr);
    }
}

impl<'input> StackRunner<'input> {
    /// Begins the next item of an array of `len` items.
    fn begin_array_item(&mut self, wip: &mut Partial<'_>, len: usize) -> (r: Result<
        (),
        DeserError<'input>,
    >)
        requires
            runner::ready(*old(wip)),
        ensures
            runner::ready(*final(wip)),
            runner::follows(partial::calls(*final(wip)), partial::calls(*old(wip))),
            r is Ok ==> runner::one_deeper(*old(wip), *final(wip)),
            item_results_in(
                array_item(
                    old(self)@,
                    len,
                    partial::calls(*old(wip)),
                    partial::calls(*final(wip)),
                ),
                final(self)@,
                *final(wip),
                r,
            ),
    {
        // Arrays use the last index in our tracking vector
        let depth: usize = self.array_indices.len();
        if depth == 0 {
            return Err(
                self.err(DeserErrorKind::Unimplemented("Array index tracking not initialized")),
            );
        }
        let current: usize = self.array_indices[depth - 1];
        if current >= len {
            return Err(
                self.err(
                    DeserErrorKind::ArrayOverflow {
                        shape: partial::current_shape(wip),
                        max_len: len,
                    },
                ),
            );
        }
        match self.begin_field(wip, current) {
            Ok(()) => {
                self.array_indices.set(depth - 1, current + 1);
                Ok(())
            },
            Err(e) => Err(e),
        }
    }

    /// Begins the next field of a tuple variant.
    fn begin_variant_item(&mut self, wip: &mut Partial<'_>) -> (r: Result<(), DeserError<'input>>)
        requires
            runner::ready(*old(wip)),
        ensures
            runner::ready(*final(wip)),
            runner::follows(partial::calls(*final(wip)), partial::calls(*old(wip))),
            r is Ok ==> runner::one_deeper(*old(wip), *final(wip)),
            item_results_in(
                variant_item(
                    old(self)@,
                    partial::calls(*old(wip)),
                    partial::calls(*final(wip)),
                ),
                final(self)@,
                *final(wip),
                r,
            ),
    {
        let shape = partial::current_shape(wip);
        match (self.enum_tuple_field_count, self.enum_tuple_current_field) {
            (Some(count), Some(current)) => {
                if current >= count {
                    // Too many elements for this tuple variant
                    return Err(
                        self.err(DeserErrorKind::ArrayOverflow { shape, max_len: count }),
                    );
                }
                match self.begin_field(wip, current) {
                    Ok(()) => {
                        // Advance to next field
                        self.enum_tuple_current_field = Some(current + 1);
                        Ok(())
                    },
                    Err(e) => Err(e),
                }
            },
            _ => Err(
                self.err(
                    DeserErrorKind::UnsupportedType {
                        got: shape,
                        wanted: "enum with tuple variant selected",
                    },
                ),
            ),
        }
    }

    /// Begins the first field that is not set of a tuple of `count` fields.
    fn begin_tuple_item(&self, wip: &mut Partial<'_>, count: usize) -> (r: Result<
        (),
        DeserError<'input>,
    >)
        requires
            runner::ready(*old(wip)),
            count == partial::frame_fields(partial::calls(*old(wip))).len(),
        ensures
            runner::ready(*final(wip)),
            runner::follows(partial::calls(*final(wip)), partial::calls(*old(wip))),
            r is Ok ==> runner::one_deeper(*old(wip), *final(wip)),
            runner::results_in(
                tuple_item(count, 0, partial::calls(*old(wip)), partial::calls(*final(wip))),
                self@,
                *final(wip),
                r,
            ),
    {
        let ghost log = partial::calls(*wip);
        let mut index: usize = 0;
        while index < count
            invariant
                index <= count,
                partial::calls(*wip) == log,
                log == partial::calls(*old(wip)),
                runner::ready(*wip),
                count == partial::frame_fields(log).len(),
                forall|record: Seq<Call>|
                    #[trigger] tuple_item(count, 0, log, record) == tuple_item(
                        count,
                        index as int,
                        log,
                        record,
                    ),
            decreases count - index,
        {
            match partial::is_field_set(wip, index) {
                Err(e) => {
                    return Err(self.reflect_err(e));
                },
                Ok(set) => {
                    if !set {
                        return self.begin_field(wip, index);
                    }
                },
            }
            index = index + 1;
        }
        // All fields are set, this is too many elements
        Err(
            self.err(
                DeserErrorKind::ArrayOverflow {
                    shape: partial::current_shape(wip),
                    max_len: count,
                },
            ),
        )
    }

    /// Begins a place for an item in the last frame.
    fn begin_item(&mut self, wip: &mut Partial<'_>) -> (r: Result<(), DeserError<'input>>)
        requires
            runner::ready(*old(wip)),
        ensures
            runner::ready(*final(wip)),
            runner::follows(partial::calls(*final(wip)), partial::calls(*old(wip))),
            r is Ok ==> runner::one_deeper(*old(wip), *final(wip)),
            item_results_in(
                item_begun(
                    old(self)@,
                    partial::calls(*old(wip)),
                    partial::calls(*final(wip)),
                ),
                final(self)@,
                *final(wip),
                r,
            ),
    {
        let shape = partial::current_shape(wip);
        match shape::read_def(shape) {
            DefInfo::Array { len, .. } => self.begin_array_item(wip, len),
            DefInfo::List { .. } => self.placed(partial::begin_list_item(wip)),
            DefInfo::Pointer(_) => self.placed(partial::begin_list_item(wip)),
            _ => match shape::read_type(shape) {
                TypeInfo::Enum => self.begin_variant_item(wip),
                TypeInfo::Struct(st) => {
                    if shape::read_kind(&st) == StructKind::Tuple {
                        // Tuples use field indexing
                        self.begin_tuple_item(wip, shape::read_fields(&st).len())
                    } else {
                        // Not a tuple struct
                        Err(
                            self.err(
                                DeserErrorKind::UnsupportedType {
                                    got: shape,
                                    wanted: "array, list, or tuple",
                                },
                            ),
                        )
                    }
                },
                _ => Err(
                    self.err(
                        DeserErrorKind::UnsupportedType {
                            got: shape,
                            wanted: "array, list, or tuple",
                        },
                    ),
                ),
            },
        }
    }

    /// Handles the end of a list, where an item or the end was due.
    fn close_list(&mut self, wip: &Partial<'_>)
        requires
            runner::ready(*wip),
        ensures
            final(self)@ == list_closed(old(self)@, partial::shape_at(partial::calls(*wip))),
    {
        let shape = partial::current_shape(wip);
        // Clean up array index tracking if this was an array
        match shape::read_def(shape) {
            DefInfo::Array { .. } => {
                self.array_indices.pop();
            },
            _ => {},
        }
        // Clean up enum tuple variant tracking if this was an enum tuple
        match shape::read_type(shape) {
            TypeInfo::Enum => {
                if self.enum_tuple_field_count.is_some() {
                    self.enum_tuple_field_count = None;
                    self.enum_tuple_current_field = None;
                }
            },
            _ => {},
        }
    }

    /// Handles what was read where an item or the end of a list is due. An object cannot end there.
    pub fn list_item_or_list_close<'facet>(
        &mut self,
        wip: &mut Partial<'facet>,
        outcome: Spanned<Outcome<'input>>,
    ) -> (r: Result<Option<FloatRequest>, DeserError<'input>>) where 'input: 'facet
        requires
            runner::ready(*old(wip)),
        ensures
            runner::ready(*final(wip)),
            runner::follows(partial::calls(*final(wip)), partial::calls(*old(wip))),
            r is Ok ==> value::balanced(
                old(self)@.stack,
                partial::calls(*old(wip)),
                final(self)@.stack,
                partial::calls(*final(wip)),
            ),
            list_turn(
                old(self)@,
                partial::calls(*old(wip)),
                outcome.node,
                partial::calls(*final(wip)),
            ).results_in(final(self)@, *final(wip), r),
    {
        match &outcome.node {
            Outcome::ListEnded => {
                // Don't end the list here - let the Pop instruction handle it
                self.close_list(wip);
                return Ok(None);
            },
            _ => {},
        }

        self.stack.push(Instruction::ListItemOrListClose);
        self.stack.push(Instruction::Pop(PopReason::ListVal));
        let ghost pushed = self@;
        proof {
            let items = Instruction::ListItemOrListClose;
            runner::lemma_frames_owed(old(self)@.stack, items);
            runner::lemma_frames_owed(
                old(self)@.stack.push(items),
                Instruction::Pop(PopReason::ListVal),
            );
        }
        match self.begin_item(wip) {
            Ok(()) => {},
            Err(e) => {
                return Err(e);
            },
        }
        let ghost begun = partial::calls(*wip);

        // If we're now at an empty tuple and we see a list start, the tuple is set here: it has no
        // fields to fill. The list close is still to come.
        match &outcome.node {
            Outcome::ListStarted => match shape::read_type(partial::current_shape(wip)) {
                TypeInfo::Struct(st) => {
                    if shape::read_kind(&st) == StructKind::Tuple && shape::read_fields(
                        &st,
                    ).len() == 0 {
                        match partial::set_default(wip) {
                            Ok(()) => {},
                            Err(e) => {
                                proof {
                                    lemma_item_stable(
                                        pushed,
                                        partial::calls(*old(wip)),
                                        begun,
                                        partial::calls(*wip),
                                    );
                                }
                                return Err(self.reflect_err(e));
                            },
                        }
                    }
                },
                _ => {},
            },
            _ => {},
        }

        let ghost set = partial::calls(*wip);
        let handled = self.value(wip, outcome);
        proof {
            lemma_item_stable(pushed, partial::calls(*old(wip)), begun, partial::calls(*wip));
            let from = partial::calls(*old(wip)).len() as int;
            lemma_slice_entered_before(partial::calls(*wip), set.len() as int, from);
        }
        handled
    }
}

} // verus!
