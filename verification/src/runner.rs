//! The state of a deserialization, and the calls that it makes on the value under construction.
use crate::error::{DeserError, DeserErrorKind, ErrorView};
use crate::instruction::{Instruction, PopReason};
use crate::partial::{self, Call, Op, MAX_FIELDS};
use crate::span::Span;
use facet_reflect::{Partial, ReflectError};
use vstd::prelude::*;

verus! {

broadcast use {
    partial::lemma_effective_call,
    partial::lemma_effective_none,
    partial::lemma_effective_calls,
};

/// Maintains the parsing state and context necessary to drive deserialization.
///
/// This struct tracks what the parser expects next, manages input position,
/// and remembers the span of the last processed token to provide accurate error reporting.
pub struct StackRunner<'input> {
    /// A version of the input that doesn't advance as we parse.
    pub original_input: &'input [u8],
    /// The raw input data being deserialized.
    pub input: &'input [u8],
    /// Stack of parsing instructions guiding the control flow.
    pub stack: Vec<Instruction>,
    /// Span of the last processed token, for accurate error reporting.
    pub last_span: Span,
    /// Format source identifier for error reporting
    pub format_source: &'static str,
    /// Array index tracking - maps depth to current index for arrays
    pub array_indices: Vec<usize>,
    /// Tuple variant field tracking - number of fields in current enum tuple variant
    pub enum_tuple_field_count: Option<usize>,
    /// Tuple variant field tracking - current field index being processed
    pub enum_tuple_current_field: Option<usize>,
}

/// What a runner holds.
#[verifier::ext_equal]
pub struct RunnerView {
    pub original_input: Seq<u8>,
    pub input: Seq<u8>,
    pub stack: Seq<Instruction>,
    pub last_span: Span,
    pub format_source: Seq<char>,
    pub array_indices: Seq<usize>,
    pub enum_tuple_field_count: Option<usize>,
    pub enum_tuple_current_field: Option<usize>,
}

impl<'input> View for StackRunner<'input> {
    type V = RunnerView;

    open spec fn view(&self) -> RunnerView {
        RunnerView {
            original_input: self.original_input@,
            input: self.input@,
            stack: self.stack@,
            last_span: self.last_span,
            format_source: self.format_source@,
            array_indices: self.array_indices@,
            enum_tuple_field_count: self.enum_tuple_field_count,
            enum_tuple_current_field: self.enum_tuple_current_field,
        }
    }
}

impl RunnerView {
    /// This state, with `instruction` as the next one to carry out.
    pub open spec fn push(self, instruction: Instruction) -> RunnerView {
        RunnerView { stack: self.stack.push(instruction), ..self }
    }

    /// Whether `e` is an error of the kind `kind` at the last span of the input.
    pub open spec fn reports(self, e: DeserError<'_>, kind: ErrorView) -> bool {
        &&& e.input@ == self.original_input
        &&& e.span == self.last_span
        &&& e.kind@ == kind
    }
}

/// Whether `longer` starts with the calls of `log`.
pub open spec fn extends(longer: Seq<Call>, log: Seq<Call>) -> bool {
    &&& log.len() <= longer.len()
    &&& forall|i: int| 0 <= i < log.len() ==> longer[i] == log[i]
}

/// Whether `later` starts with the calls of `log`, and each call after those did what such a call
/// does.
pub open spec fn follows(later: Seq<Call>, log: Seq<Call>) -> bool {
    extends(later, log) && partial::effective(later, log)
}

/// Some calls on a `Partial`, made one after the other up to the first that fails: all the calls
/// made so far, and the error that ended them.
///
/// Where it does not follow from the calls before it how a call comes back, that is not for this
/// library to say. A description of calls then goes by a record of all of them, `record`: call
/// number `n` comes back as the record says of its entry `n`.
pub struct Attempt {
    pub log: Seq<Call>,
    pub err: Option<ErrorView>,
}

impl Attempt {
    /// The calls of `log`, all made.
    pub open spec fn begin(log: Seq<Call>) -> Attempt {
        Attempt { log, err: None }
    }

    /// These calls, ended by the error `err`.
    pub open spec fn fail(self, err: ErrorView) -> Attempt {
        Attempt { log: self.log, err: Some(err) }
    }

    /// These calls, and the call `op` unless one has failed.
    pub open spec fn call(self, op: Op, record: Seq<Call>) -> Attempt {
        if self.err is Some {
            self
        } else {
            let err = partial::refusal(self.log, op, record[self.log.len() as int].err);
            Attempt {
                log: self.log.push(Call { op, err }),
                err: match err {
                    Some(e) => Some(ErrorView::ReflectError(e)),
                    None => None,
                },
            }
        }
    }

    /// These calls, and a field begun unless one has failed or the last frame has more fields than
    /// can be kept track of.
    pub open spec fn field(self, index: usize, record: Seq<Call>) -> Attempt {
        if self.err is Some {
            self
        } else if partial::frame_fields(self.log).len() > MAX_FIELDS {
            self.fail(too_many_fields())
        } else {
            self.call(Op::BeginNthField(index), record)
        }
    }
}

/// The error on a struct or a variant with more fields than can be kept track of.
pub open spec fn too_many_fields() -> ErrorView {
    ErrorView::Unimplemented("more than 63 fields in one struct or variant"@)
}

/// `r` is what came of the calls of `attempt`, which left `wip`.
pub open spec fn results_in<'input>(
    attempt: Attempt,
    runner: RunnerView,
    wip: Partial<'_>,
    r: Result<(), DeserError<'input>>,
) -> bool {
    &&& partial::calls(wip) == attempt.log
    &&& r is Ok <==> attempt.err is None
    &&& r matches Err(e) ==> attempt.err is Some && runner.reports(e, attempt.err->0)
}

/// Whether, after the calls `log`, there is a frame, and ending the frames is in order.
pub open spec fn ready_at(log: Seq<Call>) -> bool {
    partial::depth_at(log) >= 1 && partial::nested_at(log)
}

/// Whether `wip` has a frame, and ending its frames is in order.
pub open spec fn ready(wip: Partial<'_>) -> bool {
    ready_at(partial::calls(wip))
}

/// Whether `after` has as many frames as `before`.
pub open spec fn same_depth(before: Partial<'_>, after: Partial<'_>) -> bool {
    partial::depth_at(partial::calls(after)) == partial::depth_at(partial::calls(before))
}

/// Whether `after` has one frame more than `before`.
pub open spec fn one_deeper(before: Partial<'_>, after: Partial<'_>) -> bool {
    partial::depth_at(partial::calls(after)) == partial::depth_at(partial::calls(before)) + 1
}

/// Whether `instruction` ends a frame other than the first.
pub open spec fn ends_frame(instruction: Instruction) -> bool {
    instruction is Pop && instruction != Instruction::Pop(PopReason::TopLevel)
}

/// The number of frames that the instructions of `stack` end.
pub open spec fn frames_owed(stack: Seq<Instruction>) -> int
    decreases stack.len(),
{
    if stack.len() == 0 {
        0
    } else if ends_frame(stack.last()) {
        frames_owed(stack.drop_last()) + 1
    } else {
        frames_owed(stack.drop_last())
    }
}

/// One more instruction ends one more frame, or none.
pub(crate) proof fn lemma_frames_owed(stack: Seq<Instruction>, instruction: Instruction)
    ensures
        frames_owed(stack.push(instruction)) == frames_owed(stack) + if ends_frame(instruction) {
            1int
        } else {
            0
        },
{
    assert(stack.push(instruction).drop_last() =~= stack);
}

/// The number of frames, the first apart, that no instruction of `stack` ends.
pub open spec fn slack(stack: Seq<Instruction>, log: Seq<Call>) -> int {
    partial::depth_at(log) - 1 - frames_owed(stack)
}

/// Whether one of the calls from number `from` on entered a smart pointer without beginning a
/// frame: one to a slice.
pub open spec fn enters_slice(log: Seq<Call>, from: int) -> bool {
    exists|k: int|
        from <= k < log.len() && (#[trigger] log[k]).op is BeginSmartPtr && partial::depth_at(
            log.take(k + 1),
        ) == partial::depth_at(log.take(k))
}

/// Later calls do not undo that a smart pointer to a slice was entered.
pub(crate) proof fn lemma_enters_slice(log: Seq<Call>, from: int, later: Seq<Call>)
    requires
        0 <= from,
        enters_slice(log, from),
        extends(later, log),
    ensures
        enters_slice(later, from),
{
    let k = choose|k: int|
        from <= k < log.len() && (#[trigger] log[k]).op is BeginSmartPtr && partial::depth_at(
            log.take(k + 1),
        ) == partial::depth_at(log.take(k));
    assert(later[k] == log[k]);
    assert(later.take(k + 1) =~= log.take(k + 1));
    assert(later.take(k) =~= log.take(k));
}

impl<'input> StackRunner<'input> {
    /// Convenience function to create a DeserError using the original input and last_span.
    pub fn err(&self, kind: DeserErrorKind) -> (r: DeserError<'input>)
        ensures
            r.kind == kind,
            r.input == self.original_input,
            r.span == self.last_span,
            self@.reports(r, kind@),
    {
        DeserError::new(kind, self.original_input, self.last_span)
    }

    /// Convenience function to create a DeserError from a ReflectError,
    /// using the original input and last_span for context.
    pub fn reflect_err(&self, err: ReflectError) -> (r: DeserError<'input>)
        ensures
            r.kind == DeserErrorKind::ReflectError(err),
            r.input == self.original_input,
            r.span == self.last_span,
            self@.reports(r, ErrorView::ReflectError(err)),
    {
        DeserError::new_reflect(err, self.original_input, self.last_span)
    }

    /// Returns `r` with its error placed in the input.
    pub(crate) fn placed<T>(&self, r: Result<T, ReflectError>) -> (placed: Result<
        T,
        DeserError<'input>,
    >)
        ensures
            placed is Ok <==> r is Ok,
            placed matches Ok(v) ==> r == Ok::<T, ReflectError>(v),
            placed matches Err(e) ==> r is Err && self@.reports(e, ErrorView::ReflectError(r->Err_0)),
    {
        match r {
            Ok(v) => Ok(v),
            Err(e) => Err(self.reflect_err(e)),
        }
    }

    /// Begins field `index` of the last frame, or fails if the frame has more fields than can be
    /// kept track of.
    pub(crate) fn begin_field(&self, wip: &mut Partial<'_>, index: usize) -> (r: Result<
        (),
        DeserError<'input>,
    >)
        requires
            ready(*old(wip)),
        ensures
            ready(*final(wip)),
            follows(partial::calls(*final(wip)), partial::calls(*old(wip))),
            results_in(
                Attempt::begin(partial::calls(*old(wip))).field(index, partial::calls(*final(wip))),
                self@,
                *final(wip),
                r,
            ),
            r is Ok ==> one_deeper(*old(wip), *final(wip)),
    {
        if partial::frame_field_count(wip) > MAX_FIELDS {
            return Err(
                self.err(
                    DeserErrorKind::Unimplemented("more than 63 fields in one struct or variant"),
                ),
            );
        }
        self.placed(partial::begin_nth_field(wip, index))
    }
}

} // verus!
