//! Values: what stands round them is unwrapped, then they are stored or begun.
use crate::error::{DeserError, DeserErrorKind, ErrorView};
use crate::instruction::{Instruction, PopReason};
use crate::number_target::FloatRequest;
use crate::partial::{self, Call, Op, MAX_FIELDS};
use crate::runner::{self, Attempt, RunnerView, StackRunner};
use crate::scalar::{Outcome, Scalar};
use crate::scalar_value;
use crate::shape::{self, DefInfo, StructKind, TypeInfo};
use crate::span::Spanned;
use facet_core::Shape;
use facet_reflect::{Partial, ReflectError};
use vstd::prelude::*;

verus! {

broadcast use {
    partial::lemma_effective_call,
    partial::lemma_effective_none,
    partial::lemma_effective_calls,
};

/// What can stand round a value.
#[derive(Clone, Copy, Debug, PartialEq, Eq, Structural)]
pub enum Wrap {
    /// A function of the field makes the value from one of another type.
    Custom,
    /// The value is in a `Some`.
    OptionSome,
    /// The value is in a smart pointer.
    Pointer,
    /// The value is in a wrapper.
    Inner,
}

impl Wrap {
    /// The call that begins the value inside.
    pub open spec fn op(self) -> Op {
        match self {
            Wrap::Custom => Op::BeginCustomDeserialization,
            Wrap::OptionSome => Op::BeginSome,
            Wrap::Pointer => Op::BeginSmartPtr,
            Wrap::Inner => Op::BeginInner,
        }
    }

    /// Why the value inside is ended.
    pub open spec fn reason(self) -> PopReason {
        match self {
            Wrap::Custom => PopReason::CustomDeserialization,
            Wrap::OptionSome => PopReason::OptionSome,
            Wrap::Pointer => PopReason::SmartPointer,
            Wrap::Inner => PopReason::Wrapper,
        }
    }

    /// Returns why the value inside is ended.
    fn pop_reason(self) -> (r: PopReason)
        ensures
            r == self.reason(),
    {
        match self {
            Wrap::Custom => PopReason::CustomDeserialization,
            Wrap::OptionSome => PopReason::OptionSome,
            Wrap::Pointer => PopReason::SmartPointer,
            Wrap::Inner => PopReason::Wrapper,
        }
    }
}

/// What stands round the value of the last frame. A smart pointer is entered once: one to a slice
/// keeps its frame.
pub open spec fn next_wrap(log: Seq<Call>, pointer_begun: bool) -> Option<Wrap> {
    let shape = partial::shape_at(log);
    if partial::parent_field_at(log) is Some && shape::has_custom(
        partial::parent_field_at(log)->0,
    ) {
        Some(Wrap::Custom)
    } else if shape::def_info(shape) is Optional {
        Some(Wrap::OptionSome)
    } else if shape::smart_pointer(shape) is Some {
        if pointer_begun {
            None
        } else {
            Some(Wrap::Pointer)
        }
    } else if shape::inner_shape(shape) is Some {
        Some(Wrap::Inner)
    } else {
        None
    }
}

/// Why the value inside `wrap` cannot be begun, if it cannot: an option, or a value that is converted
/// from the one inside, does not take another if it was set as a whole.
pub open spec fn obstacle(log: Seq<Call>, wrap: Wrap) -> Option<ErrorView> {
    match wrap {
        Wrap::Custom => if shape::names_source(partial::parent_field_at(log)->0) {
            None
        } else {
            Some(ErrorView::Unimplemented("custom deserialization from an unnamed type"@))
        },
        Wrap::OptionSome => if partial::field_set_at(log, 1) == Ok::<bool, ReflectError>(true) {
            Some(ErrorView::Unimplemented("option set more than once"@))
        } else {
            None
        },
        Wrap::Pointer => None,
        Wrap::Inner => if !shape::converts(partial::shape_at(log)) {
            if partial::frame_fields(log).len() > MAX_FIELDS {
                Some(runner::too_many_fields())
            } else {
                None
            }
        } else if partial::may_be_whole(log) {
            Some(ErrorView::Unimplemented("wrapper set more than once"@))
        } else {
            None
        },
    }
}

/// The value inside `wrap` begun, after the calls `log`.
pub open spec fn entered(log: Seq<Call>, wrap: Wrap, record: Seq<Call>) -> Attempt {
    match obstacle(log, wrap) {
        Some(err) => Attempt::begin(log).fail(err),
        None => Attempt::begin(log).call(wrap.op(), record),
    }
}

/// What came of unwrapping a value.
pub struct Resolution {
    /// The instructions, with one for each wrap to end it.
    pub stack: Seq<Instruction>,
    /// The calls.
    pub attempt: Attempt,
    /// Whether a smart pointer was entered.
    pub pointer_begun: bool,
}

/// What comes of unwrapping the value of the last frame until nothing stands round it.
pub open spec fn resolved(
    stack: Seq<Instruction>,
    log: Seq<Call>,
    pointer_begun: bool,
    record: Seq<Call>,
) -> Resolution
    decreases record.len() - log.len(),
{
    match next_wrap(log, pointer_begun) {
        None => Resolution { stack, attempt: Attempt::begin(log), pointer_begun },
        Some(wrap) => {
            let attempt = entered(log, wrap, record);
            if attempt.err is Some || log.len() >= record.len() {
                Resolution { stack, attempt, pointer_begun }
            } else {
                resolved(
                    stack.push(Instruction::Pop(wrap.reason())),
                    attempt.log,
                    pointer_begun || wrap is Pointer,
                    record,
                )
            }
        },
    }
}

/// What came of something that was read: the state of the runner, the calls made, the error that
/// ended them, and the floating-point number that is to be stored.
pub struct Turn {
    pub runner: RunnerView,
    pub log: Seq<Call>,
    pub err: Option<ErrorView>,
    pub float: Option<FloatRequest>,
}

impl Turn {
    /// Calls, which leave the runner as `runner`.
    pub open spec fn plain(runner: RunnerView, attempt: Attempt) -> Turn {
        Turn { runner, log: attempt.log, err: attempt.err, float: None }
    }

    /// Calls, which leave the runner as `done` unless one fails, and as `runner` if one does.
    pub open spec fn either(runner: RunnerView, done: RunnerView, attempt: Attempt) -> Turn {
        Turn::plain(
            if attempt.err is None {
                done
            } else {
                runner
            },
            attempt,
        )
    }

    /// `r` is what came of this, which left `runner` and `wip`.
    pub open spec fn results_in<'input>(
        self,
        runner: RunnerView,
        wip: Partial<'_>,
        r: Result<Option<FloatRequest>, DeserError<'input>>,
    ) -> bool {
        &&& runner == self.runner
        &&& partial::calls(wip) == self.log
        &&& r is Ok <==> self.err is None
        &&& r matches Ok(float) ==> float == self.float
        &&& r matches Err(e) ==> self.err is Some && runner.reports(e, self.err->0)
    }

    /// `r` is what came of this, which left `runner` and `wip`, and no number to be stored.
    pub open spec fn ends_in<'input>(
        self,
        runner: RunnerView,
        wip: Partial<'_>,
        r: Result<(), DeserError<'input>>,
    ) -> bool {
        &&& runner == self.runner
        &&& partial::calls(wip) == self.log
        &&& self.float is None
        &&& r is Ok <==> self.err is None
        &&& r matches Err(e) ==> self.err is Some && runner.reports(e, self.err->0)
    }
}

/// Whether `shape` is a tuple.
pub open spec fn is_tuple(shape: &'static Shape) -> bool {
    shape::type_info(shape) matches TypeInfo::Struct(st) && shape::kind_of(st) == StructKind::Tuple
}

/// The error on a type that cannot take what was read.
pub open spec fn unsupported(shape: &'static Shape, wanted: Seq<char>) -> ErrorView {
    ErrorView::UnsupportedType { got: shape, wanted }
}

/// What comes of the start of a list, read for the last frame.
pub open spec fn list_start_turn(
    runner: RunnerView,
    log: Seq<Call>,
    pointer_begun: bool,
    record: Seq<Call>,
) -> Turn {
    let shape = partial::shape_at(log);
    let start = Attempt::begin(log);
    let done = runner.push(Instruction::ListItemOrListClose);
    if is_tuple(shape) {
        Turn::plain(done, start)
    } else {
        match shape::def_info(shape) {
            DefInfo::Array { .. } => Turn::plain(
                RunnerView { array_indices: runner.array_indices.push(0), ..done },
                start,
            ),
            DefInfo::Slice => Turn::plain(done, start),
            DefInfo::List { .. } => {
                let emptied = start.call(Op::SetDefault, record);
                if emptied.err is Some {
                    Turn::plain(runner, emptied)
                } else {
                    Turn::plain(done, emptied.call(Op::BeginList, record))
                }
            },
            def => if def is Pointer && pointer_begun {
                Turn::either(runner, done, start.call(Op::BeginList, record))
            } else if shape::type_info(shape) is Enum {
                match partial::variant_at(log) {
                    None => Turn::plain(
                        runner,
                        start.fail(unsupported(shape, "enum with variant selected"@)),
                    ),
                    Some(variant) => if shape::kind_of(shape::data_of(variant))
                        == StructKind::Tuple {
                        Turn::plain(
                            RunnerView {
                                enum_tuple_field_count: Some(
                                    shape::fields_of(shape::data_of(variant))@.len() as usize,
                                ),
                                enum_tuple_current_field: Some(0),
                                ..done
                            },
                            start,
                        )
                    } else {
                        Turn::plain(
                            runner,
                            start.fail(
                                unsupported(shape, "tuple variant for array deserialization"@),
                            ),
                        )
                    },
                }
            } else {
                Turn::plain(
                    runner,
                    start.fail(unsupported(shape, "array, list, tuple, or slice"@)),
                )
            },
        }
    }
}

/// `indices` without the last one.
pub open spec fn without_last(indices: Seq<usize>) -> Seq<usize> {
    if indices.len() > 0 {
        indices.drop_last()
    } else {
        indices
    }
}

/// What comes of the end of a list, read in place of a value.
pub open spec fn list_end_turn(runner: RunnerView, log: Seq<Call>, record: Seq<Call>) -> Turn {
    let done = if shape::def_info(partial::shape_at(log)) is Array {
        RunnerView { array_indices: without_last(runner.array_indices), ..runner }
    } else {
        runner
    };
    Turn::plain(done, Attempt::begin(log).call(Op::End, record))
}

/// What comes of the start of an object, read for the last frame.
pub open spec fn object_start_turn(runner: RunnerView, log: Seq<Call>, record: Seq<Call>) -> Turn {
    let shape = partial::shape_at(log);
    let start = Attempt::begin(log);
    let done = runner.push(Instruction::ObjectKeyOrObjectClose);
    if shape::def_info(shape) is Mapping {
        Turn::either(runner, done, start.call(Op::BeginMap, record))
    } else {
        match shape::type_info(shape) {
            TypeInfo::Enum => Turn::plain(done, start),
            TypeInfo::Struct(_) => Turn::plain(done, start),
            TypeInfo::OtherUser => Turn::plain(
                runner,
                start.fail(unsupported(shape, "map, enum, or struct"@)),
            ),
            _ => Turn::plain(
                runner,
                start.fail(unsupported(shape, "map, enum, struct, or tuple"@)),
            ),
        }
    }
}

/// What comes of `outcome`, read for the value of the last frame, once nothing stands round it.
pub open spec fn inner_turn(
    runner: RunnerView,
    log: Seq<Call>,
    pointer_begun: bool,
    outcome: Outcome<'_>,
    record: Seq<Call>,
) -> Turn {
    match outcome {
        Outcome::Scalar(scalar) => {
            let placement = scalar_value::scalar_placement(log, scalar, record);
            Turn { float: placement.float, ..Turn::plain(runner, placement.attempt) }
        },
        Outcome::ListStarted => list_start_turn(runner, log, pointer_begun, record),
        Outcome::ListEnded => list_end_turn(runner, log, record),
        Outcome::ObjectStarted => object_start_turn(runner, log, record),
        Outcome::ObjectEnded => Turn::plain(
            runner,
            Attempt::begin(log).fail(
                ErrorView::UnexpectedOutcome { got: outcome@, wanted: "value"@ },
            ),
        ),
    }
}

/// What comes of `outcome`, read where a value is due. A null is the default of the type; anything
/// else is for the innermost value.
pub open spec fn value_turn(
    runner: RunnerView,
    log: Seq<Call>,
    outcome: Outcome<'_>,
    record: Seq<Call>,
) -> Turn {
    if outcome matches Outcome::Scalar(Scalar::Null) {
        Turn::plain(runner, Attempt::begin(log).call(Op::SetDefault, record))
    } else {
        let resolution = resolved(runner.stack, log, false, record);
        let inside = RunnerView { stack: resolution.stack, ..runner };
        if resolution.attempt.err is Some {
            Turn::plain(inside, resolution.attempt)
        } else {
            inner_turn(
                inside,
                resolution.attempt.log,
                resolution.pointer_begun,
                outcome,
                record,
            )
        }
    }
}

/// Whether from one state to a later one as many instructions that end a frame were added as
/// frames were begun, but for a smart pointer to a slice, which has no frame of its own.
pub open spec fn balanced(
    stack: Seq<Instruction>,
    log: Seq<Call>,
    later_stack: Seq<Instruction>,
    later: Seq<Call>,
) -> bool {
    let before = runner::slack(stack, log);
    let after = runner::slack(later_stack, later);
    after == before || (after == before - 1 && runner::enters_slice(later, log.len() as int))
}

/// Returns what stands round the value of the last frame.
fn wrap_of(wip: &Partial<'_>, pointer_begun: bool) -> (r: Option<Wrap>)
    requires
        runner::ready(*wip),
    ensures
        r == next_wrap(partial::calls(*wip), pointer_begun),
{
    match partial::parent_field(wip) {
        Some(field) => {
            if shape::read_custom(&field) {
                return Some(Wrap::Custom);
            }
        },
        None => {},
    }
    let shape = partial::current_shape(wip);
    match shape::read_def(shape) {
        DefInfo::Optional => {
            return Some(Wrap::OptionSome);
        },
        _ => {},
    }
    if shape::constructible_from_pointee(shape).is_some() {
        if pointer_begun {
            None
        } else {
            Some(Wrap::Pointer)
        }
    } else if shape::read_inner(shape).is_some() {
        Some(Wrap::Inner)
    } else {
        None
    }
}

/// Returns whether field `index` of the last frame is set.
fn is_set(wip: &Partial<'_>, index: usize) -> (r: bool)
    requires
        index <= MAX_FIELDS || index < partial::frame_fields(partial::calls(*wip)).len(),
    ensures
        r == (partial::field_set_at(partial::calls(*wip), index) == Ok::<bool, ReflectError>(true)),
{
    match partial::is_field_set(wip, index) {
        Ok(set) => set,
        Err(_) => false,
    }
}

/// Returns whether nothing tells the last frame from one that was set as a whole.
fn looks_whole(wip: &Partial<'_>) -> (r: bool)
    requires
        runner::ready(*wip),
    ensures
        r == partial::may_be_whole(partial::calls(*wip)),
{
    if partial::selected_variant(wip).is_some() || !is_set(wip, 0) {
        return false;
    }
    let count: usize = partial::frame_field_count(wip);
    let mut index: usize = 0;
    while index < count
        invariant
            index <= count,
            count == partial::frame_fields(partial::calls(*wip)).len(),
            forall|i: usize|
                i < index ==> (#[trigger] partial::field_set_at(partial::calls(*wip), i)) == Ok::<
                    bool,
                    ReflectError,
                >(true),
        decreases count - index,
    {
        if !is_set(wip, index) {
            return false;
        }
        index = index + 1;
    }
    true
}

impl<'input> StackRunner<'input> {
    /// Begins the value inside a wrapper.
    pub(crate) fn enter_inner(&self, wip: &mut Partial<'_>) -> (r: Result<(), DeserError<'input>>)
        requires
            runner::ready(*old(wip)),
        ensures
            runner::ready(*final(wip)),
            runner::follows(partial::calls(*final(wip)), partial::calls(*old(wip))),
            runner::results_in(
                entered(partial::calls(*old(wip)), Wrap::Inner, partial::calls(*final(wip))),
                self@,
                *final(wip),
                r,
            ),
            r is Ok ==> partial::depth_at(partial::calls(*final(wip))) == partial::depth_at(
                partial::calls(*old(wip)),
            ) + 1,
    {
        if !shape::read_converts(partial::current_shape(wip)) {
            if partial::frame_field_count(wip) > MAX_FIELDS {
                return Err(
                    self.err(
                        DeserErrorKind::Unimplemented(
                            "more than 63 fields in one struct or variant",
                        ),
                    ),
                );
            }
        } else if looks_whole(wip) {
            return Err(self.err(DeserErrorKind::Unimplemented("wrapper set more than once")));
        }
        self.placed(partial::begin_inner(wip))
    }

    /// Begins the value inside `wrap`.
    fn enter(&self, wip: &mut Partial<'_>, wrap: Wrap) -> (r: Result<(), DeserError<'input>>)
        requires
            runner::ready(*old(wip)),
            wrap is Custom ==> partial::parent_field_at(partial::calls(*old(wip))) is Some,
        ensures
            runner::ready(*final(wip)),
            runner::follows(partial::calls(*final(wip)), partial::calls(*old(wip))),
            runner::results_in(
                entered(partial::calls(*old(wip)), wrap, partial::calls(*final(wip))),
                self@,
                *final(wip),
                r,
            ),
            r is Ok ==> {
                let before = partial::depth_at(partial::calls(*old(wip)));
                let after = partial::depth_at(partial::calls(*final(wip)));
                after == before + 1 || (wrap is Pointer && after == before)
            },
    {
        match wrap {
            Wrap::Custom => {
                match partial::parent_field(wip) {
                    Some(field) => {
                        if !shape::has_source(&field) {
                            return Err(
                                self.err(
                                    DeserErrorKind::Unimplemented(
                                        "custom deserialization from an unnamed type",
                                    ),
                                ),
                            );
                        }
                    },
                    None => {},
                }
                self.placed(partial::begin_custom_deserialization(wip))
            },
            Wrap::OptionSome => {
                if is_set(wip, 1) {
                    return Err(
                        self.err(DeserErrorKind::Unimplemented("option set more than once")),
                    );
                }
                self.placed(partial::begin_some(wip))
            },
            Wrap::Pointer => self.placed(partial::begin_smart_ptr(wip)),
            Wrap::Inner => self.enter_inner(wip),
        }
    }

    /// Unwraps the value of the last frame until nothing stands round it, and returns whether a
    /// smart pointer was entered.
    fn resolve(&mut self, wip: &mut Partial<'_>) -> (r: Result<bool, DeserError<'input>>)
        requires
            runner::ready(*old(wip)),
        ensures
            runner::ready(*final(wip)),
            runner::follows(partial::calls(*final(wip)), partial::calls(*old(wip))),
            final(self)@ == (RunnerView { stack: final(self)@.stack, ..old(self)@ }),
            r is Ok ==> balanced(
                old(self)@.stack,
                partial::calls(*old(wip)),
                final(self)@.stack,
                partial::calls(*final(wip)),
            ),
            forall|record: Seq<Call>|
                runner::extends(record, partial::calls(*final(wip))) ==> {
                    let resolution = #[trigger] resolved(
                        old(self)@.stack,
                        partial::calls(*old(wip)),
                        false,
                        record,
                    );
                    &&& resolution.stack == final(self)@.stack
                    &&& resolution.attempt.log == partial::calls(*final(wip))
                    &&& r is Ok <==> resolution.attempt.err is None
                    &&& r matches Ok(begun) ==> begun == resolution.pointer_begun
                    &&& r matches Err(e) ==> resolution.attempt.err is Some && final(self)@.reports(
                        e,
                        resolution.attempt.err->0,
                    )
                },
    {
        let mut pointer_begun = false;
        loop
            invariant
                runner::ready(*wip),
                runner::follows(partial::calls(*wip), partial::calls(*old(wip))),
                self@ == (RunnerView { stack: self@.stack, ..old(self)@ }),
                balanced(
                    old(self)@.stack,
                    partial::calls(*old(wip)),
                    self@.stack,
                    partial::calls(*wip),
                ),
                !pointer_begun ==> runner::slack(self@.stack, partial::calls(*wip))
                    == runner::slack(old(self)@.stack, partial::calls(*old(wip))),
                forall|record: Seq<Call>|
                    runner::extends(record, partial::calls(*wip)) ==> #[trigger] resolved(
                        old(self)@.stack,
                        partial::calls(*old(wip)),
                        false,
                        record,
                    ) == resolved(self@.stack, partial::calls(*wip), pointer_begun, record),
            decreases
                usize::MAX - partial::depth_at(partial::calls(*wip)),
                if pointer_begun {
                    0int
                } else {
                    1int
                },
        {
            let ghost before = partial::calls(*wip);
            let wrap = match wrap_of(wip, pointer_begun) {
                Some(wrap) => wrap,
                None => {
                    return Ok(pointer_begun);
                },
            };
            match self.enter(wip, wrap) {
                Ok(()) => {},
                Err(e) => {
                    return Err(e);
                },
            }
            let ghost stack = self@.stack;
            self.stack.push(Instruction::Pop(wrap.pop_reason()));
            proof {
                let log = partial::calls(*wip);
                let from = partial::calls(*old(wip)).len() as int;
                runner::lemma_frames_owed(stack, Instruction::Pop(wrap.reason()));
                if partial::depth_at(log) == partial::depth_at(before) {
                    let k = before.len() as int;
                    assert(log[k].op is BeginSmartPtr);
                    assert(log.take(k + 1) =~= log);
                    assert(log.take(k) =~= before);
                    assert(runner::enters_slice(log, from));
                } else if runner::enters_slice(before, from) {
                    runner::lemma_enters_slice(before, from, log);
                }
            }
            match wrap {
                Wrap::Pointer => {
                    pointer_begun = true;
                },
                _ => {},
            }
        }
    }

    /// Handles the start of a list, read for the last frame.
    fn start_list(&mut self, wip: &mut Partial<'_>, pointer_begun: bool) -> (r: Result<
        Option<FloatRequest>,
        DeserError<'input>,
    >)
        requires
            runner::ready(*old(wip)),
        ensures
            runner::ready(*final(wip)),
            runner::follows(partial::calls(*final(wip)), partial::calls(*old(wip))),
            runner::same_depth(*old(wip), *final(wip)),
            runner::frames_owed(final(self)@.stack) == runner::frames_owed(old(self)@.stack),
            list_start_turn(
                old(self)@,
                partial::calls(*old(wip)),
                pointer_begun,
                partial::calls(*final(wip)),
            ).results_in(final(self)@, *final(wip), r),
    {
        proof {
            runner::lemma_frames_owed(self@.stack, Instruction::ListItemOrListClose);
        }
        let shape = partial::current_shape(wip);
        let ty = shape::read_type(shape);

        // First check if this is a tuple (including empty tuples)
        match &ty {
            TypeInfo::Struct(st) => {
                if shape::read_kind(st) == StructKind::Tuple {
                    self.stack.push(Instruction::ListItemOrListClose);
                    return Ok(None);
                }
            },
            _ => {},
        }

        match shape::read_def(shape) {
            DefInfo::Array { .. } => {
                self.stack.push(Instruction::ListItemOrListClose);
                // The elements are begun one by one, by their index
                self.array_indices.push(0);
                Ok(None)
            },
            DefInfo::Slice => {
                self.stack.push(Instruction::ListItemOrListClose);
                Ok(None)
            },
            DefInfo::List { .. } => {
                match partial::set_default(wip) {
                    Ok(()) => {},
                    Err(e) => {
                        return Err(self.reflect_err(e));
                    },
                }
                self.stack.push(Instruction::ListItemOrListClose);
                match partial::begin_list(wip) {
                    Ok(()) => Ok(None),
                    Err(e) => Err(self.reflect_err(e)),
                }
            },
            def => {
                let pointer = match def {
                    DefInfo::Pointer(_) => true,
                    _ => false,
                };
                if pointer && pointer_begun {
                    match partial::begin_list(wip) {
                        Ok(()) => {
                            self.stack.push(Instruction::ListItemOrListClose);
                            return Ok(None);
                        },
                        Err(e) => {
                            return Err(self.reflect_err(e));
                        },
                    }
                }
                match ty {
                    TypeInfo::Enum => match partial::selected_variant(wip) {
                        Some(variant) => {
                            let data = shape::read_data(&variant);
                            if shape::read_kind(&data) == StructKind::Tuple {
                                // The items are the fields of the tuple variant
                                self.enum_tuple_field_count = Some(shape::read_fields(&data).len());
                                self.enum_tuple_current_field = Some(0);
                                self.stack.push(Instruction::ListItemOrListClose);
                                Ok(None)
                            } else {
                                Err(
                                    self.err(
                                        DeserErrorKind::UnsupportedType {
                                            got: shape,
                                            wanted: "tuple variant for array deserialization",
                                        },
                                    ),
                                )
                            }
                        },
                        None => Err(
                            self.err(
                                DeserErrorKind::UnsupportedType {
                                    got: shape,
                                    wanted: "enum with variant selected",
                                },
                            ),
                        ),
                    },
                    _ => Err(
                        self.err(
                            DeserErrorKind::UnsupportedType {
                                got: shape,
                                wanted: "array, list, tuple, or slice",
                            },
                        ),
                    ),
                }
            },
        }
    }

    /// Handles the end of a list, read in place of a value.
    fn end_list(&mut self, wip: &mut Partial<'_>) -> (r: Result<
        Option<FloatRequest>,
        DeserError<'input>,
    >)
        requires
            runner::ready(*old(wip)),
        ensures
            runner::ready(*final(wip)),
            runner::follows(partial::calls(*final(wip)), partial::calls(*old(wip))),
            list_end_turn(
                old(self)@,
                partial::calls(*old(wip)),
                partial::calls(*final(wip)),
            ).results_in(final(self)@, *final(wip), r),
    {
        match shape::read_def(partial::current_shape(wip)) {
            DefInfo::Array { .. } => {
                self.array_indices.pop();
            },
            _ => {},
        }
        match partial::end(wip) {
            Ok(()) => Ok(None),
            Err(e) => Err(self.reflect_err(e)),
        }
    }

    /// Handles the start of an object, read for the last frame.
    fn start_object(&mut self, wip: &mut Partial<'_>) -> (r: Result<
        Option<FloatRequest>,
        DeserError<'input>,
    >)
        requires
            runner::ready(*old(wip)),
        ensures
            runner::ready(*final(wip)),
            runner::follows(partial::calls(*final(wip)), partial::calls(*old(wip))),
            runner::same_depth(*old(wip), *final(wip)),
            runner::frames_owed(final(self)@.stack) == runner::frames_owed(old(self)@.stack),
            object_start_turn(
                old(self)@,
                partial::calls(*old(wip)),
                partial::calls(*final(wip)),
            ).results_in(final(self)@, *final(wip), r),
    {
        proof {
            runner::lemma_frames_owed(self@.stack, Instruction::ObjectKeyOrObjectClose);
        }
        let shape = partial::current_shape(wip);
        match shape::read_def(shape) {
            DefInfo::Mapping { .. } => match partial::begin_map(wip) {
                Ok(()) => {},
                Err(e) => {
                    return Err(self.reflect_err(e));
                },
            },
            _ => match shape::read_type(shape) {
                TypeInfo::Enum => {},
                TypeInfo::Struct(_) => {},
                TypeInfo::OtherUser => {
                    return Err(
                        self.err(
                            DeserErrorKind::UnsupportedType {
                                got: shape,
                                wanted: "map, enum, or struct",
                            },
                        ),
                    );
                },
                _ => {
                    return Err(
                        self.err(
                            DeserErrorKind::UnsupportedType {
                                got: shape,
                                wanted: "map, enum, struct, or tuple",
                            },
                        ),
                    );
                },
            },
        }
        self.stack.push(Instruction::ObjectKeyOrObjectClose);
        Ok(None)
    }

    /// Handles what was read where a value is due. An object cannot end there.
    pub fn value<'facet>(
        &mut self,
        wip: &mut Partial<'facet>,
        outcome: Spanned<Outcome<'input>>,
    ) -> (r: Result<Option<FloatRequest>, DeserError<'input>>) where 'input: 'facet
        requires
            runner::ready(*old(wip)),
        ensures
            runner::ready(*final(wip)),
            runner::follows(partial::calls(*final(wip)), partial::calls(*old(wip))),
            r is Ok && outcome.node !is ListEnded ==> balanced(
                old(self)@.stack,
                partial::calls(*old(wip)),
                final(self)@.stack,
                partial::calls(*final(wip)),
            ),
            value_turn(
                old(self)@,
                partial::calls(*old(wip)),
                outcome.node,
                partial::calls(*final(wip)),
            ).results_in(final(self)@, *final(wip), r),
    {
        // Handle null values
        match &outcome.node {
            Outcome::Scalar(Scalar::Null) => {
                return match partial::set_default(wip) {
                    Ok(()) => Ok(None),
                    Err(e) => Err(self.reflect_err(e)),
                };
            },
            _ => {},
        }

        // Resolve the innermost value to deserialize
        let pointer_begun = match self.resolve(wip) {
            Ok(pointer_begun) => pointer_begun,
            Err(e) => {
                return Err(e);
            },
        };

        let ghost inner = partial::calls(*wip);
        let handled = match outcome.node {
            Outcome::Scalar(scalar) => self.handle_scalar(wip, scalar),
            Outcome::ListStarted => self.start_list(wip, pointer_begun),
            Outcome::ListEnded => self.end_list(wip),
            Outcome::ObjectStarted => self.start_object(wip),
            Outcome::ObjectEnded => Err(
                self.err(
                    DeserErrorKind::UnexpectedOutcome {
                        got: Outcome::ObjectEnded,
                        wanted: "value",
                    },
                ),
            ),
        };
        proof {
            let from = partial::calls(*old(wip)).len() as int;
            if runner::enters_slice(inner, from) {
                runner::lemma_enters_slice(inner, from, partial::calls(*wip));
            }
        }
        handled
    }
}

} // verus!
