//! The loop that carries out instructions, with a format that reads the input.
use crate::error::{DeserError, DeserErrorKind, ErrorView};
use crate::instruction::{Instruction, PopReason, ValueReason};
use crate::laws;
use crate::list;
use crate::number_target::FloatRequest;
use crate::object;
use crate::partial::{self, Call, Op};
use crate::pop::{self, DefaultView};
use crate::runner::{self, Attempt, RunnerView, StackRunner};
use crate::scalar::{Expectation, Outcome};
use crate::span::{Span, Spanned};
use crate::stack_laws;
use crate::value::{self, Turn};
use facet_core::Shape;
use facet_reflect::{HeapValue, Partial, ReflectError};
use vstd::prelude::*;

verus! {

broadcast use {
    partial::lemma_effective_call,
    partial::lemma_effective_none,
    partial::lemma_effective_calls,
};

/// Carries the current parsing state and the in-progress value during deserialization.
pub struct NextData<'input, 'facet> where 'input: 'facet {
    /// The offset we're supposed to start parsing from
    start: usize,
    /// Controls the parsing flow and stack state.
    runner: StackRunner<'input>,
    /// Holds the intermediate representation of the value being built.
    pub wip: Partial<'facet>,
}

impl<'input, 'facet> NextData<'input, 'facet> where 'input: 'facet {
    /// The state of the runner.
    pub closed spec fn state(&self) -> RunnerView {
        self.runner@
    }

    /// The offset to start parsing from.
    pub closed spec fn offset(&self) -> usize {
        self.start
    }

    /// The calls made on the value.
    pub closed spec fn log(&self) -> Seq<Call> {
        partial::calls(self.wip)
    }

    /// The state of the deserialization.
    pub open spec fn now(&self) -> State {
        State { runner: self.state(), log: self.log() }
    }

    /// The next instruction.
    pub open spec fn instruction(&self) -> Instruction {
        self.state().stack.last()
    }

    /// Whether the input is there from its start to its end.
    pub open spec fn holds_whole_input(&self) -> bool {
        self.state().input == self.state().original_input
    }

    /// Whether the offset is just past what was read last, the input is there as a whole, and the
    /// value is in order.
    pub open spec fn in_order(&self) -> bool {
        &&& self.offset() == self.state().last_span.start + self.state().last_span.len
        &&& self.holds_whole_input()
        &&& runner::ready_at(self.log())
    }

    /// Whether this shows `state` to a format.
    pub open spec fn shows(&self, state: State) -> bool {
        self.in_order() && self.now() == state
    }

    /// Starts the deserialization of `wip` from `input`, which the format `format_source` reads.
    pub fn new(wip: Partial<'facet>, input: &'input [u8], format_source: &'static str) -> (r: Self)
        ensures
            r.now() == initial(input@, format_source@, partial::calls(wip)),
            r.offset() == 0,
            well_stacked(r.state().stack),
    {
        let stack: Vec<Instruction> = vec![
            Instruction::Pop(PopReason::TopLevel),
            Instruction::Value(ValueReason::TopLevel),
        ];
        let runner = StackRunner {
            original_input: input,
            input,
            stack,
            last_span: Span::new(0, 0),
            format_source,
            array_indices: Vec::new(),
            enum_tuple_field_count: None,
            enum_tuple_current_field: None,
        };
        let r = NextData { start: 0, runner, wip };
        assert(r.now() == initial(input@, format_source@, partial::calls(wip)));
        r
    }

    /// Returns the input (from the start! not from the current position)
    pub fn input(&self) -> (r: &'input [u8])
        ensures
            r@ == self.state().input,
    {
        self.runner.input
    }

    /// Returns the parsing start offset.
    pub fn start(&self) -> (r: usize)
        ensures
            r == self.offset(),
    {
        self.start
    }
}

/// What a format is asked for to carry out `instruction`.
pub open spec fn expected(instruction: Instruction) -> Option<Expectation> {
    match instruction {
        Instruction::Value(ValueReason::TopLevel) => Some(Expectation::Value),
        Instruction::Value(ValueReason::ObjectVal) => Some(Expectation::ObjectVal),
        Instruction::ObjectKeyOrObjectClose => Some(Expectation::ObjectKeyOrObjectClose),
        Instruction::ListItemOrListClose => Some(Expectation::ListItemOrListClose),
        Instruction::SkipValue => None,
        Instruction::Pop(_) => None,
    }
}

/// Returns what a format is asked for to carry out `instruction`.
pub fn expectation(instruction: Instruction) -> (r: Option<Expectation>)
    ensures
        r == expected(instruction),
{
    match instruction {
        Instruction::Value(ValueReason::TopLevel) => Some(Expectation::Value),
        Instruction::Value(ValueReason::ObjectVal) => Some(Expectation::ObjectVal),
        Instruction::ObjectKeyOrObjectClose => Some(Expectation::ObjectKeyOrObjectClose),
        Instruction::ListItemOrListClose => Some(Expectation::ListItemOrListClose),
        Instruction::SkipValue => None,
        Instruction::Pop(_) => None,
    }
}

/// Trait defining a deserialization format.
/// Provides the next parsing step based on current state and expected input.
pub trait Format {
    /// The lowercase source ID of the format, used for error reporting.
    fn source(&self) -> &'static str;

    /// Advance the parser with current state and expectation, producing the next outcome or error.
    /// The last outcome of a document has to reach to the end of the input: what is blank behind it
    /// belongs to its span.
    fn next<'input, 'facet>(
        &mut self,
        nd: &NextData<'input, 'facet>,
        expectation: Expectation,
    ) -> Result<Spanned<Outcome<'input>>, Spanned<DeserErrorKind>>
        requires
            nd.in_order(),
            expected(nd.instruction()) == Some(expectation),
    ;

    /// Skip the next value; used to ignore an input.
    fn skip<'input, 'facet>(&mut self, nd: &NextData<'input, 'facet>) -> Result<
        Span,
        Spanned<DeserErrorKind>,
    >
        requires
            nd.in_order(),
            nd.instruction() is SkipValue,
    ;
}

/// What a format answered.
pub enum Answer<'input> {
    /// It was not asked.
    Silent,
    /// What it read next.
    Read(Result<Spanned<Outcome<'input>>, Spanned<DeserErrorKind>>),
    /// What it skipped.
    Skipped(Result<Span, Spanned<DeserErrorKind>>),
}

/// The state between two instructions: that of the runner, and the calls made so far.
pub struct State {
    pub runner: RunnerView,
    pub log: Seq<Call>,
}

/// What the carrying out of an instruction leads to.
pub enum Effect {
    /// The next instruction.
    Continue,
    /// The finished value.
    Finish,
    /// A floating-point number that is to be stored before the next instruction.
    Float(FloatRequest),
    /// An error.
    Fail(ErrorView),
}

/// What came of an instruction.
pub struct Step {
    pub state: State,
    pub effect: Effect,
}

impl Step {
    /// Calls, after which the runner is as `runner`.
    pub open spec fn plain(runner: RunnerView, attempt: Attempt) -> Step {
        Step {
            state: State { runner, log: attempt.log },
            effect: match attempt.err {
                Some(kind) => Effect::Fail(kind),
                None => Effect::Continue,
            },
        }
    }

    /// What came of something that was read.
    pub open spec fn of_turn(turn: Turn) -> Step {
        Step {
            state: State { runner: turn.runner, log: turn.log },
            effect: match turn.err {
                Some(kind) => Effect::Fail(kind),
                None => match turn.float {
                    Some(request) => Effect::Float(request),
                    None => Effect::Continue,
                },
            },
        }
    }
}

/// The frames above the first ended, last one first.
pub open spec fn frames_ended(log: Seq<Call>, record: Seq<Call>) -> Attempt
    decreases record.len() - log.len(),
{
    if partial::depth_at(log) <= 1 || log.len() >= record.len() {
        Attempt::begin(log)
    } else {
        let ended = Attempt::begin(log).call(Op::End, record);
        if ended.err is Some {
            ended
        } else {
            frames_ended(ended.log, record)
        }
    }
}

/// Whether the input goes on behind what was read last.
pub open spec fn input_left(runner: RunnerView) -> bool {
    runner.last_span.start + runner.last_span.len < runner.input.len()
}

/// A frame ended: what was not read takes its default; then the frame is left or, if it is the
/// value as a whole, all frames that are left are, and the value is built, unless there is input
/// left.
pub open spec fn pop_step(
    runner: RunnerView,
    log: Seq<Call>,
    reason: PopReason,
    default: DefaultView,
    record: Seq<Call>,
) -> Step {
    let settled = pop::pop_attempt(log, reason, default, record);
    if settled.err is Some {
        Step::plain(runner, settled)
    } else if reason is TopLevel {
        let ended = frames_ended(settled.log, record);
        let built = if input_left(runner) && ended.err is None {
            ended.fail(ErrorView::InputLeft)
        } else {
            ended.call(Op::Build, record)
        };
        Step {
            effect: match built.err {
                Some(kind) => Effect::Fail(kind),
                None => Effect::Finish,
            },
            ..Step::plain(runner, built)
        }
    } else {
        Step::plain(runner, settled.call(Op::End, record))
    }
}

/// Whether the end of `span` is an offset.
pub open spec fn has_end(span: Span) -> bool {
    span.start + span.len <= usize::MAX
}

/// The error where the input goes on past every offset.
pub open spec fn no_offset() -> ErrorView {
    ErrorView::Unimplemented("input past the largest offset"@)
}

/// What comes of what a format read for `instruction`.
pub open spec fn read_step(
    runner: RunnerView,
    instruction: Instruction,
    log: Seq<Call>,
    read: Spanned<Outcome<'_>>,
    record: Seq<Call>,
) -> Step {
    let seen = RunnerView { last_span: read.span, ..runner };
    match instruction {
        Instruction::ObjectKeyOrObjectClose => Step::of_turn(
            object::object_turn(seen, log, read.node, record),
        ),
        Instruction::ListItemOrListClose => Step::of_turn(
            list::list_turn(seen, log, read.node, record),
        ),
        _ => Step::of_turn(value::value_turn(seen, log, read.node, record)),
    }
}

/// What comes of `instruction`, given what the format answers. It is not asked where there is no
/// offset to read from.
pub open spec fn answered(
    runner: RunnerView,
    instruction: Instruction,
    log: Seq<Call>,
    answer: Answer<'_>,
    record: Seq<Call>,
) -> Step {
    let start = Attempt::begin(log);
    match answer {
        Answer::Read(Ok(read)) => read_step(runner, instruction, log, read, record),
        Answer::Read(Err(e)) => Step::plain(
            RunnerView { last_span: e.span, ..runner },
            start.fail(e.node@),
        ),
        Answer::Skipped(Ok(span)) => Step::plain(RunnerView { last_span: span, ..runner }, start),
        Answer::Skipped(Err(e)) => Step::plain(
            RunnerView { last_span: e.span, ..runner },
            start.fail(e.node@),
        ),
        Answer::Silent => Step::plain(runner, start.fail(no_offset())),
    }
}

/// What comes of the instruction that is next in `state`, given what the format answers and what
/// comes of making a default value.
#[verifier::opaque]
pub open spec fn step(
    state: State,
    answer: Answer<'_>,
    default: DefaultView,
    record: Seq<Call>,
) -> Step {
    let instruction = state.runner.stack.last();
    let runner = RunnerView { stack: state.runner.stack.drop_last(), ..state.runner };
    match instruction {
        Instruction::Pop(reason) => pop_step(runner, state.log, reason, default, record),
        _ => answered(runner, instruction, state.log, answer, record),
    }
}

/// Whether `answer` is one that the next instruction of `state` calls for.
pub open spec fn answers(state: State, answer: Answer<'_>) -> bool {
    let instruction = state.runner.stack.last();
    if instruction is Pop || !has_end(state.runner.last_span) {
        answer is Silent
    } else if instruction is SkipValue {
        answer is Skipped
    } else {
        answer is Read
    }
}

/// Whether the value as a whole is ended last, and only then.
pub open spec fn well_stacked(stack: Seq<Instruction>) -> bool {
    &&& stack.len() > 0
    &&& stack[0] == Instruction::Pop(PopReason::TopLevel)
    &&& forall|i: int| 0 < i < stack.len() ==> #[trigger] stack[i] != Instruction::Pop(
        PopReason::TopLevel,
    )
}

/// Whether the format says that a list ends where a value is due.
pub open spec fn misread(instruction: Instruction, answer: Answer<'_>) -> bool {
    instruction is Value && (answer matches Answer::Read(Ok(read)) && read.node is ListEnded)
}

/// Whether there are at least as many frames to spare for the instructions that end one as before.
/// It is so unless the format misread a list, or a smart pointer to a slice, which has no frame of
/// its own, was entered.
pub open spec fn keeps_frames(before: State, answer: Answer<'_>, after: State) -> bool {
    ||| misread(before.runner.stack.last(), answer)
    ||| runner::enters_slice(after.log, before.log.len() as int)
    ||| runner::slack(before.runner.stack, before.log) <= runner::slack(
        after.runner.stack,
        after.log,
    )
}

/// Whether `default` came of making a default value, if the next instruction of `state` ends a frame
/// for which one is made.
pub open spec fn default_made(state: State, default: DefaultView, record: Seq<Call>) -> bool {
    state.runner.stack.last() matches Instruction::Pop(reason) ==> pop::default_made(
        state.log,
        reason,
        default,
        record,
    )
}

/// Whether, if the next instruction of `before` ends a frame, that had all the fields that it is
/// owed when it ended.
pub open spec fn ends_complete(before: State, default: DefaultView, after: State) -> bool {
    before.runner.stack.last() matches Instruction::Pop(reason) ==> {
        let settled = pop::pop_attempt(before.log, reason, default, after.log).log;
        &&& pop::owed_complete(before.log, reason, default, after.log) ==> partial::all_set(settled)
    }
}

/// What came of an instruction.
pub enum Advance<'facet> {
    /// The next instruction.
    Continue,
    /// The finished value.
    Finish(HeapValue<'facet>),
    /// A floating-point number that is to be stored before the next instruction.
    Float(FloatRequest),
}

/// `r` is what came of `step`, which left `nd`.
pub open spec fn advanced_as<'input, 'facet>(
    step: Step,
    nd: NextData<'input, 'facet>,
    r: Result<Advance<'facet>, DeserError<'input>>,
) -> bool {
    &&& nd.now() == step.state
    &&& match step.effect {
        Effect::Continue => r matches Ok(Advance::Continue),
        Effect::Finish => {
            &&& r matches Ok(Advance::Finish(value)) && partial::built_from(value)
                == step.state.log.drop_last()
            &&& !input_left(nd.state())
        },
        Effect::Float(request) => r == Ok::<Advance<'facet>, DeserError<'input>>(
            Advance::Float(request),
        ),
        Effect::Fail(kind) => r matches Err(e) && nd.state().reports(e, kind),
    }
}

/// Ends the frames above the first, last one first.
fn end_frames<'input>(runner: &StackRunner<'input>, wip: &mut Partial<'_>) -> (r: Result<
    (),
    DeserError<'input>,
>)
    requires
        runner::ready(*old(wip)),
    ensures
        runner::ready(*final(wip)),
        runner::follows(partial::calls(*final(wip)), partial::calls(*old(wip))),
        forall|record: Seq<Call>|
            runner::extends(record, partial::calls(*final(wip))) ==> runner::results_in(
                #[trigger] frames_ended(partial::calls(*old(wip)), record),
                runner@,
                *final(wip),
                r,
            ),
{
    while partial::frame_count(wip) > 1
        invariant
            runner::ready(*wip),
            runner::follows(partial::calls(*wip), partial::calls(*old(wip))),
            forall|record: Seq<Call>|
                runner::extends(record, partial::calls(*wip)) ==> #[trigger] frames_ended(
                    partial::calls(*old(wip)),
                    record,
                ) == frames_ended(partial::calls(*wip), record),
        decreases partial::depth_at(partial::calls(*wip)),
    {
        match partial::end(wip) {
            Ok(()) => {},
            Err(e) => {
                return Err(runner.reflect_err(e));
            },
        }
    }
    Ok(())
}

impl<'input, 'facet> NextData<'input, 'facet> where 'input: 'facet {
    /// Returns whether the input goes on behind what was read last.
    fn has_input_left(&self) -> (r: bool)
        ensures
            r == input_left(self.state()),
    {
        let last: Span = self.runner.last_span;
        let len: usize = self.runner.input.len();
        match last.start.checked_add(last.len) {
            Some(end) => end < len,
            None => false,
        }
    }

    /// Ends a frame.
    fn pop(&mut self, reason: PopReason) -> (r: Result<Advance<'facet>, DeserError<'input>>)
        requires
            runner::ready_at(old(self).log()),
        ensures
            r matches Ok(Advance::Continue) ==> runner::ready_at(final(self).log()),
            !(r matches Ok(Advance::Float(_))),
            final(self).state() == old(self).state(),
            r matches Ok(Advance::Continue) ==> reason !is TopLevel && partial::depth_at(
                final(self).log(),
            ) >= partial::depth_at(old(self).log()) - 1,
            runner::follows(final(self).log(), old(self).log()),
            exists|default: DefaultView|
                {
                    &&& #[trigger] pop::default_made(
                        old(self).log(),
                        reason,
                        default,
                        final(self).log(),
                    )
                    &&& r is Ok ==> {
                        let settled = pop::pop_attempt(
                            old(self).log(),
                            reason,
                            default,
                            final(self).log(),
                        ).log;
                        &&& pop::owed_complete(
                            old(self).log(),
                            reason,
                            default,
                            final(self).log(),
                        ) ==> partial::all_set(settled)
                    }
                    &&& advanced_as(
                        pop_step(
                            old(self).state(),
                            old(self).log(),
                            reason,
                            default,
                            final(self).log(),
                        ),
                        *final(self),
                        r,
                    )
                },
    {
        let ghost before = self.log();
        let settled = self.runner.settle(&mut self.wip, reason);
        let ghost after = self.log();
        let ghost default = choose|default: DefaultView|
            {
                &&& #[trigger] pop::default_made(before, reason, default, after)
                &&& forall|record: Seq<Call>|
                    runner::extends(record, after) ==> runner::results_in(
                        #[trigger] pop::pop_attempt(before, reason, default, record),
                        self.state(),
                        self.wip,
                        settled,
                    )
                &&& forall|record: Seq<Call>|
                    runner::extends(record, after) && settled is Ok
                        && #[trigger] pop::owed_complete(before, reason, default, record)
                        ==> partial::all_set(after)
            };
        match settled {
            Ok(()) => {},
            Err(e) => {
                return Err(e);
            },
        }
        if reason != PopReason::TopLevel {
            let ended = partial::end(&mut self.wip);
            assert(pop::default_made(before, reason, default, self.log()));
            return match ended {
                Ok(()) => Ok(Advance::Continue),
                Err(e) => Err(self.runner.reflect_err(e)),
            };
        }
        // Exit all nested frames (e.g., from flattened fields) before building
        match end_frames(&self.runner, &mut self.wip) {
            Ok(()) => {},
            Err(e) => {
                assert(pop::default_made(before, reason, default, self.log()));
                return Err(e);
            },
        }
        if self.has_input_left() {
            assert(pop::default_made(before, reason, default, self.log()));
            return Err(self.runner.err(DeserErrorKind::InputLeft));
        }
        let ghost ended = self.log();
        let built = partial::build(&mut self.wip);
        assert(pop::default_made(before, reason, default, self.log()));
        match built {
            Ok(value) => {
                assert(self.log().drop_last() == ended);
                Ok(Advance::Finish(value))
            },
            Err(e) => Err(self.runner.reflect_err(e)),
        }
    }

    /// Carries out an instruction with what was read for it.
    fn read(&mut self, instruction: Instruction, read: Spanned<Outcome<'input>>) -> (r: Result<
        Advance<'facet>,
        DeserError<'input>,
    >)
        requires
            runner::ready_at(old(self).log()),
            expected(instruction) is Some,
        ensures
            !(r matches Ok(Advance::Finish(_))),
            r is Ok ==> runner::ready_at(final(self).log()),
            runner::follows(final(self).log(), old(self).log()),
            r is Ok ==> stack_laws::only_adds(old(self).state().stack, final(self).state().stack),
            r is Ok && !(instruction is Value && read.node is ListEnded) && !runner::enters_slice(
                final(self).log(),
                old(self).log().len() as int,
            ) ==> runner::slack(old(self).state().stack, old(self).log()) <= runner::slack(
                final(self).state().stack,
                final(self).log(),
            ),
            advanced_as(
                read_step(old(self).state(), instruction, old(self).log(), read, final(self).log()),
                *final(self),
                r,
            ),
    {
        let ghost log = self.log();
        self.runner.last_span = read.span;
        let ghost seen = self.state();
        let ghost node = read.node;
        match instruction {
            Instruction::ObjectKeyOrObjectClose => {
                let handled = self.runner.object_key_or_object_close(&mut self.wip, read);
                proof {
                    stack_laws::object_only_adds(seen, log, node, self.log());
                }
                match handled {
                    Ok(()) => Ok(Advance::Continue),
                    Err(e) => Err(e),
                }
            },
            _ => {
                let handled = match instruction {
                    Instruction::ListItemOrListClose => {
                        let handled = self.runner.list_item_or_list_close(&mut self.wip, read);
                        proof {
                            stack_laws::list_only_adds(seen, log, node, self.log());
                        }
                        handled
                    },
                    _ => {
                        let handled = self.runner.value(&mut self.wip, read);
                        proof {
                            stack_laws::value_only_adds(seen, log, node, self.log());
                        }
                        handled
                    },
                };
                match handled {
                    Ok(None) => Ok(Advance::Continue),
                    Ok(Some(request)) => Ok(Advance::Float(request)),
                    Err(e) => Err(e),
                }
            },
        }
    }

    /// Carries out the next instruction with the answer of the format: what was read goes to the
    /// value, the place of the answer is where an error is reported from then on, and an error of
    /// the format ends the deserialization.
    pub fn carry_out(&mut self, answer: Answer<'input>) -> (r: Result<
        Advance<'facet>,
        DeserError<'input>,
    >)
        requires
            runner::ready_at(old(self).log()),
            well_stacked(old(self).state().stack),
            answers(old(self).now(), answer),
        ensures
            r is Ok && r->Ok_0 !is Finish ==> {
                &&& runner::ready_at(final(self).log())
                &&& well_stacked(final(self).state().stack)
            },
            runner::follows(final(self).log(), old(self).log()),
            exists|default: DefaultView|
                {
                    &&& default_made(old(self).now(), default, final(self).log())
                    &&& r is Ok && r->Ok_0 !is Finish ==> keeps_frames(
                        old(self).now(),
                        answer,
                        final(self).now(),
                    )
                    &&& r is Ok ==> ends_complete(old(self).now(), default, final(self).now())
                    &&& advanced_as(
                        #[trigger] step(old(self).now(), answer, default, final(self).log()),
                        *final(self),
                        r,
                    )
                },
    {
        reveal(step);
        let ghost before = self.now();
        let instruction = match self.runner.stack.pop() {
            Some(instruction) => instruction,
            None => {
                // The instruction that ends the value as a whole is still there
                assert(false);
                return Ok(Advance::Continue);
            },
        };
        let ghost popped = self.state();
        assert(popped.stack == before.runner.stack.drop_last());
        assert(popped == (RunnerView {
            stack: before.runner.stack.drop_last(),
            ..before.runner
        }));
        assert(before.runner.stack == popped.stack.push(instruction));
        proof {
            runner::lemma_frames_owed(popped.stack, instruction);
        }
        match instruction {
            Instruction::Pop(reason) => {
                let r = self.pop(reason);
                proof {
                    let default = choose|default: DefaultView|
                        {
                            &&& #[trigger] pop::default_made(
                                before.log,
                                reason,
                                default,
                                self.log(),
                            )
                            &&& r is Ok ==> ends_complete(before, default, self.now())
                            &&& advanced_as(
                                pop_step(popped, before.log, reason, default, self.log()),
                                *self,
                                r,
                            )
                        };
                    assert(advanced_as(step(before, answer, default, self.log()), *self, r));
                }
                return r;
            },
            _ => {},
        }
        let ghost given = answer;
        let r = match answer {
            Answer::Read(Ok(read)) => self.read(instruction, read),
            Answer::Read(Err(e)) => {
                self.runner.last_span = e.span;
                Err(self.runner.err(e.node))
            },
            Answer::Skipped(Ok(span)) => {
                self.runner.last_span = span;
                Ok(Advance::Continue)
            },
            Answer::Skipped(Err(e)) => {
                self.runner.last_span = e.span;
                Err(self.runner.err(e.node))
            },
            Answer::Silent => Err(
                self.runner.err(DeserErrorKind::Unimplemented("input past the largest offset")),
            ),
        };
        assert(advanced_as(
            step(before, given, DefaultView::Ready(None), self.log()),
            *self,
            r,
        ));
        r
    }

    /// Asks the format for what the next instruction calls for.
    fn ask<F: Format>(&mut self, format: &mut F) -> (r: Answer<'input>)
        requires
            runner::ready_at(old(self).log()),
            well_stacked(old(self).state().stack),
            old(self).holds_whole_input(),
        ensures
            final(self).now() == old(self).now(),
            answers(old(self).now(), r),
            match r {
                Answer::Silent => *final(format) == *old(format),
                Answer::Read(read) => exists|f: &mut F, nd: NextData<'input, 'facet>|
                    {
                        &&& #[trigger] call_ensures(
                            F::next,
                            (f, &nd, expected(old(self).instruction())->0),
                            read,
                        )
                        &&& nd.shows(old(self).now())
                        &&& *f == *old(format)
                        &&& *final(f) == *final(format)
                    },
                Answer::Skipped(skipped) => exists|f: &mut F, nd: NextData<'input, 'facet>|
                    {
                        &&& #[trigger] call_ensures(F::skip, (f, &nd), skipped)
                        &&& nd.shows(old(self).now())
                        &&& *f == *old(format)
                        &&& *final(f) == *final(format)
                    },
            },
    {
        let instruction: Instruction = self.runner.stack[self.runner.stack.len() - 1];
        match instruction {
            Instruction::Pop(_) => {
                return Answer::Silent;
            },
            _ => {},
        }
        let last: Span = self.runner.last_span;
        match last.start.checked_add(last.len) {
            Some(start) => {
                self.start = start;
            },
            None => {
                return Answer::Silent;
            },
        }
        match expectation(instruction) {
            Some(expectation) => Answer::Read(format.next(&*self, expectation)),
            None => Answer::Skipped(format.skip(&*self)),
        }
    }
}

/// A run of instructions: the states before, between and after them, and for each what the format
/// answered and what came of making a default value.
pub struct Run<'input> {
    pub states: Seq<State>,
    pub answers: Seq<Answer<'input>>,
    pub defaults: Seq<DefaultView>,
}

impl<'input> Run<'input> {
    /// What came of instruction number `k`.
    pub open spec fn step(self, k: int) -> Step {
        step(self.states[k], self.answers[k], self.defaults[k], self.states[k + 1].log)
    }

    /// Whether instruction number `k` was carried out.
    pub open spec fn carried_out(self, k: int) -> bool {
        &&& well_stacked(self.states[k].runner.stack)
        &&& answers(self.states[k], self.answers[k])
        &&& default_made(self.states[k], self.defaults[k], self.states[k + 1].log)
        &&& self.step(k).state == self.states[k + 1]
        &&& runner::follows(self.states[k + 1].log, self.states[k].log)
        &&& self.step(k).effect is Continue || self.step(k).effect is Float ==> keeps_frames(
            self.states[k],
            self.answers[k],
            self.states[k + 1],
        )
        &&& self.step(k).effect !is Fail ==> ends_complete(
            self.states[k],
            self.defaults[k],
            self.states[k + 1],
        )
    }

    /// Whether the instructions were carried out one after the other, from `start` on, each but
    /// the last leading to the next.
    pub open spec fn carried_out_from(self, start: State) -> bool {
        &&& self.states.len() == self.answers.len() + 1
        &&& self.states.len() == self.defaults.len() + 1
        &&& self.states[0] == start
        &&& forall|k: int| 0 <= k < self.answers.len() ==> #[trigger] self.carried_out(k)
        &&& forall|k: int|
            0 <= k < self.answers.len() - 1 ==> (#[trigger] self.step(k)).effect is Continue
    }

    /// Whether there is one of `formats`, the states of a format, before each instruction and one
    /// after the last.
    pub open spec fn is_between<F>(self, formats: Seq<F>) -> bool {
        formats.len() == self.states.len()
    }

    /// This run, and one more instruction.
    pub open spec fn and(
        self,
        answer: Answer<'input>,
        default: DefaultView,
        state: State,
    ) -> Run<'input> {
        Run {
            states: self.states.push(state),
            answers: self.answers.push(answer),
            defaults: self.defaults.push(default),
        }
    }

    /// What the last instruction led to.
    pub open spec fn effect(self) -> Effect {
        self.step(self.answers.len() - 1).effect
    }

    /// Whether `r` is what the run comes to. It comes to an error if there are instructions left
    /// after as many as can be counted.
    pub open spec fn comes_to<'facet>(
        self,
        r: Result<Progress<'input, 'facet>, DeserError<'input>>,
    ) -> bool {
        &&& self.answers.len() >= 1
        &&& match self.effect() {
            Effect::Finish => {
                &&& r matches Ok(Progress::Done(value)) && partial::built_from(value)
                    == self.states.last().log.drop_last()
                &&& !input_left(self.states.last().runner)
            },
            Effect::Float(request) => r matches Ok(Progress::Float(pending)) && pending.request
                == request && pending.data.now() == self.states.last(),
            Effect::Fail(kind) => r matches Err(e) && self.states.last().runner.reports(e, kind),
            Effect::Continue => self.answers.len() == u64::MAX && (r matches Err(e)
                && self.states.last().runner.reports(
                e,
                ErrorView::Unimplemented("more instructions than can be counted"@),
            )),
        }
    }
}

/// How far deserialization has come.
pub enum Progress<'input, 'facet> where 'input: 'facet {
    /// The value is finished.
    Done(HeapValue<'facet>),
    /// A floating-point number is to be stored.
    Float(PendingFloat<'input, 'facet>),
}

/// A deserialization that goes on once a floating-point number is stored in the last frame of
/// `data.wip`.
pub struct PendingFloat<'input, 'facet> where 'input: 'facet {
    /// The state.
    pub data: NextData<'input, 'facet>,
    /// The number.
    pub request: FloatRequest,
}

impl<'input, 'facet> PendingFloat<'input, 'facet> where 'input: 'facet {
    /// Whether the deserialization can go on.
    pub open spec fn in_order(&self) -> bool {
        &&& runner::ready_at(self.data.log())
        &&& well_stacked(self.data.state().stack)
        &&& self.data.holds_whole_input()
    }
}

/// Carries out instructions until the value is finished, a floating-point number is to be stored,
/// or something goes wrong.
fn run<'input, 'facet, F: Format>(first: NextData<'input, 'facet>, format: &mut F) -> (r: Result<
    Progress<'input, 'facet>,
    DeserError<'input>,
>) where 'input: 'facet
    requires
        runner::ready_at(first.log()),
        well_stacked(first.state().stack),
        first.holds_whole_input(),
    ensures
        r matches Ok(Progress::Float(pending)) ==> pending.in_order(),
        exists|run: Run<'input>, formats: Seq<F>|
            {
                &&& #[trigger] run.carried_out_from(first.now())
                &&& run.comes_to(r)
                &&& #[trigger] run.is_between(formats)
                &&& formats[0] == *old(format)
                &&& formats.last() == *final(format)
                &&& forall|k: int|
                    0 <= k < run.answers.len() ==> match #[trigger] run.answers[k] {
                        Answer::Silent => formats[k + 1] == formats[k],
                        Answer::Read(read) => exists|f: &mut F, nd: NextData<'input, 'facet>|
                            {
                                &&& #[trigger] call_ensures(
                                    F::next,
                                    (f, &nd, expected(run.states[k].runner.stack.last())->0),
                                    read,
                                )
                                &&& nd.shows(run.states[k])
                                &&& *f == formats[k]
                                &&& *final(f) == formats[k + 1]
                            },
                        Answer::Skipped(skipped) => exists|f: &mut F, nd: NextData<'input, 'facet>|
                            {
                                &&& #[trigger] call_ensures(F::skip, (f, &nd), skipped)
                                &&& nd.shows(run.states[k])
                                &&& *f == formats[k]
                                &&& *final(f) == formats[k + 1]
                            },
                    }
            },
{
    let ghost start = first.now();
    let ghost mut run = Run {
        states: seq![start],
        answers: Seq::<Answer<'input>>::empty(),
        defaults: Seq::<DefaultView>::empty(),
    };
    let ghost mut formats: Seq<F> = seq![*format];
    let mut nd = first;
    let mut left: u64 = u64::MAX;
    while left > 0
        invariant
            runner::ready_at(nd.log()),
            well_stacked(nd.state().stack),
            nd.holds_whole_input(),
            start == first.now(),
            run.carried_out_from(start),
            run.answers.len() == u64::MAX - left,
            run.states.last() == nd.now(),
            run.answers.len() > 0 ==> run.effect() is Continue,
            run.is_between(formats),
            formats[0] == *old(format),
            formats.last() == *format,
            forall|k: int|
                0 <= k < run.answers.len() ==> match #[trigger] run.answers[k] {
                    Answer::Silent => formats[k + 1] == formats[k],
                    Answer::Read(read) => exists|f: &mut F, nd: NextData<'input, 'facet>|
                        {
                            &&& #[trigger] call_ensures(
                                F::next,
                                (f, &nd, expected(run.states[k].runner.stack.last())->0),
                                read,
                            )
                            &&& nd.shows(run.states[k])
                            &&& *f == formats[k]
                            &&& *final(f) == formats[k + 1]
                        },
                    Answer::Skipped(skipped) => exists|f: &mut F, nd: NextData<'input, 'facet>|
                        {
                            &&& #[trigger] call_ensures(F::skip, (f, &nd), skipped)
                            &&& nd.shows(run.states[k])
                            &&& *f == formats[k]
                            &&& *final(f) == formats[k + 1]
                        },
                },
        decreases left,
    {
        let ghost before = nd.now();
        let answer = nd.ask(format);
        let ghost given = answer;
        let advanced = nd.carry_out(answer);
        proof {
            let default = choose|default: DefaultView|
                {
                    &&& default_made(before, default, nd.log())
                    &&& advanced is Ok && advanced->Ok_0 !is Finish ==> keeps_frames(
                        before,
                        given,
                        nd.now(),
                    )
                    &&& advanced is Ok ==> ends_complete(before, default, nd.now())
                    &&& advanced_as(
                        #[trigger] step(before, given, default, nd.log()),
                        nd,
                        advanced,
                    )
                };
            laws::errors_are_where_the_format_last_answered(before, given, default, nd.log());
            lemma_run_extended(run, start, given, default, nd.now());
            run = run.and(given, default, nd.now());
            formats = formats.push(*format);
            assert(run.is_between(formats));
        }
        left = left - 1;
        match advanced {
            Ok(Advance::Continue) => {},
            Ok(Advance::Finish(value)) => {
                let r = Ok(Progress::Done(value));
                assert(run.comes_to(r));
                return r;
            },
            Ok(Advance::Float(request)) => {
                let r = Ok(Progress::Float(PendingFloat { data: nd, request }));
                assert(run.comes_to(r));
                return r;
            },
            Err(e) => {
                let r = Err(e);
                assert(run.comes_to(r));
                return r;
            },
        }
    }
    let r = Err(
        nd.runner.err(DeserErrorKind::Unimplemented("more instructions than can be counted")),
    );
    assert(run.comes_to(r));
    r
}

/// A run with one more instruction carried out is a run.
proof fn lemma_run_extended<'input>(
    run: Run<'input>,
    start: State,
    answer: Answer<'input>,
    default: DefaultView,
    state: State,
)
    requires
        run.carried_out_from(start),
        run.answers.len() > 0 ==> run.effect() is Continue,
        well_stacked(run.states.last().runner.stack),
        answers(run.states.last(), answer),
        default_made(run.states.last(), default, state.log),
        step(run.states.last(), answer, default, state.log).state == state,
        runner::follows(state.log, run.states.last().log),
        ({
            let effect = step(run.states.last(), answer, default, state.log).effect;
            &&& effect is Continue || effect is Float ==> keeps_frames(
                run.states.last(),
                answer,
                state,
            )
            &&& effect !is Fail ==> ends_complete(run.states.last(), default, state)
        }),
    ensures
        run.and(answer, default, state).carried_out_from(start),
        run.and(answer, default, state).effect() == step(
            run.states.last(),
            answer,
            default,
            state.log,
        ).effect,
{
    let longer = run.and(answer, default, state);
    let n = run.answers.len() as int;
    assert forall|k: int| 0 <= k < n implies #[trigger] longer.step(k) == run.step(k)
        && longer.carried_out(k) by {
        assert(run.carried_out(k));
    }
    assert(longer.carried_out(n));
    assert forall|k: int| 0 <= k < n + 1 implies #[trigger] longer.carried_out(k) by {
        if k < n {
            assert(longer.step(k) == run.step(k));
        }
    }
    assert forall|k: int| 0 <= k < n implies (#[trigger] longer.step(k)).effect is Continue by {
        assert(longer.step(k) == run.step(k));
    }
}

/// The state in which the deserialization of a value from `input` starts: the value is to be read,
/// and then to be ended.
pub open spec fn initial(input: Seq<u8>, source: Seq<char>, log: Seq<Call>) -> State {
    State {
        runner: RunnerView {
            original_input: input,
            input,
            stack: seq![
                Instruction::Pop(PopReason::TopLevel),
                Instruction::Value(ValueReason::TopLevel),
            ],
            last_span: Span { start: 0, len: 0 },
            format_source: source,
            array_indices: Seq::empty(),
            enum_tuple_field_count: None,
            enum_tuple_current_field: None,
        },
        log,
    }
}

/// Deserializes a working-in-progress value into a fully materialized heap value.
/// This function drives the parsing loop until the entire input is consumed and the value is
/// complete, or a floating-point number is to be stored. Input behind the value is an error.
///
/// The answers of the run are those of the format: it is asked once for each instruction that calls
/// for it, with what is shown there, and not at any other time.
pub fn deserialize_wip<'input, 'facet, F>(
    wip: Partial<'facet>,
    input: &'input [u8],
    format: &mut F,
) -> (r: Result<Progress<'input, 'facet>, DeserError<'input>>) where F: Format, 'input: 'facet
    requires
        runner::ready(wip),
    ensures
        r matches Ok(Progress::Float(pending)) ==> pending.in_order(),
        exists|run: Run<'input>, formats: Seq<F>, source: &'static str|
            {
                &&& call_ensures(F::source, (&*old(format),), source)
                &&& #[trigger] run.carried_out_from(initial(input@, source@, partial::calls(wip)))
                &&& run.comes_to(r)
                &&& #[trigger] run.is_between(formats)
                &&& formats[0] == *old(format)
                &&& formats.last() == *final(format)
                &&& forall|k: int|
                    0 <= k < run.answers.len() ==> match #[trigger] run.answers[k] {
                        Answer::Silent => formats[k + 1] == formats[k],
                        Answer::Read(read) => exists|f: &mut F, nd: NextData<'input, 'facet>|
                            {
                                &&& #[trigger] call_ensures(
                                    F::next,
                                    (f, &nd, expected(run.states[k].runner.stack.last())->0),
                                    read,
                                )
                                &&& nd.shows(run.states[k])
                                &&& *f == formats[k]
                                &&& *final(f) == formats[k + 1]
                            },
                        Answer::Skipped(skipped) => exists|f: &mut F, nd: NextData<'input, 'facet>|
                            {
                                &&& #[trigger] call_ensures(F::skip, (f, &nd), skipped)
                                &&& nd.shows(run.states[k])
                                &&& *f == formats[k]
                                &&& *final(f) == formats[k + 1]
                            },
                    }
            },
{
    let format_source = format.source();
    run(NextData::new(wip, input, format_source), format)
}

/// Goes on with a deserialization once its floating-point number is stored, which came back as
/// `stored`.
pub fn resume<'input, 'facet, F>(
    pending: PendingFloat<'input, 'facet>,
    stored: Result<(), ReflectError>,
    format: &mut F,
) -> (r: Result<Progress<'input, 'facet>, DeserError<'input>>) where F: Format, 'input: 'facet
    requires
        pending.in_order(),
    ensures
        r matches Ok(Progress::Float(pending)) ==> pending.in_order(),
        stored matches Err(e) ==> (r matches Err(failed) && pending.data.state().reports(
            failed,
            ErrorView::ReflectError(e),
        )),
        stored is Ok ==> exists|run: Run<'input>, formats: Seq<F>|
            {
                &&& #[trigger] run.carried_out_from(pending.data.now())
                &&& run.comes_to(r)
                &&& #[trigger] run.is_between(formats)
                &&& formats[0] == *old(format)
                &&& formats.last() == *final(format)
                &&& forall|k: int|
                    0 <= k < run.answers.len() ==> match #[trigger] run.answers[k] {
                        Answer::Silent => formats[k + 1] == formats[k],
                        Answer::Read(read) => exists|f: &mut F, nd: NextData<'input, 'facet>|
                            {
                                &&& #[trigger] call_ensures(
                                    F::next,
                                    (f, &nd, expected(run.states[k].runner.stack.last())->0),
                                    read,
                                )
                                &&& nd.shows(run.states[k])
                                &&& *f == formats[k]
                                &&& *final(f) == formats[k + 1]
                            },
                        Answer::Skipped(skipped) => exists|f: &mut F, nd: NextData<'input, 'facet>|
                            {
                                &&& #[trigger] call_ensures(F::skip, (f, &nd), skipped)
                                &&& nd.shows(run.states[k])
                                &&& *f == formats[k]
                                &&& *final(f) == formats[k + 1]
                            },
                    }
            },
{
    match stored {
        Ok(()) => run(pending.data, format),
        Err(e) => Err(pending.data.runner.reflect_err(e)),
    }
}

/// Deserializes a value of the type `shape` from raw input bytes, until it is finished or a
/// floating-point number is to be stored: a value of that type is allocated, and that is
/// deserialized.
pub fn deserialize<'input, 'facet, F>(
    input: &'input [u8],
    shape: &'static Shape,
    format: &mut F,
) -> (r: Result<Progress<'input, 'facet>, DeserError<'input>>) where F: Format, 'input: 'facet
    ensures
        r matches Ok(Progress::Float(pending)) ==> pending.in_order(),
        partial::alloc_refusal(shape) matches Some(e) ==> (r matches Err(failed) && failed.input@
            == input@ && failed.span == (Span { start: 0, len: 0 }) && failed.kind@
            == ErrorView::ReflectError(e)),
        partial::alloc_refusal(shape) is None ==> exists|run: Run<'input>, formats: Seq<F>, source: &'static str|
            {
                &&& call_ensures(F::source, (&*old(format),), source)
                &&& #[trigger] run.carried_out_from(initial(input@, source@, seq![partial::done(Op::AllocShape(shape))]))
                &&& run.comes_to(r)
                &&& #[trigger] run.is_between(formats)
                &&& formats[0] == *old(format)
                &&& formats.last() == *final(format)
                &&& forall|k: int|
                    0 <= k < run.answers.len() ==> match #[trigger] run.answers[k] {
                        Answer::Silent => formats[k + 1] == formats[k],
                        Answer::Read(read) => exists|f: &mut F, nd: NextData<'input, 'facet>|
                            {
                                &&& #[trigger] call_ensures(
                                    F::next,
                                    (f, &nd, expected(run.states[k].runner.stack.last())->0),
                                    read,
                                )
                                &&& nd.shows(run.states[k])
                                &&& *f == formats[k]
                                &&& *final(f) == formats[k + 1]
                            },
                        Answer::Skipped(skipped) => exists|f: &mut F, nd: NextData<'input, 'facet>|
                            {
                                &&& #[trigger] call_ensures(F::skip, (f, &nd), skipped)
                                &&& nd.shows(run.states[k])
                                &&& *f == formats[k]
                                &&& *final(f) == formats[k + 1]
                            },
                    }
            },
        partial::alloc_refusal(shape) is None ==> partial::effect(
            Seq::empty(),
            partial::done(Op::AllocShape(shape)),
            seq![partial::done(Op::AllocShape(shape))],
        ),
{
    match partial::alloc_shape(shape) {
        Ok(wip) => deserialize_wip(wip, input, format),
        Err(e) => Err(DeserError::new_reflect(e, input, Span::default())),
    }
}

} // verus!
