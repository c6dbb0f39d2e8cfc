//! What holds of deserialization as a whole.
use crate::driver::{self, Answer, Effect, NextData, Progress, Run, State};
use crate::error::{DeserError, ErrorView};
use crate::instruction::{Instruction, PopReason, ValueReason};
use crate::list;
use crate::number_target::{self, FloatRequest, FloatWidth, IntegerType, NumericTarget};
use crate::numeric::{self, Number};
use crate::object::{self, Place};
use crate::partial::{self, Call, Integer, Op};
use crate::pop::{self, DefaultView};
use crate::runner::{self, Attempt, RunnerView};
use crate::scalar::{Outcome, Scalar};
use crate::shape::{self, FieldFlag};
use crate::span::Span;
use crate::stack_laws;
use crate::value;
use facet_core::{Field, Shape, Variant};
use facet_reflect::{HeapValue, ReflectError};
use vstd::prelude::*;

verus! {

/// As long as there is a next instruction, the one that ends the value as a whole is at the bottom
/// of the stack, and nowhere else. So the instructions never run out.
pub proof fn every_instruction_keeps_the_last_one(
    state: State,
    answer: Answer<'_>,
    default: DefaultView,
    record: Seq<Call>,
)
    requires
        driver::well_stacked(state.runner.stack),
        driver::answers(state, answer),
    ensures
        ({
            let step = driver::step(state, answer, default, record);
            step.effect is Continue || step.effect is Float ==> driver::well_stacked(
                step.state.runner.stack,
            )
        }),
{
    reveal(driver::step);
    let step = driver::step(state, answer, default, record);
    let runner = RunnerView { stack: state.runner.stack.drop_last(), ..state.runner };
    match answer {
        Answer::Read(Ok(read)) => {
            let seen = RunnerView { last_span: read.span, ..runner };
            stack_laws::value_only_adds(seen, state.log, read.node, record);
            stack_laws::object_only_adds(seen, state.log, read.node, record);
            stack_laws::list_only_adds(seen, state.log, read.node, record);
        },
        _ => {},
    }
}

/// Whether two states of the runner are on the same input, read by the same format.
pub open spec fn same_input(a: RunnerView, b: RunnerView) -> bool {
    &&& a.original_input == b.original_input
    &&& a.input == b.input
    &&& a.format_source == b.format_source
}

/// Whether two states of the runner are at the same place of the same input.
pub open spec fn same_place(a: RunnerView, b: RunnerView) -> bool {
    same_input(a, b) && a.last_span == b.last_span
}

/// Reading a value keeps the place.
proof fn lemma_value_keeps_the_place(
    runner: RunnerView,
    log: Seq<Call>,
    outcome: Outcome<'_>,
    record: Seq<Call>,
)
    ensures
        same_place(value::value_turn(runner, log, outcome, record).runner, runner),
{
    let resolution = value::resolved(runner.stack, log, false, record);
    let inside = RunnerView { stack: resolution.stack, ..runner };
    let inner = resolution.attempt.log;
    let begun = resolution.pointer_begun;
    assert(same_place(value::list_start_turn(inside, inner, begun, record).runner, inside));
    assert(same_place(value::list_end_turn(inside, inner, record).runner, inside));
    assert(same_place(value::object_start_turn(inside, inner, record).runner, inside));
}

/// Beginning an item keeps the place.
proof fn lemma_item_keeps_the_place(runner: RunnerView, log: Seq<Call>, record: Seq<Call>)
    ensures
        same_place(list::item_begun(runner, log, record).runner, runner),
{
}

/// Reading an item keeps the place.
proof fn lemma_list_keeps_the_place(
    runner: RunnerView,
    log: Seq<Call>,
    outcome: Outcome<'_>,
    record: Seq<Call>,
)
    ensures
        same_place(list::list_turn(runner, log, outcome, record).runner, runner),
{
    let pushed = runner.push(Instruction::ListItemOrListClose).push(
        Instruction::Pop(PopReason::ListVal),
    );
    let item = list::item_begun(pushed, log, record);
    let set = list::empty_tuple_set(item.attempt, outcome, record);
    lemma_item_keeps_the_place(pushed, log, record);
    lemma_value_keeps_the_place(item.runner, set.log, outcome, record);
}

/// Ending a frame keeps the place.
proof fn lemma_pop_keeps_the_place(
    runner: RunnerView,
    log: Seq<Call>,
    reason: PopReason,
    default: DefaultView,
    record: Seq<Call>,
)
    ensures
        same_place(driver::pop_step(runner, log, reason, default, record).state.runner, runner),
{
}

/// The place that `answer` is from, in an input of which `last` was read before.
pub open spec fn answered_at(answer: Answer<'_>, last: Span) -> Span {
    match answer {
        Answer::Read(Ok(read)) => read.span,
        Answer::Read(Err(e)) => e.span,
        Answer::Skipped(Ok(span)) => span,
        Answer::Skipped(Err(e)) => e.span,
        Answer::Silent => last,
    }
}

/// The input, and the name of the format, stay what they were, and the place is that of the last
/// answer of the format, whatever comes of it. That is where an error is reported.
pub proof fn errors_are_where_the_format_last_answered(
    state: State,
    answer: Answer<'_>,
    default: DefaultView,
    record: Seq<Call>,
)
    requires
        driver::answers(state, answer),
    ensures
        ({
            let after = driver::step(state, answer, default, record).state.runner;
            &&& same_input(after, state.runner)
            &&& after.last_span == answered_at(answer, state.runner.last_span)
        }),
{
    reveal(driver::step);
    let instruction = state.runner.stack.last();
    let runner = RunnerView { stack: state.runner.stack.drop_last(), ..state.runner };
    match instruction {
        Instruction::Pop(reason) => {
            lemma_pop_keeps_the_place(runner, state.log, reason, default, record);
        },
        _ => match answer {
            Answer::Read(Ok(read)) => {
                let seen = RunnerView { last_span: read.span, ..runner };
                lemma_value_keeps_the_place(seen, state.log, read.node, record);
                lemma_list_keeps_the_place(seen, state.log, read.node, record);
            },
            _ => {},
        },
    }
}

/// Whatever is read, the input stays what it was at the start, and so does the name of the format.
/// So the format always sees the input that the run started with.
pub proof fn a_run_keeps_the_input(run: Run<'_>, start: State, k: int)
    requires
        run.carried_out_from(start),
        0 <= k < run.states.len(),
    ensures
        same_input(run.states[k].runner, start.runner),
    decreases k,
{
    if k > 0 {
        a_run_keeps_the_input(run, start, k - 1);
        assert(run.carried_out(k - 1));
        errors_are_where_the_format_last_answered(
            run.states[k - 1],
            run.answers[k - 1],
            run.defaults[k - 1],
            run.states[k].log,
        );
    }
}

/// The format sees the whole of the input, from its start to its end, before each instruction of a
/// deserialization.
pub proof fn the_format_sees_the_whole_input(
    run: Run<'_>,
    input: Seq<u8>,
    source: Seq<char>,
    log: Seq<Call>,
    k: int,
)
    requires
        run.carried_out_from(driver::initial(input, source, log)),
        0 <= k < run.states.len(),
    ensures
        run.states[k].runner.input == input,
        run.states[k].runner.original_input == input,
{
    a_run_keeps_the_input(run, driver::initial(input, source, log), k);
}

/// The place that the first `k` instructions of a run have come to: that of the last answer of the
/// format, or `start` if it has given none.
pub open spec fn place_after(run: Run<'_>, start: Span, k: int) -> Span
    decreases k,
{
    if k <= 0 {
        start
    } else {
        answered_at(run.answers[k - 1], place_after(run, start, k - 1))
    }
}

/// Before each instruction of a run the last place is that of the last answer of the format. What
/// is read next starts where that ended.
pub proof fn reading_goes_on_where_it_stopped(run: Run<'_>, start: State, k: int)
    requires
        run.carried_out_from(start),
        0 <= k < run.states.len(),
    ensures
        run.states[k].runner.last_span == place_after(run, start.runner.last_span, k),
    decreases k,
{
    if k > 0 {
        reading_goes_on_where_it_stopped(run, start, k - 1);
        assert(run.carried_out(k - 1));
        errors_are_where_the_format_last_answered(
            run.states[k - 1],
            run.answers[k - 1],
            run.defaults[k - 1],
            run.states[k].log,
        );
    }
}

/// What the format is shown when it is asked is the whole input, and the offset at which its last
/// answer ended, or 0 if it has given none.
pub proof fn the_format_is_shown_where_to_go_on<'input, 'facet>(
    run: Run<'input>,
    input: Seq<u8>,
    source: Seq<char>,
    log: Seq<Call>,
    k: int,
    nd: NextData<'input, 'facet>,
)
    requires
        run.carried_out_from(driver::initial(input, source, log)),
        0 <= k < run.states.len(),
        nd.shows(run.states[k]),
    ensures
        nd.state().input == input,
        ({
            let last = place_after(run, Span { start: 0, len: 0 }, k);
            nd.offset() == last.start + last.len
        }),
{
    the_format_sees_the_whole_input(run, input, source, log, k);
    reading_goes_on_where_it_stopped(run, driver::initial(input, source, log), k);
}

/// An error that a deserialization ends in shows the whole input, and is at the place of the last
/// answer of the format, or at the start of the input if it has given none.
pub proof fn an_error_shows_the_input_and_the_last_answer<'input, 'facet>(
    run: Run<'input>,
    input: Seq<u8>,
    source: Seq<char>,
    log: Seq<Call>,
    r: Result<Progress<'input, 'facet>, DeserError<'input>>,
)
    requires
        run.carried_out_from(driver::initial(input, source, log)),
        run.comes_to(r),
    ensures
        r matches Err(e) ==> e.input@ == input && e.span == place_after(
            run,
            Span { start: 0, len: 0 },
            run.answers.len() as int,
        ),
{
    let start = driver::initial(input, source, log);
    let end = run.answers.len() as int;
    a_run_keeps_the_input(run, start, end);
    reading_goes_on_where_it_stopped(run, start, end);
    assert(run.states.last() == run.states[end]);
}

/// A state, with another input.
pub open spec fn with_input(runner: RunnerView, input: Seq<u8>) -> RunnerView {
    RunnerView { original_input: input, input, ..runner }
}

/// A turn, with another input.
pub open spec fn turn_with_input(turn: value::Turn, input: Seq<u8>) -> value::Turn {
    value::Turn { runner: with_input(turn.runner, input), ..turn }
}

/// Reading a value does not go by the input.
proof fn lemma_value_without_input(
    runner: RunnerView,
    log: Seq<Call>,
    outcome: Outcome<'_>,
    record: Seq<Call>,
    input: Seq<u8>,
)
    ensures
        value::value_turn(with_input(runner, input), log, outcome, record) == turn_with_input(
            value::value_turn(runner, log, outcome, record),
            input,
        ),
{
    let resolution = value::resolved(runner.stack, log, false, record);
    let inside = RunnerView { stack: resolution.stack, ..runner };
    let inner = resolution.attempt.log;
    let begun = resolution.pointer_begun;
    let other = with_input(inside, input);
    assert(value::list_start_turn(other, inner, begun, record) == turn_with_input(
        value::list_start_turn(inside, inner, begun, record),
        input,
    ));
    assert(value::list_end_turn(other, inner, record) == turn_with_input(
        value::list_end_turn(inside, inner, record),
        input,
    ));
    assert(value::object_start_turn(other, inner, record) == turn_with_input(
        value::object_start_turn(inside, inner, record),
        input,
    ));
}

/// Reading an item does not go by the input.
proof fn lemma_list_without_input(
    runner: RunnerView,
    log: Seq<Call>,
    outcome: Outcome<'_>,
    record: Seq<Call>,
    input: Seq<u8>,
)
    ensures
        list::list_turn(with_input(runner, input), log, outcome, record) == turn_with_input(
            list::list_turn(runner, log, outcome, record),
            input,
        ),
{
    let pushed = runner.push(Instruction::ListItemOrListClose).push(
        Instruction::Pop(PopReason::ListVal),
    );
    let item = list::item_begun(pushed, log, record);
    let set = list::empty_tuple_set(item.attempt, outcome, record);
    lemma_value_without_input(item.runner, set.log, outcome, record, input);
    assert(list::item_begun(with_input(pushed, input), log, record) == (list::Item {
        runner: with_input(item.runner, input),
        ..item
    }));
}

/// The input is read by the format alone: what comes of an answer goes by the length of the input,
/// which says whether some is left, and is the same whatever else the input holds.
pub proof fn the_input_is_for_the_format_to_read(
    state: State,
    answer: Answer<'_>,
    default: DefaultView,
    record: Seq<Call>,
    input: Seq<u8>,
)
    requires
        input.len() == state.runner.input.len(),
    ensures
        ({
            let other = State { runner: with_input(state.runner, input), ..state };
            let step = driver::step(state, answer, default, record);
            driver::step(other, answer, default, record) == (driver::Step {
                state: State {
                    runner: with_input(step.state.runner, input),
                    log: step.state.log,
                },
                effect: step.effect,
            })
        }),
{
    reveal(driver::step);
    let runner = RunnerView { stack: state.runner.stack.drop_last(), ..state.runner };
    match answer {
        Answer::Read(Ok(read)) => {
            let seen = RunnerView { last_span: read.span, ..runner };
            lemma_value_without_input(seen, state.log, read.node, record, input);
            lemma_list_without_input(seen, state.log, read.node, record, input);
        },
        _ => {},
    }
}

/// A run finishes with the instruction that ends the value as a whole, and then no other is left;
/// the last call builds the value, which has one frame left.
pub proof fn finishing_builds_the_value(
    state: State,
    answer: Answer<'_>,
    default: DefaultView,
    record: Seq<Call>,
)
    requires
        driver::well_stacked(state.runner.stack),
        driver::step(state, answer, default, record).effect is Finish,
        driver::step(state, answer, default, record).state.log == record,
    ensures
        state.runner.stack == seq![Instruction::Pop(PopReason::TopLevel)],
        record.len() > 0,
        record.last() == partial::done(Op::Build),
        partial::depth_at(record.drop_last()) <= 1,
{
    reveal(driver::step);
    let runner = RunnerView { stack: state.runner.stack.drop_last(), ..state.runner };
    let settled = pop::pop_attempt(state.log, PopReason::TopLevel, default, record);
    let ended = driver::frames_ended(settled.log, record);
    assert(record == ended.log.push(record.last()));
    assert(record.drop_last() == ended.log);
    lemma_frames_ended(settled.log, record);
}

/// The value that a deserialization finishes with is built from the calls it started with and those
/// that were made for what was read, and from no others.
pub proof fn what_was_read_is_what_is_built<'input, 'facet>(
    run: Run<'input>,
    start: State,
    value: HeapValue<'facet>,
)
    requires
        run.carried_out_from(start),
        run.comes_to(Ok(Progress::Done(value))),
    ensures
        run.states.last().log == partial::built_from(value).push(partial::done(Op::Build)),
        partial::depth_at(partial::built_from(value)) <= 1,
{
    let last = run.answers.len() - 1;
    assert(run.carried_out(last));
    finishing_builds_the_value(
        run.states[last],
        run.answers[last],
        run.defaults[last],
        run.states[last + 1].log,
    );
    let log = run.states.last().log;
    assert(log =~= log.drop_last().push(log.last()));
}

/// A deserialization finishes only where the last answer of the format reaches to the end of the
/// input: none is left over.
pub proof fn a_value_takes_the_whole_input<'input, 'facet>(
    run: Run<'input>,
    input: Seq<u8>,
    source: Seq<char>,
    log: Seq<Call>,
    value: HeapValue<'facet>,
)
    requires
        run.carried_out_from(driver::initial(input, source, log)),
        run.comes_to(Ok(Progress::Done(value))),
    ensures
        ({
            let last = place_after(run, Span { start: 0, len: 0 }, run.answers.len() as int);
            last.start + last.len >= input.len()
        }),
{
    let start = driver::initial(input, source, log);
    let end = run.answers.len() as int;
    a_run_keeps_the_input(run, start, end);
    reading_goes_on_where_it_stopped(run, start, end);
    assert(run.states.last() == run.states[end]);
}

/// Ending frames goes on until one is left.
proof fn lemma_frames_ended(log: Seq<Call>, record: Seq<Call>)
    requires
        driver::frames_ended(log, record).err is None,
        driver::frames_ended(log, record).log.len() < record.len(),
    ensures
        partial::depth_at(driver::frames_ended(log, record).log) <= 1,
    decreases record.len() - log.len(),
{
    if partial::depth_at(log) > 1 && log.len() < record.len() {
        let ended = Attempt::begin(log).call(Op::End, record);
        if ended.err is None {
            lemma_frames_ended(ended.log, record);
        }
    }
}

/// A struct, or an enum with a variant selected, is never ended without all its fields: either
/// they are all set by the time it ends, or that is an error. (An enum whose missing fields were to
/// come from a default value of another variant is left as it is, for its frame to refuse.)
pub proof fn what_is_ended_is_complete(run: Run<'_>, start: State, k: int, reason: PopReason)
    requires
        run.carried_out_from(start),
        0 <= k < run.answers.len(),
        run.states[k].runner.stack.last() == Instruction::Pop(reason),
        pop::owed_complete(run.states[k].log, reason, run.defaults[k], run.states[k + 1].log),
        run.step(k).effect !is Fail,
    ensures
        partial::all_set(
            pop::pop_attempt(
                run.states[k].log,
                reason,
                run.defaults[k],
                run.states[k + 1].log,
            ).log,
        ),
{
    assert(run.carried_out(k));
}

/// A field that is found by its name is one of the fields.
pub(crate) proof fn lemma_field_named(fields: Seq<Field>, name: Seq<char>, from: int)
    requires
        0 <= from,
        fields.len() <= usize::MAX,
    ensures
        partial::field_named(fields, name, from) matches Some(index) ==> from <= index
            < fields.len() && shape::field_name(fields[index as int])@ == name,
    decreases fields.len() - from,
{
    if from < fields.len() {
        lemma_field_named(fields, name, from + 1);
    }
}

/// Whether the first `k` instructions of a run were carried out without the format misreading a
/// list, and without entering a smart pointer to a slice.
pub open spec fn orderly(run: Run<'_>, k: int) -> bool {
    forall|j: int|
        0 <= j < k ==> {
            &&& !driver::misread(
                (#[trigger] run.states[j]).runner.stack.last(),
                run.answers[j],
            )
            &&& !runner::enters_slice(run.states[j + 1].log, run.states[j].log.len() as int)
        }
}

/// In an orderly run there is a frame for every instruction that ends one: if the run starts so,
/// it stays so.
pub proof fn frames_are_left_to_end(run: Run<'_>, start: State, k: int)
    requires
        run.carried_out_from(start),
        0 <= k < run.answers.len(),
        runner::slack(start.runner.stack, start.log) >= 0,
        orderly(run, k),
    ensures
        runner::slack(run.states[k].runner.stack, run.states[k].log) >= 0,
    decreases k,
{
    if k > 0 {
        assert(orderly(run, k - 1));
        frames_are_left_to_end(run, start, k - 1);
        assert(run.carried_out(k - 1));
        assert(run.step(k - 1).effect is Continue);
        assert(!driver::misread(
            run.states[k - 1].runner.stack.last(),
            run.answers[k - 1],
        ));
    }
}

/// In an orderly run the first frame is never ended by an instruction that ends another: there is
/// one above it.
pub proof fn an_end_has_a_frame_of_its_own(run: Run<'_>, start: State, k: int)
    requires
        run.carried_out_from(start),
        0 <= k < run.answers.len(),
        runner::slack(start.runner.stack, start.log) >= 0,
        orderly(run, k),
        runner::ends_frame(run.states[k].runner.stack.last()),
    ensures
        partial::depth_at(run.states[k].log) >= 2,
{
    frames_are_left_to_end(run, start, k);
    assert(run.carried_out(k));
    let stack = run.states[k].runner.stack;
    lemma_frames_owed_positive(stack.drop_last());
}

/// Instructions end no negative number of frames.
proof fn lemma_frames_owed_positive(stack: Seq<Instruction>)
    ensures
        runner::frames_owed(stack) >= 0,
    decreases stack.len(),
{
    if stack.len() > 0 {
        lemma_frames_owed_positive(stack.drop_last());
    }
}

/// A deserialization starts with a frame for every instruction that ends one.
pub proof fn a_start_has_its_frame(input: Seq<u8>, source: Seq<char>, log: Seq<Call>)
    requires
        partial::depth_at(log) >= 1,
    ensures
        ({
            let start = driver::initial(input, source, log);
            runner::slack(start.runner.stack, start.log) >= 0
        }),
{
    let first = Instruction::Pop(PopReason::TopLevel);
    let second = Instruction::Value(ValueReason::TopLevel);
    let stack = driver::initial(input, source, log).runner.stack;
    runner::lemma_frames_owed(Seq::empty(), first);
    runner::lemma_frames_owed(Seq::empty().push(first), second);
    assert(stack =~= Seq::empty().push(first).push(second));
}

/// The wrap that is entered by the call `op`.
pub open spec fn wrap_entered_by(op: Op) -> Option<value::Wrap> {
    match op {
        Op::BeginCustomDeserialization => Some(value::Wrap::Custom),
        Op::BeginSome => Some(value::Wrap::OptionSome),
        Op::BeginSmartPtr => Some(value::Wrap::Pointer),
        Op::BeginInner => Some(value::Wrap::Inner),
        _ => None,
    }
}

/// For each wrap that is entered on the way to the innermost value there is one instruction that
/// ends it, in the order in which they were entered; where entering one fails, there is none for
/// that one.
pub proof fn each_wrap_is_ended_once(
    stack: Seq<Instruction>,
    log: Seq<Call>,
    pointer_begun: bool,
    record: Seq<Call>,
)
    ensures
        ({
            let resolution = value::resolved(stack, log, pointer_begun, record);
            let added = resolution.stack.len() - stack.len();
            let made = resolution.attempt.log;
            &&& resolution.attempt.err is None && made.len() <= record.len() ==> made.len() == log.len()
                + added
            &&& log.len() + added <= made.len()
            &&& forall|i: int|
                0 <= i < added ==> {
                    &&& wrap_entered_by((#[trigger] made[log.len() + i]).op) matches Some(wrap)
                        && resolution.stack[stack.len() + i] == Instruction::Pop(wrap.reason())
                    &&& made[log.len() + i].err is None
                }
        }),
    decreases record.len() - log.len(),
{
    stack_laws::unwrapping_only_adds(stack, log, pointer_begun, record);
    lemma_resolved_extends(stack, log, pointer_begun, record);
    match value::next_wrap(log, pointer_begun) {
        None => {},
        Some(wrap) => {
            let attempt = value::entered(log, wrap, record);
            if attempt.err is None && log.len() < record.len() {
                let pushed = stack.push(Instruction::Pop(wrap.reason()));
                let begun = pointer_begun || wrap is Pointer;
                let resolution = value::resolved(stack, log, pointer_begun, record);
                stack_laws::unwrapping_only_adds(pushed, attempt.log, begun, record);
                lemma_resolved_extends(pushed, attempt.log, begun, record);
                each_wrap_is_ended_once(pushed, attempt.log, begun, record);
                let added = resolution.stack.len() - stack.len();
                let made = resolution.attempt.log;
                assert forall|i: int| 0 <= i < added implies {
                    &&& wrap_entered_by((#[trigger] made[log.len() + i]).op) matches Some(wrap)
                        && resolution.stack[stack.len() + i] == Instruction::Pop(wrap.reason())
                    &&& made[log.len() + i].err is None
                } by {
                    if i == 0 {
                        assert(made[log.len() as int] == attempt.log[log.len() as int]);
                        assert(resolution.stack[stack.len() as int]
                            == pushed[stack.len() as int]);
                    } else {
                        assert(made[attempt.log.len() + (i - 1)] == made[log.len() + i]);
                    }
                }
            }
        },
    }
}

/// Unwrapping a value adds to the calls.
pub(crate) proof fn lemma_resolved_extends(
    stack: Seq<Instruction>,
    log: Seq<Call>,
    pointer_begun: bool,
    record: Seq<Call>,
)
    ensures
        runner::extends(value::resolved(stack, log, pointer_begun, record).attempt.log, log),
    decreases record.len() - log.len(),
{
    match value::next_wrap(log, pointer_begun) {
        None => {},
        Some(wrap) => {
            let attempt = value::entered(log, wrap, record);
            if attempt.err is None && log.len() < record.len() {
                lemma_resolved_extends(
                    stack.push(Instruction::Pop(wrap.reason())),
                    attempt.log,
                    pointer_begun || wrap is Pointer,
                    record,
                );
            }
        },
    }
}

/// A null is the default of whatever type it is read for, wrapped or not: that is the only call,
/// and it adds no instruction.
pub proof fn null_is_the_default(runner: RunnerView, log: Seq<Call>, record: Seq<Call>)
    ensures
        ({
            let turn = value::value_turn(runner, log, Outcome::Scalar(Scalar::Null), record);
            &&& turn.runner == runner
            &&& turn.log.len() == log.len() + 1
            &&& turn.log.last().op == Op::SetDefault
            &&& turn.err is Some <==> turn.log.last().err is Some
            &&& turn.float is None
        }),
{
}

/// A value that is skipped makes no call, and leaves everything but the position in the input and
/// the instruction to skip it as it was.
pub proof fn skipping_leaves_the_value(
    state: State,
    span: Span,
    default: DefaultView,
    record: Seq<Call>,
)
    requires
        state.runner.stack.len() > 0,
        state.runner.stack.last() is SkipValue,
    ensures
        driver::step(state, Answer::Skipped(Ok(span)), default, record) == (driver::Step {
            state: State {
                runner: RunnerView {
                    stack: state.runner.stack.drop_last(),
                    last_span: span,
                    ..state.runner
                },
                log: state.log,
            },
            effect: Effect::Continue,
        }),
{
    reveal(driver::step);
}

/// A key that a struct does not know, without flattened fields, is an error if the type denies
/// such keys; if it does not, its value is skipped. Either way no call is made.
pub proof fn an_unknown_key_is_denied_or_skipped(
    log: Seq<Call>,
    key: Seq<char>,
    record: Seq<Call>,
)
    requires
        shape::type_info(partial::shape_at(log)) is Struct,
        partial::field_named(partial::frame_fields(log), key, 0) is None,
        forall|i: int|
            0 <= i < partial::frame_fields(log).len() ==> !(#[trigger] shape::flagged(
                partial::frame_fields(log)[i],
                FieldFlag::Flatten,
            )),
    ensures
        ({
            let entry = object::key_entry(log, key, record);
            let shape = partial::shape_at(log);
            &&& entry.attempt.log == log
            &&& entry.place == Place::Skipped
            &&& entry.attempt.err == if shape::denies_unknown(shape) {
                Some(ErrorView::UnknownField { field_name: key, shape })
            } else {
                None
            }
        }),
{
    lemma_no_flattened_field(partial::frame_fields(log), 0, log, key, record);
}

/// Without flattened fields none is entered.
pub(crate) proof fn lemma_no_flattened_field(
    fields: Seq<Field>,
    index: int,
    log: Seq<Call>,
    key: Seq<char>,
    record: Seq<Call>,
)
    requires
        0 <= index,
        forall|i: int|
            0 <= i < fields.len() ==> !(#[trigger] shape::flagged(fields[i], FieldFlag::Flatten)),
    ensures
        object::flattened_entry(fields, index, log, key, record) == object::unknown_entry(log, key),
    decreases fields.len() - index,
{
    if index < fields.len() {
        lemma_no_flattened_field(fields, index + 1, log, key, record);
    }
}

/// A key that is a field of the struct itself begins that field, flattened fields or not, and its
/// value goes there.
pub proof fn a_field_of_the_struct_comes_first(
    log: Seq<Call>,
    key: Seq<char>,
    index: usize,
    record: Seq<Call>,
)
    requires
        shape::type_info(partial::shape_at(log)) is Struct,
        partial::field_named(partial::frame_fields(log), key, 0) == Some(index),
        partial::frame_fields(log).len() <= partial::MAX_FIELDS,
    ensures
        ({
            let entry = object::key_entry(log, key, record);
            &&& entry.attempt == Attempt::begin(log).call(Op::BeginNthField(index), record)
            &&& entry.place == Place::Begun
        }),
{
}

/// Where a key of a struct leads does not go by what was read before it. After any calls that have
/// come to the same struct, a field of its own is begun all the same, and a key that it does not
/// know is denied or skipped all the same. (To look
/// for a key in a flattened field, the flattened fields before it are entered and ended again, and
/// one that is not complete refuses to end. There the order does matter.)
pub proof fn a_key_leads_to_the_same_place_whatever_came_before(
    one: Seq<Call>,
    other: Seq<Call>,
    key: Seq<char>,
    one_record: Seq<Call>,
    other_record: Seq<Call>,
)
    requires
        shape::type_info(partial::shape_at(one)) is Struct,
        partial::shape_at(other) == partial::shape_at(one),
        partial::field_named(partial::frame_fields(one), key, 0) is Some || forall|i: int|
            0 <= i < partial::frame_fields(one).len() ==> !(#[trigger] shape::flagged(
                partial::frame_fields(one)[i],
                FieldFlag::Flatten,
            )),
    ensures
        object::key_entry(one, key, one_record).place == object::key_entry(
            other,
            key,
            other_record,
        ).place,
        match partial::field_named(partial::frame_fields(one), key, 0) {
            Some(index) => {
                &&& object::key_entry(one, key, one_record).attempt == Attempt::begin(one).field(
                    index,
                    one_record,
                )
                &&& object::key_entry(other, key, other_record).attempt == Attempt::begin(
                    other,
                ).field(index, other_record)
            },
            None => {
                &&& object::key_entry(one, key, one_record).attempt.log == one
                &&& object::key_entry(other, key, other_record).attempt.log == other
                &&& object::key_entry(one, key, one_record).attempt.err == object::key_entry(
                    other,
                    key,
                    other_record,
                ).attempt.err
            },
        },
{
    if partial::field_named(partial::frame_fields(one), key, 0) is None {
        lemma_no_flattened_field(partial::frame_fields(one), 0, one, key, one_record);
        lemma_no_flattened_field(partial::frame_fields(one), 0, other, key, other_record);
    }
}

/// Which field is reported as missing goes by which are set, not by the order in which they were.
pub proof fn what_is_missing_goes_by_the_fields_that_are_set(
    fields: Seq<Field>,
    shape: &'static Shape,
    variant: Option<Variant>,
    index: int,
    one: Seq<Call>,
    other: Seq<Call>,
)
    requires
        0 <= index,
        fields.len() <= usize::MAX,
        forall|i: usize|
            i < fields.len() ==> (#[trigger] partial::field_set_at(other, i))
                == partial::field_set_at(one, i),
    ensures
        pop::first_missing(fields, shape, variant, index, one) == pop::first_missing(
            fields,
            shape,
            variant,
            index,
            other,
        ),
    decreases fields.len() - index,
{
    if index < fields.len() {
        assert(partial::field_set_at(other, index as usize) == partial::field_set_at(
            one,
            index as usize,
        ));
        what_is_missing_goes_by_the_fields_that_are_set(
            fields,
            shape,
            variant,
            index + 1,
            one,
            other,
        );
    }
}

/// The value of an integer.
pub open spec fn integer_value(i: Integer) -> int {
    match i {
        Integer::I8(v) => v as int,
        Integer::I16(v) => v as int,
        Integer::I32(v) => v as int,
        Integer::I64(v) => v as int,
        Integer::I128(v) => v as int,
        Integer::Isize(v) => v as int,
        Integer::U8(v) => v as int,
        Integer::U16(v) => v as int,
        Integer::U32(v) => v as int,
        Integer::U64(v) => v as int,
        Integer::U128(v) => v as int,
        Integer::Usize(v) => v as int,
    }
}

/// Whether storing `n` as a value of the type `ty` brings it into range: a floating-point number
/// of 2^63 as a 64-bit integer, or a `u128` above the largest `i128` as an `i128`.
pub open spec fn brought_into_range(n: Number, ty: IntegerType) -> bool {
    match n {
        Number::F64(v) => (ty is I64 || ty is Isize) && v.whole_value() == Some(
            0x8000_0000_0000_0000int,
        ),
        Number::U128(v) => ty is I128 && v > i128::MAX,
        _ => false,
    }
}

/// An integer type stores a number as the integer that it is, or not at all; the only numbers that
/// it changes are those that it brings into range.
pub proof fn numbers_keep_their_value(n: Number, ty: IntegerType)
    requires
        !brought_into_range(n, ty),
    ensures
        number_target::integer_for(n, ty) matches Some(i) ==> numeric::exact(n) == Some(
            integer_value(i),
        ),
{
}

/// Two numbers that are the same integer are stored alike, whatever form they were read in.
pub proof fn the_form_of_a_number_does_not_matter(a: Number, b: Number, ty: IntegerType)
    requires
        numeric::exact(a) is Some,
        numeric::exact(a) == numeric::exact(b),
        !brought_into_range(a, ty),
        !brought_into_range(b, ty),
    ensures
        number_target::integer_for(a, ty) == number_target::integer_for(b, ty),
{
}

/// A number for a floating-point type comes back as it was read, and makes no call.
pub proof fn a_float_comes_back_as_it_was_read(
    log: Seq<Call>,
    n: Number,
    width: FloatWidth,
    record: Seq<Call>,
)
    requires
        number_target::numeric_target(partial::shape_at(log)) == Ok::<NumericTarget, ErrorView>(
            NumericTarget::Float(width),
        ),
    ensures
        ({
            let placement = number_target::number_placement(log, n, record);
            &&& placement.attempt == Attempt::begin(log)
            &&& placement.float == Some(FloatRequest { width, value: n })
        }),
{
}

/// The items of an array go to its elements in order: where the next index is within the array,
/// that element is begun and the index is raised; where it is not, nothing changes, and the error
/// says how many items the array holds.
pub proof fn array_items_go_in_order(
    runner: RunnerView,
    len: usize,
    log: Seq<Call>,
    record: Seq<Call>,
)
    requires
        runner.array_indices.len() > 0,
        partial::frame_fields(log).len() == 0,
    ensures
        ({
            let item = list::array_item(runner, len, log, record);
            let index = runner.array_indices.last();
            if index < len {
                &&& item.attempt == Attempt::begin(log).call(Op::BeginNthField(index), record)
                &&& item.attempt.err is None ==> item.runner.array_indices
                    == runner.array_indices.drop_last().push((index + 1) as usize)
            } else {
                &&& item.runner == runner
                &&& item.attempt == Attempt::begin(log).fail(
                    list::overflow(partial::shape_at(log), len),
                )
            }
        }),
{
    let index = runner.array_indices.last();
    assert(list::advanced(runner.array_indices) =~= runner.array_indices.drop_last().push(
        (index + 1) as usize,
    ));
}

/// The items of an array go to elements 0, 1, 2 and so on, one after the other: where `n` items of
/// an array are begun, and the indices at each are as the one before left them, item number `i` is
/// begun as element `i`, and there are no more of them than the array holds.
pub proof fn array_items_go_to_the_elements_in_turn(
    runners: Seq<RunnerView>,
    logs: Seq<Seq<Call>>,
    records: Seq<Seq<Call>>,
    outer: Seq<usize>,
    len: usize,
    n: nat,
)
    requires
        runners.len() == n + 1,
        logs.len() == n,
        records.len() == n,
        runners[0].array_indices == outer.push(0),
        forall|i: int|
            0 <= i < n ==> {
                let item = list::array_item(runners[i], len, #[trigger] logs[i], records[i]);
                &&& partial::frame_fields(logs[i]).len() == 0
                &&& item.attempt.err is None
                &&& item.runner.array_indices == runners[i + 1].array_indices
            },
    ensures
        n <= len,
        runners[n as int].array_indices == outer.push(n as usize),
        forall|i: int|
            0 <= i < n ==> list::array_item(
                runners[i],
                len,
                #[trigger] logs[i],
                records[i],
            ).attempt == Attempt::begin(logs[i]).call(Op::BeginNthField(i as usize), records[i]),
    decreases n,
{
    if n > 0 {
        let m = (n - 1) as nat;
        array_items_go_to_the_elements_in_turn(
            runners.drop_last(),
            logs.drop_last(),
            records.drop_last(),
            outer,
            len,
            m,
        );
        let last = m as int;
        assert(logs.drop_last().len() == m);
        assert(runners[last].array_indices == outer.push(m as usize));
        let item = list::array_item(runners[last], len, logs[last], records[last]);
        assert(item.attempt.err is None);
        assert(list::advanced(outer.push(m as usize)) =~= outer.push(n as usize));
        assert forall|i: int| 0 <= i < n implies list::array_item(
            runners[i],
            len,
            #[trigger] logs[i],
            records[i],
        ).attempt == Attempt::begin(logs[i]).call(Op::BeginNthField(i as usize), records[i]) by {
            if i < last {
                assert(logs.drop_last()[i] == logs[i]);
            }
        }
    } else {
        assert(outer.push(0) =~= outer.push(n as usize));
    }
}

/// The end of an array leaves the indices of the arrays around it as they were at its start.
pub proof fn an_array_leaves_the_outer_indices(
    runner: RunnerView,
    log: Seq<Call>,
    pointer_begun: bool,
    record: Seq<Call>,
    later: RunnerView,
    index: usize,
)
    requires
        shape::def_info(partial::shape_at(log)) is Array,
        !value::is_tuple(partial::shape_at(log)),
        later.array_indices == runner.array_indices.push(index),
    ensures
        value::list_start_turn(runner, log, pointer_begun, record).runner.array_indices
            == runner.array_indices.push(0),
        list::list_closed(later, partial::shape_at(log)).array_indices == runner.array_indices,
{
    assert(runner.array_indices.push(index).drop_last() =~= runner.array_indices);
}

/// An item of a tuple goes to the first field that is not set.
pub proof fn a_tuple_item_goes_to_the_first_unset_field(
    count: usize,
    index: int,
    unset: usize,
    log: Seq<Call>,
    record: Seq<Call>,
)
    requires
        0 <= index <= unset < count,
        forall|i: usize|
            index <= i < unset ==> (#[trigger] partial::field_set_at(log, i)) == Ok::<
                bool,
                ReflectError,
            >(true),
        partial::field_set_at(log, unset) == Ok::<bool, ReflectError>(false),
    ensures
        list::tuple_item(count, index, log, record) == Attempt::begin(log).field(unset, record),
    decreases unset - index,
{
    if index < unset {
        assert(partial::field_set_at(log, index as usize) == Ok::<bool, ReflectError>(true));
        a_tuple_item_goes_to_the_first_unset_field(count, index + 1, unset, log, record);
    }
}

/// An item of a tuple whose fields are all set is one too many.
pub proof fn a_full_tuple_takes_no_item(
    count: usize,
    index: int,
    log: Seq<Call>,
    record: Seq<Call>,
)
    requires
        0 <= index <= count,
        forall|i: usize|
            index <= i < count ==> (#[trigger] partial::field_set_at(log, i)) == Ok::<
                bool,
                ReflectError,
            >(true),
    ensures
        list::tuple_item(count, index, log, record) == Attempt::begin(log).fail(
            list::overflow(partial::shape_at(log), count),
        ),
    decreases count - index,
{
    if index < count {
        assert(partial::field_set_at(log, index as usize) == Ok::<bool, ReflectError>(true));
        a_full_tuple_takes_no_item(count, index + 1, log, record);
    }
}

/// Ending a struct, or an enum with a variant selected, whose fields are all set makes no call and
/// is no error, whatever defaults there are.
pub proof fn a_complete_value_is_left_alone(
    log: Seq<Call>,
    reason: PopReason,
    default: DefaultView,
    record: Seq<Call>,
)
    requires
        pop::has_fields(log),
        partial::all_set(log),
        partial::frame_fields(log).len() <= usize::MAX,
    ensures
        pop::pop_attempt(log, reason, default, record) == Attempt::begin(log),
{
    let fields = partial::frame_fields(log);
    lemma_nothing_to_fill(fields, shape::type_info(partial::shape_at(log)) is Enum, 0, log, record);
}

/// Where all fields are set, none is filled in.
proof fn lemma_nothing_to_fill(
    fields: Seq<Field>,
    in_variant: bool,
    index: int,
    log: Seq<Call>,
    record: Seq<Call>,
)
    requires
        0 <= index,
        fields.len() <= usize::MAX,
        forall|i: usize|
            i < fields.len() ==> (#[trigger] partial::field_set_at(log, i)) == Ok::<
                bool,
                ReflectError,
            >(true),
    ensures
        pop::defaults_filled(fields, in_variant, index, log, false, record) == (pop::Filling {
            attempt: Attempt::begin(log),
            missing: false,
        }),
    decreases fields.len() - index,
{
    if index < fields.len() {
        assert(partial::field_set_at(log, index as usize) == Ok::<bool, ReflectError>(true));
        lemma_nothing_to_fill(fields, in_variant, index + 1, log, record);
    }
}

/// The field that the call `op` gives a value, where it gives one to a field.
pub open spec fn field_given(op: Op) -> Option<usize> {
    match op {
        Op::SetNthFieldToDefault(index) => Some(index),
        Op::StealNthField(index, _) => Some(index),
        _ => None,
    }
}

/// Whether each of the calls `made` from number `from` on gives a value to one of `fields` that was
/// not set before it.
pub open spec fn gives_to_unset_fields(made: Seq<Call>, from: int, fields: Seq<Field>) -> bool {
    forall|k: int|
        from <= k < made.len() ==> (field_given((#[trigger] made[k]).op) matches Some(index)
            && index < fields.len() && partial::field_set_at(made.take(k), index) == Ok::<
            bool,
            ReflectError,
        >(false))
}

/// A field that takes a default, or is taken from a default value, leaves the other fields, and the
/// variant, as they were.
pub proof fn a_default_leaves_the_other_fields(later: Seq<Call>, log: Seq<Call>, k: int)
    requires
        runner::follows(later, log),
        log.len() <= k < later.len(),
        later[k].err is None,
    ensures
        field_given(later[k].op) matches Some(index) ==> partial::only_field_set(
            later.take(k),
            later.take(k + 1),
            index,
        ),
        later[k].op is End ==> forall|before: Seq<Call>, index: usize|
            index < partial::frame_fields(before).len() && #[trigger] partial::field_filled(
                before,
                index,
                later.take(k),
            ) ==> partial::only_field_set(before, later.take(k + 1), index),
{
    reveal(partial::effective);
    assert(partial::effect(later.take(k), later[k], later.take(k + 1)));
}

/// Of the fields of a struct, only those that were not read and have a default take it. One that
/// was read keeps its value.
pub proof fn a_default_is_for_a_field_that_was_not_read(
    fields: Seq<Field>,
    index: int,
    log: Seq<Call>,
    missing: bool,
    record: Seq<Call>,
)
    requires
        0 <= index,
        fields.len() <= usize::MAX,
    ensures
        ({
            let made = pop::defaults_filled(fields, false, index, log, missing, record).attempt.log;
            &&& runner::extends(made, log)
            &&& gives_to_unset_fields(made, log.len() as int, fields)
            &&& forall|k: int|
                log.len() <= k < made.len() ==> ((#[trigger] made[k]).op matches
                    Op::SetNthFieldToDefault(i) && shape::flagged(
                    fields[i as int],
                    FieldFlag::Default,
                ))
        }),
    decreases fields.len() - index,
{
    if index < fields.len() {
        let made = pop::defaults_filled(fields, false, index, log, missing, record).attempt.log;
        match partial::field_set_at(log, index as usize) {
            Err(_) => {},
            Ok(true) => {
                a_default_is_for_a_field_that_was_not_read(
                    fields,
                    index + 1,
                    log,
                    missing,
                    record,
                );
            },
            Ok(false) => if shape::flagged(fields[index], FieldFlag::Default) {
                let given = pop::struct_field_default(log, index as usize, record);
                if given.err is None {
                    a_default_is_for_a_field_that_was_not_read(
                        fields,
                        index + 1,
                        given.log,
                        missing,
                        record,
                    );
                }
                if given.log.len() > log.len() {
                    assert(made[log.len() as int] == given.log[log.len() as int]);
                    assert(made.take(log.len() as int) =~= log);
                }
            } else {
                a_default_is_for_a_field_that_was_not_read(fields, index + 1, log, true, record);
            },
        }
    }
}

/// What the default value of a type provides are the fields that are still not set, each taken from
/// that value. One that was read, or has a default of its own, keeps its value.
pub proof fn what_is_left_comes_from_the_default_of_the_type(
    fields: Seq<Field>,
    index: int,
    log: Seq<Call>,
    source: Seq<Call>,
    record: Seq<Call>,
)
    requires
        0 <= index,
        fields.len() <= usize::MAX,
    ensures
        ({
            let made = pop::fields_taken(fields, index, log, source, record).log;
            &&& runner::extends(made, log)
            &&& gives_to_unset_fields(made, log.len() as int, fields)
            &&& forall|k: int|
                log.len() <= k < made.len() ==> ((#[trigger] made[k]).op matches Op::StealNthField(
                    _,
                    from,
                ) && runner::extends(from, source))
        }),
    decreases fields.len() - index,
{
    if index < fields.len() {
        let made = pop::fields_taken(fields, index, log, source, record).log;
        match partial::field_set_at(log, index as usize) {
            Err(_) => {},
            Ok(true) => {
                what_is_left_comes_from_the_default_of_the_type(
                    fields,
                    index + 1,
                    log,
                    source,
                    record,
                );
            },
            Ok(false) => if partial::frame_fields(log).len() <= partial::MAX_FIELDS {
                let taken = Attempt::begin(log).call(
                    Op::StealNthField(index as usize, source),
                    record,
                );
                let left = source.push(partial::done(Op::LoseNthField(index as usize)));
                if taken.err is None {
                    what_is_left_comes_from_the_default_of_the_type(
                        fields,
                        index + 1,
                        taken.log,
                        left,
                        record,
                    );
                    assert forall|k: int| log.len() <= k < made.len() implies ((
                    #[trigger] made[k]).op matches Op::StealNthField(_, from) && runner::extends(
                        from,
                        source,
                    )) by {
                        if k == log.len() {
                            assert(made[k] == taken.log[k]);
                        } else {
                            let from = made[k].op->StealNthField_1;
                            assert(runner::extends(from, left));
                            assert forall|i: int| 0 <= i < source.len() implies from[i]
                                == source[i] by {
                                assert(left[i] == source[i]);
                            }
                        }
                    }
                }
                assert(made[log.len() as int] == taken.log[log.len() as int]);
                assert(made.take(log.len() as int) =~= log);
            },
        }
    }
}

/// The field that is reported as missing is the first one that is not set.
pub proof fn the_first_missing_field_is_reported(
    fields: Seq<Field>,
    shape: &'static Shape,
    variant: Option<Variant>,
    index: int,
    missing: usize,
    log: Seq<Call>,
)
    requires
        0 <= index <= missing < fields.len(),
        forall|i: usize|
            index <= i < missing ==> (#[trigger] partial::field_set_at(log, i)) == Ok::<
                bool,
                ReflectError,
            >(true),
        partial::field_set_at(log, missing) == Ok::<bool, ReflectError>(false),
    ensures
        pop::first_missing(fields, shape, variant, index, log) == Some(
            ErrorView::ReflectError(
                partial::fault_error(pop::missing_field(fields[missing as int], shape, variant)),
            ),
        ),
    decreases missing - index,
{
    if index < missing {
        assert(partial::field_set_at(log, index as usize) == Ok::<bool, ReflectError>(true));
        the_first_missing_field_is_reported(fields, shape, variant, index + 1, missing, log);
    }
}

/// What ends a value that is made by a function of its field is left as it is: the function sees
/// to its fields.
pub proof fn a_custom_value_is_left_alone(
    log: Seq<Call>,
    default: DefaultView,
    record: Seq<Call>,
)
    ensures
        pop::pop_attempt(log, PopReason::CustomDeserialization, default, record)
            == Attempt::begin(log),
{
}

} // verus!
