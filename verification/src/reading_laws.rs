//! What comes of whole documents of scalars.
use crate::driver::{self, Answer, Progress, Run, State};
use crate::error::DeserError;
use crate::instruction::{Instruction, PopReason, ValueReason};
use crate::laws;
use crate::list;
use crate::number_target::{self, NumericTarget};
use crate::numeric::Number;
use crate::object;
use crate::partial::{self, Call, Op, TextView};
use crate::pop::{self, DefaultView};
use crate::runner::{self, Attempt, RunnerView};
use crate::scalar::{Outcome, Scalar};
use crate::scalar_value;
use crate::shape::{self, DefInfo, FieldFlag, KnownType};
use crate::value;
use facet_core::{Field, Shape};
use facet_reflect::ReflectError;
use std::borrow::Cow;
use vstd::prelude::*;

verus! {

/// Whether nothing stands round a value of the type `shape`, and it has no fields: a scalar is
/// stored in it by one call.
pub open spec fn is_bare(shape: &'static Shape) -> bool {
    &&& !(shape::def_info(shape) is Optional)
    &&& shape::smart_pointer(shape) is None
    &&& shape::inner_shape(shape) is None
    &&& !(shape::type_info(shape) is Struct)
    &&& !(shape::type_info(shape) is Enum)
}

/// Whether the value of `field` is stored in it as it is read.
pub open spec fn is_bare_field(field: Field) -> bool {
    !shape::has_custom(field) && is_bare(shape::shape_of_field(field))
}

/// The call that stores a number in a value of the type `shape`.
pub open spec fn number_stored(shape: &'static Shape, n: Number) -> Option<Op> {
    match number_target::numeric_target(shape) {
        Ok(NumericTarget::Integer(ty)) => match number_target::integer_for(n, ty) {
            Some(i) => Some(Op::SetInteger(i)),
            None => None,
        },
        _ => None,
    }
}

/// The call that stores `scalar` in a value of the type `shape`, if it can be stored there by one.
pub open spec fn stored(shape: &'static Shape, scalar: Scalar<'_>) -> Option<Op> {
    match scalar {
        Scalar::String(cow) => if shape::type_info(shape) is Reference && shape::describes(
            shape,
            KnownType::StrRef,
        ) {
            match cow {
                Cow::Borrowed(s) => Some(Op::SetText(TextView::Borrowed(s@))),
                Cow::Owned(s) => Some(Op::SetText(TextView::Owned(s@))),
            }
        } else if shape::def_info(shape) is Scalar {
            Some(Op::ParseFromStr(cow@))
        } else {
            Some(Op::SetText(TextView::Owned(cow@)))
        },
        Scalar::U64(v) => number_stored(shape, Number::U64(v)),
        Scalar::I64(v) => number_stored(shape, Number::I64(v)),
        Scalar::F64(v) => number_stored(shape, Number::F64(v)),
        Scalar::U128(v) => number_stored(shape, Number::U128(v)),
        Scalar::I128(v) => number_stored(shape, Number::I128(v)),
        Scalar::Bool(v) => Some(Op::SetBool(v)),
        Scalar::Null => Some(Op::SetDefault),
    }
}

/// Whether a value of the type `shape` takes what the call `op` stores. What it parses is for the
/// type's own parser to take.
pub open spec fn takes(shape: &'static Shape, op: Op) -> bool {
    match op {
        Op::SetInteger(value) => partial::integer_misfit(shape, value) is None,
        Op::SetBool(value) => partial::bool_misfit(shape, value) is None,
        Op::SetText(value) => partial::text_misfit(shape, value) is None,
        Op::SetDefault => shape::implements_default(shape),
        _ => false,
    }
}

/// Whether none of the calls `log` failed to parse a text.
pub open spec fn all_parsed(log: Seq<Call>) -> bool {
    forall|k: int|
        0 <= k < log.len() && (#[trigger] log[k]).op is ParseFromStr ==> log[k].err is None
}

/// A scalar that is read for a value without anything round it is stored by its one call, unless
/// the value does not take it.
pub(crate) proof fn lemma_stored(
    runner: RunnerView,
    log: Seq<Call>,
    scalar: Scalar<'_>,
    op: Op,
    record: Seq<Call>,
)
    requires
        partial::active(log),
        is_bare(partial::shape_at(log)),
        partial::parent_field_at(log) matches Some(field) ==> !shape::has_custom(field),
        stored(partial::shape_at(log), scalar) == Some(op),
        op is ParseFromStr ==> record[log.len() as int].err is None,
    ensures
        ({
            let turn = value::value_turn(runner, log, Outcome::Scalar(scalar), record);
            &&& turn.runner == runner
            &&& turn.float is None
            &&& turn.err is None ==> turn.log == log.push(partial::done(op))
            &&& takes(partial::shape_at(log), op) || op is ParseFromStr ==> turn.err is None
            &&& turn.err is Some ==> turn.log.len() > 0 && turn.log.last().err is Some
            &&& partial::fills_frame(op)
        }),
{
    assert(value::next_wrap(log, false) is None);
    let resolution = value::resolved(runner.stack, log, false, record);
    assert(resolution.stack == runner.stack);
    assert(resolution.attempt == Attempt::begin(log));
    let inside = RunnerView { stack: resolution.stack, ..runner };
    assert(inside == runner);
}

/// One call did what it does.
pub(crate) proof fn lemma_effect_of_one(log: Seq<Call>, call: Call)
    requires
        partial::effective(log.push(call), log),
    ensures
        partial::effect(log, call, log.push(call)),
{
    reveal(partial::effective);
    let later = log.push(call);
    let n = log.len() as int;
    assert(later[n] == call);
    assert(later.take(n) =~= log);
    assert(later.take(n + 1) =~= later);
}

/// Each of two calls did what it does.
pub(crate) proof fn lemma_effect_of_two(log: Seq<Call>, first: Call, second: Call)
    requires
        partial::effective(log.push(first).push(second), log),
    ensures
        partial::effect(log, first, log.push(first)),
        partial::effect(log.push(first), second, log.push(first).push(second)),
{
    reveal(partial::effective);
    let later = log.push(first).push(second);
    let n = log.len() as int;
    assert(later[n] == first);
    assert(later[n + 1] == second);
    assert(later.take(n) =~= log);
    assert(later.take(n + 1) =~= log.push(first));
    assert(later.take(n + 2) =~= later);
}

/// A run that goes on has a next instruction, as long as the instructions can be counted.
pub(crate) proof fn lemma_goes_on<'input, 'facet>(
    run: Run<'input>,
    start: State,
    r: Result<Progress<'input, 'facet>, DeserError<'input>>,
    k: int,
)
    requires
        run.carried_out_from(start),
        run.comes_to(r),
        0 <= k < run.answers.len(),
        k + 1 < u64::MAX,
        run.step(k).effect is Continue,
    ensures
        k + 1 < run.answers.len(),
{
    if k + 1 == run.answers.len() {
        assert(run.effect() is Continue);
    }
}

/// Whether the format answered with `outcome`.
pub open spec fn answers_with(answer: Answer<'_>, outcome: Outcome<'_>) -> bool {
    answer matches Answer::Read(Ok(read)) && read.node == outcome
}

/// Whether the format answered with the key `key`.
pub open spec fn answers_with_key(answer: Answer<'_>, key: Seq<char>) -> bool {
    answer matches Answer::Read(Ok(read)) && (read.node matches Outcome::Scalar(Scalar::String(s))
        && s@ == key)
}

/// Whether the answer of the format reaches to the end of an input of `len` bytes.
pub open spec fn reaches(answer: Answer<'_>, len: nat) -> bool {
    answer matches Answer::Read(Ok(read)) && read.span.start + read.span.len >= len
}

/// A scalar is stored where a value is due.
pub(crate) proof fn lemma_value_step(run: Run<'_>, start: State, k: int, scalar: Scalar<'_>, op: Op)
    requires
        run.carried_out_from(start),
        0 <= k < run.answers.len(),
        run.states[k].runner.stack.last() is Value,
        answers_with(run.answers[k], Outcome::Scalar(scalar)),
        partial::active(run.states[k].log),
        is_bare(partial::shape_at(run.states[k].log)),
        partial::parent_field_at(run.states[k].log) matches Some(field) ==> !shape::has_custom(
            field,
        ),
        stored(partial::shape_at(run.states[k].log), scalar) == Some(op),
        op is ParseFromStr ==> all_parsed(run.states[k + 1].log),
    ensures
        ({
            let log = run.states[k].log;
            &&& run.step(k).effect is Continue || run.step(k).effect is Fail
            &&& takes(partial::shape_at(log), op) || op is ParseFromStr ==> run.step(
                k,
            ).effect is Continue
            &&& run.step(k).effect is Fail ==> run.states[k + 1].log.len() > 0 && run.states[k
                + 1].log.last().err is Some
            &&& run.states[k + 1].runner == (RunnerView {
                stack: run.states[k].runner.stack.drop_last(),
                last_span: run.states[k + 1].runner.last_span,
                ..run.states[k].runner
            })
            &&& run.step(k).effect is Continue ==> {
                &&& run.states[k + 1].log == log.push(partial::done(op))
                &&& run.states[k + 1].runner.stack == run.states[k].runner.stack.drop_last()
                &&& run.states[k + 1].runner.array_indices == run.states[k].runner.array_indices
                &&& partial::frames_kept(log, run.states[k + 1].log)
                &&& partial::fills_frame(op)
                &&& partial::active(run.states[k + 1].log)
            }
        }),
{
    reveal(driver::step);
    assert(run.carried_out(k));
    let log = run.states[k].log;
    let record = run.states[k + 1].log;
    let state = run.states[k];
    let runner = RunnerView { stack: state.runner.stack.drop_last(), ..state.runner };
    match run.answers[k] {
        Answer::Read(Ok(read)) => {
            let seen = RunnerView { last_span: read.span, ..runner };
            let turn = value::value_turn(seen, log, read.node, record);
            if op is ParseFromStr {
                assert(turn.log == record);
                lemma_parse_recorded(seen, log, scalar, op, record);
            }
            lemma_stored(seen, log, scalar, op, record);
            if turn.err is None {
                lemma_effect_of_one(log, partial::done(op));
            }
        },
        _ => {},
    }
}

/// A text that is parsed leaves the call in the record.
pub(crate) proof fn lemma_parse_recorded(
    runner: RunnerView,
    log: Seq<Call>,
    scalar: Scalar<'_>,
    op: Op,
    record: Seq<Call>,
)
    requires
        partial::active(log),
        is_bare(partial::shape_at(log)),
        partial::parent_field_at(log) matches Some(field) ==> !shape::has_custom(field),
        stored(partial::shape_at(log), scalar) == Some(op),
        op is ParseFromStr,
        value::value_turn(runner, log, Outcome::Scalar(scalar), record).log == record,
        all_parsed(record),
    ensures
        record[log.len() as int].err is None,
{
    assert(value::next_wrap(log, false) is None);
    let resolution = value::resolved(runner.stack, log, false, record);
    assert(resolution.attempt == Attempt::begin(log));
    let n = log.len() as int;
    assert(record.len() > n);
    assert(record[n].op is ParseFromStr);
}

/// A bare value ends with its frame and nothing else.
pub(crate) proof fn lemma_end_step(run: Run<'_>, start: State, k: int, reason: PopReason)
    requires
        run.carried_out_from(start),
        0 <= k < run.answers.len(),
        run.states[k].runner.stack.last() == Instruction::Pop(reason),
        !(reason is TopLevel),
        is_bare(partial::shape_at(run.states[k].log)),
    ensures
        run.step(k).effect is Continue || run.step(k).effect is Fail,
        partial::fills_a_field(run.states[k].log) ==> run.step(k).effect is Continue,
        run.step(k).effect is Continue ==> {
            &&& run.states[k + 1].log == run.states[k].log.push(partial::done(Op::End))
            &&& run.states[k + 1].runner == (RunnerView {
                stack: run.states[k].runner.stack.drop_last(),
                ..run.states[k].runner
            })
            &&& partial::frame_ended(run.states[k].log, run.states[k + 1].log)
        },
{
    reveal(driver::step);
    assert(run.carried_out(k));
    let log = run.states[k].log;
    let record = run.states[k + 1].log;
    assert(pop::pop_attempt(log, reason, run.defaults[k], record) == Attempt::begin(log));
    if run.step(k).effect is Continue {
        assert(record == log.push(partial::done(Op::End)));
        lemma_effect_of_one(log, partial::done(Op::End));
    }
}

/// Calls that were made stay made.
pub(crate) proof fn lemma_calls_stay(run: Run<'_>, start: State, i: int, j: int)
    requires
        run.carried_out_from(start),
        0 <= i <= j < run.states.len(),
    ensures
        runner::extends(run.states[j].log, run.states[i].log),
    decreases j - i,
{
    if i < j {
        lemma_calls_stay(run, start, i, j - 1);
        assert(run.carried_out(j - 1));
    }
}

/// The calls by which field `index` takes what the call `op` stores.
pub open spec fn field_calls(index: usize, op: Op) -> Seq<Call> {
    seq![partial::done(Op::BeginNthField(index)), partial::done(op), partial::done(Op::End)]
}

/// A scalar that is read for a key of a struct is what the field of that name is set to, and no
/// other field changes: the field is begun, takes the scalar by one call, and is ended without an
/// error. Then the next key is due.
pub proof fn a_scalar_read_for_a_key_sets_its_field<'input, 'facet>(
    run: Run<'input>,
    start: State,
    r: Result<Progress<'input, 'facet>, DeserError<'input>>,
    k: int,
    key: Seq<char>,
    scalar: Scalar<'input>,
    index: usize,
    op: Op,
)
    requires
        run.carried_out_from(start),
        run.comes_to(r),
        0 <= k < run.answers.len(),
        k + 3 < u64::MAX,
        run.states[k].runner.stack.last() is ObjectKeyOrObjectClose,
        partial::active(run.states[k].log),
        partial::depth_at(run.states[k].log) >= 1,
        shape::type_info(partial::shape_at(run.states[k].log)) is Struct,
        partial::frame_fields(run.states[k].log).len() <= partial::MAX_FIELDS,
        partial::field_named(partial::frame_fields(run.states[k].log), key, 0) == Some(index),
        ({
            let field = partial::frame_fields(run.states[k].log)[index as int];
            let shape = shape::shape_of_field(field);
            &&& is_bare_field(field)
            &&& stored(shape, scalar) == Some(op)
            &&& takes(shape, op) || op is ParseFromStr
        }),
        answers_with_key(run.answers[k], key),
        k + 1 < run.answers.len() ==> answers_with(run.answers[k + 1], Outcome::Scalar(scalar)),
        all_parsed(run.states.last().log),
    ensures
        k + 3 < run.answers.len(),
        run.states[k + 3].log == run.states[k].log + field_calls(index, op),
        run.states[k + 3].runner.stack == run.states[k].runner.stack,
        partial::depth_at(run.states[k + 3].log) == partial::depth_at(run.states[k].log),
        partial::active(run.states[k + 3].log),
        index < partial::frame_fields(run.states[k].log).len(),
        partial::only_field_set(run.states[k].log, run.states[k + 3].log, index),
{
    let log = run.states[k].log;
    let fields = partial::frame_fields(log);
    let begun = log.push(partial::done(Op::BeginNthField(index)));
    let filled = begun.push(partial::done(op));
    let below = run.states[k].runner.stack.drop_last();
    let next = Instruction::ObjectKeyOrObjectClose;
    let end = Instruction::Pop(PopReason::ObjectVal);
    let due = Instruction::Value(ValueReason::ObjectVal);
    laws::lemma_field_named(fields, key, 0);
    assert(run.carried_out(k));
    assert(run.step(k).effect is Continue && run.states[k + 1].log == begun
        && run.states[k + 1].runner.stack == below.push(next).push(end).push(due)) by {
        reveal(driver::step);
        let state = run.states[k];
        let runner = RunnerView { stack: below, ..state.runner };
        match run.answers[k] {
            Answer::Read(Ok(read)) => {
                let entry = object::key_entry(log, key, run.states[k + 1].log);
                assert(entry.attempt == Attempt::begin(begun));
                assert(entry.place == object::Place::Begun);
            },
            _ => {},
        }
    }
    lemma_goes_on(run, start, r, k);
    lemma_effect_of_one(log, partial::done(Op::BeginNthField(index)));
    assert(below.push(next).push(end).push(due).drop_last() =~= below.push(next).push(end));
    lemma_calls_stay(run, start, k + 2, run.states.len() - 1);
    assert(all_parsed(run.states[k + 2].log)) by {
        let parsed = run.states[k + 2].log;
        let last = run.states.last().log;
        assert forall|i: int| 0 <= i < parsed.len() && (
        #[trigger] parsed[i]).op is ParseFromStr implies parsed[i].err is None by {
            assert(last[i] == parsed[i]);
        }
    }
    lemma_value_step(run, start, k + 1, scalar, op);
    lemma_goes_on(run, start, r, k + 1);
    assert(below.push(next).push(end).drop_last() =~= below.push(next));
    assert(run.states[k + 2].log == filled);
    assert(filled.drop_last() =~= begun);
    assert(partial::fills_a_field(filled));
    assert(partial::field_filled(log, index, filled));
    lemma_end_step(run, start, k + 2, PopReason::ObjectVal);
    lemma_goes_on(run, start, r, k + 2);
    assert(run.states[k].runner.stack =~= below.push(next));
    assert(run.states[k + 3].log =~= log + field_calls(index, op));
}

/// The fields of the struct `shape`.
pub open spec fn struct_fields(shape: &'static Shape) -> Seq<Field> {
    match shape::type_info(shape) {
        shape::TypeInfo::Struct(st) => shape::fields_of(st)@,
        _ => Seq::empty(),
    }
}

/// Fields of a struct, in the order in which they are read, each with the call that stores its
/// value.
pub struct Reading {
    pub index: usize,
    pub op: Op,
}

/// The calls by which the fields of `readings` take their values, one after the other.
pub open spec fn reading_calls(readings: Seq<Reading>) -> Seq<Call>
    decreases readings.len(),
{
    if readings.len() == 0 {
        Seq::empty()
    } else {
        reading_calls(readings.drop_last()) + field_calls(readings.last().index, readings.last().op)
    }
}

/// Whether one of `readings` is of field `index`.
pub open spec fn is_read(readings: Seq<Reading>, index: usize) -> bool {
    exists|j: int| 0 <= j < readings.len() && (#[trigger] readings[j]).index == index
}

/// Whether the scalar `scalar`, read for the key `key` of the struct `shape`, is stored as `reading`
/// says.
pub open spec fn fits_field(
    shape: &'static Shape,
    key: Seq<char>,
    scalar: Scalar<'_>,
    reading: Reading,
) -> bool {
    let field = struct_fields(shape)[reading.index as int];
    let target = shape::shape_of_field(field);
    &&& partial::field_named(struct_fields(shape), key, 0) == Some(reading.index)
    &&& is_bare_field(field)
    &&& stored(target, scalar) == Some(reading.op)
    &&& takes(target, reading.op) || reading.op is ParseFromStr
}

/// Whether `keys` name fields of the struct `shape`, each once, which `scalars` are stored in, as
/// `readings` says.
pub open spec fn fits_struct(
    shape: &'static Shape,
    keys: Seq<Seq<char>>,
    scalars: Seq<Scalar<'_>>,
    readings: Seq<Reading>,
) -> bool {
    &&& shape::type_info(shape) is Struct
    &&& struct_fields(shape).len() <= partial::MAX_FIELDS
    &&& keys.len() == readings.len()
    &&& scalars.len() == readings.len()
    &&& readings.len() <= partial::MAX_FIELDS
    &&& forall|j: int|
        0 <= j < readings.len() ==> fits_field(shape, keys[j], scalars[j], #[trigger] readings[j])
    &&& forall|i: int, j: int|
        0 <= i < j < readings.len() ==> (#[trigger] readings[i]).index != (
        #[trigger] readings[j]).index
}

/// Whether the format answers with the keys `keys` and the scalars `scalars` in turn, from
/// instruction number `from` on. Each value is ended before the next key is asked for.
pub open spec fn answers_with_pairs(
    run: Run<'_>,
    from: int,
    keys: Seq<Seq<char>>,
    scalars: Seq<Scalar<'_>>,
) -> bool {
    &&& forall|j: int|
        0 <= j < keys.len() && from + 3 * j < run.answers.len() ==> answers_with_key(
            run.answers[from + 3 * j],
            #[trigger] keys[j],
        )
    &&& forall|j: int|
        0 <= j < scalars.len() && from + 3 * j + 1 < run.answers.len() ==> answers_with(
            run.answers[from + 3 * j + 1],
            Outcome::Scalar(#[trigger] scalars[j]),
        )
}

/// The first `n` pairs of an object are stored one after the other.
proof fn lemma_pairs<'input, 'facet>(
    run: Run<'input>,
    start: State,
    r: Result<Progress<'input, 'facet>, DeserError<'input>>,
    from: int,
    shape: &'static Shape,
    keys: Seq<Seq<char>>,
    scalars: Seq<Scalar<'input>>,
    readings: Seq<Reading>,
    n: int,
)
    requires
        run.carried_out_from(start),
        run.comes_to(r),
        0 <= from < run.answers.len(),
        from < 1000,
        fits_struct(shape, keys, scalars, readings),
        answers_with_pairs(run, from, keys, scalars),
        0 <= n <= readings.len(),
        run.states[from].runner.stack.last() is ObjectKeyOrObjectClose,
        partial::active(run.states[from].log),
        partial::depth_at(run.states[from].log) >= 1,
        partial::shape_at(run.states[from].log) == shape,
        forall|j: int|
            0 <= j < readings.len() ==> partial::field_set_at(
                run.states[from].log,
                (#[trigger] readings[j]).index,
            ) == Ok::<bool, ReflectError>(false),
        all_parsed(run.states.last().log),
    ensures
        ({
            let k = from + 3 * n;
            let log = run.states[k].log;
            &&& k < run.answers.len()
            &&& log == run.states[from].log + reading_calls(readings.take(n))
            &&& run.states[k].runner.stack == run.states[from].runner.stack
            &&& partial::depth_at(log) == partial::depth_at(run.states[from].log)
            &&& partial::shape_at(log) == shape
            &&& partial::active(log)
            &&& forall|i: usize|
                i < struct_fields(shape).len() ==> (#[trigger] partial::field_set_at(log, i))
                    == if is_read(readings.take(n), i) {
                    Ok::<bool, ReflectError>(true)
                } else {
                    partial::field_set_at(run.states[from].log, i)
                }
        }),
    decreases n,
{
    let first = run.states[from].log;
    if n == 0 {
        assert(readings.take(0) =~= Seq::empty());
        assert(first + reading_calls(readings.take(0)) =~= first);
    } else {
        let m = n - 1;
        lemma_pairs(run, start, r, from, shape, keys, scalars, readings, m);
        let k = from + 3 * m;
        let before = run.states[k].log;
        let reading = readings[m];
        assert(fits_field(shape, keys[m], scalars[m], readings[m]));
        assert(answers_with_key(run.answers[from + 3 * m], keys[m]));
        assert(k + 1 < run.answers.len() ==> answers_with(
            run.answers[from + 3 * m + 1],
            Outcome::Scalar(scalars[m]),
        ));
        a_scalar_read_for_a_key_sets_its_field(run, start, r, k, keys[m], scalars[m], reading.index, reading.op);
        assert(readings.take(n).drop_last() =~= readings.take(m));
        assert(readings.take(n).last() == reading);
        let after = run.states[k + 3].log;
        assert(after =~= first + reading_calls(readings.take(n)));
        assert(!is_read(readings.take(m), reading.index)) by {
            if is_read(readings.take(m), reading.index) {
                let j = choose|j: int|
                    0 <= j < m && (#[trigger] readings.take(m)[j]).index == reading.index;
                assert(readings[j].index == readings[m].index);
            }
        }
        assert forall|i: usize| i < struct_fields(shape).len() implies (
        #[trigger] partial::field_set_at(after, i)) == if is_read(readings.take(n), i) {
            Ok::<bool, ReflectError>(true)
        } else {
            partial::field_set_at(first, i)
        } by {
            if i == reading.index {
                assert(readings.take(n)[m].index == i);
            } else {
                assert(is_read(readings.take(n), i) == is_read(readings.take(m), i)) by {
                    if is_read(readings.take(n), i) {
                        let j = choose|j: int|
                            0 <= j < n && (#[trigger] readings.take(n)[j]).index == i;
                        assert(readings.take(m)[j].index == i);
                    }
                    if is_read(readings.take(m), i) {
                        let j = choose|j: int|
                            0 <= j < m && (#[trigger] readings.take(m)[j]).index == i;
                        assert(readings.take(n)[j].index == i);
                    }
                }
                assert(partial::field_set_at(before, i) == partial::field_set_at(after, i));
            }
        }
    }
}

/// The state in which the deserialization of a value of the type `shape` starts.
pub open spec fn fresh(input: Seq<u8>, source: Seq<char>, shape: &'static Shape) -> State {
    driver::initial(input, source, seq![partial::done(Op::AllocShape(shape))])
}

/// Whether a value of the type `shape` was allocated.
pub open spec fn is_allocated(shape: &'static Shape) -> bool {
    partial::effect(
        Seq::empty(),
        partial::done(Op::AllocShape(shape)),
        seq![partial::done(Op::AllocShape(shape))],
    )
}

/// Whether nothing stands round a value of the type `shape`.
pub open spec fn is_unwrapped(shape: &'static Shape) -> bool {
    &&& !(shape::def_info(shape) is Optional)
    &&& shape::smart_pointer(shape) is None
    &&& shape::inner_shape(shape) is None
}

/// Whether the format answers with an object of the keys `keys` and the scalars `scalars`, which
/// reaches to the end of the input.
pub open spec fn answers_with_object(
    run: Run<'_>,
    input: Seq<u8>,
    keys: Seq<Seq<char>>,
    scalars: Seq<Scalar<'_>>,
) -> bool {
    let end = 1 + 3 * keys.len();
    &&& run.answers.len() > 0 ==> answers_with(run.answers[0], Outcome::ObjectStarted)
    &&& answers_with_pairs(run, 1, keys, scalars)
    &&& end < run.answers.len() ==> answers_with(run.answers[end as int], Outcome::ObjectEnded)
        && reaches(run.answers[end as int], input.len())
}

/// Whether a field takes a default where it is not read.
pub open spec fn has_default(field: Field) -> bool {
    shape::flagged(field, FieldFlag::Default) && partial::no_field_default(field) is None
}

/// The calls by which the fields of the struct `shape` from `index` on that were not read take their
/// defaults.
pub open spec fn fill_calls(shape: &'static Shape, readings: Seq<Reading>, index: int) -> Seq<Call>
    decreases struct_fields(shape).len() - index,
{
    if index < 0 || index >= struct_fields(shape).len() {
        Seq::empty()
    } else if is_read(readings, index as usize) {
        fill_calls(shape, readings, index + 1)
    } else {
        seq![partial::done(Op::SetNthFieldToDefault(index as usize))] + fill_calls(
            shape,
            readings,
            index + 1,
        )
    }
}

/// A call in the middle did what it does.
pub(crate) proof fn lemma_effect_at(log: Seq<Call>, record: Seq<Call>, base: Seq<Call>)
    requires
        partial::effective(record, base),
        base.len() <= log.len() < record.len(),
        runner::extends(record, log),
    ensures
        partial::effect(
            log,
            record[log.len() as int],
            log.push(record[log.len() as int]),
        ),
{
    reveal(partial::effective);
    let n = log.len() as int;
    assert(partial::effect(record.take(n), record[n], record.take(n + 1)));
    assert(record.take(n) =~= log);
    assert(record.take(n + 1) =~= log.push(record[n]));
}

/// The fields that were not read take their defaults, one after the other.
proof fn lemma_fill(
    shape: &'static Shape,
    readings: Seq<Reading>,
    index: int,
    log: Seq<Call>,
    record: Seq<Call>,
    base: Seq<Call>,
)
    requires
        shape::type_info(shape) is Struct,
        0 <= index <= struct_fields(shape).len() <= partial::MAX_FIELDS,
        partial::shape_at(log) == shape,
        partial::active(log),
        forall|i: usize|
            i < struct_fields(shape).len() ==> (#[trigger] partial::field_set_at(log, i)) == Ok::<
                bool,
                ReflectError,
            >(i < index || is_read(readings, i)),
        forall|i: usize|
            i < struct_fields(shape).len() ==> #[trigger] is_read(readings, i) || has_default(
                struct_fields(shape)[i as int],
            ),
        partial::effective(record, base),
        base.len() <= log.len(),
        runner::extends(
            record,
            pop::defaults_filled(
                struct_fields(shape),
                false,
                index,
                log,
                false,
                record,
            ).attempt.log,
        ),
    ensures
        ({
            let filling = pop::defaults_filled(
                struct_fields(shape),
                false,
                index,
                log,
                false,
                record,
            );
            let filled = filling.attempt.log;
            &&& filling.attempt.err is None
            &&& !filling.missing
            &&& filled == log + fill_calls(shape, readings, index)
            &&& partial::shape_at(filled) == shape
            &&& partial::depth_at(filled) == partial::depth_at(log)
            &&& partial::active(filled)
            &&& partial::all_set(filled)
            &&& filled == log || filled.last().op is SetNthFieldToDefault
        }),
    decreases struct_fields(shape).len() - index,
{
    let fields = struct_fields(shape);
    if index >= fields.len() {
        assert(log + fill_calls(shape, readings, index) =~= log);
    } else {
        let i = index as usize;
        assert(partial::field_set_at(log, i) == Ok::<bool, ReflectError>(is_read(readings, i)));
        if is_read(readings, i) {
            assert forall|j: usize| j < fields.len() implies (
            #[trigger] partial::field_set_at(log, j)) == Ok::<bool, ReflectError>(
                j < index + 1 || is_read(readings, j),
            ) by {}
            lemma_fill(shape, readings, index + 1, log, record, base);
        } else {
            let call = partial::done(Op::SetNthFieldToDefault(i));
            let given = log.push(call);
            assert(has_default(fields[index]));
            assert(pop::struct_field_default(log, i, record) == Attempt::begin(given));
            laws::a_default_is_for_a_field_that_was_not_read(
                fields,
                index + 1,
                given,
                false,
                record,
            );
            let made = pop::defaults_filled(fields, false, index + 1, given, false, record).attempt.log;
            let n = log.len() as int;
            assert(made[n] == given[n]);
            assert(record[n] == made[n]);
            assert(runner::extends(record, log)) by {
                assert forall|j: int| 0 <= j < log.len() implies record[j] == log[j] by {
                    assert(given[j] == log[j]);
                    assert(made[j] == given[j]);
                }
            }
            lemma_effect_at(log, record, base);
            assert(partial::only_field_set(log, given, i));
            assert forall|j: usize| j < fields.len() implies (
            #[trigger] partial::field_set_at(given, j)) == Ok::<bool, ReflectError>(
                j < index + 1 || is_read(readings, j),
            ) by {
                if j != i {
                    assert(partial::field_set_at(log, j) == partial::field_set_at(given, j));
                }
            }
            lemma_fill(shape, readings, index + 1, given, record, base);
            assert(given + fill_calls(shape, readings, index + 1) =~= log + fill_calls(
                shape,
                readings,
                index,
            ));
        }
    }
}

/// Ending frames adds to the calls.
proof fn lemma_frames_ended_extend(log: Seq<Call>, record: Seq<Call>)
    ensures
        runner::extends(driver::frames_ended(log, record).log, log),
    decreases record.len() - log.len(),
{
    if partial::depth_at(log) > 1 && log.len() < record.len() {
        let ended = Attempt::begin(log).call(Op::End, record);
        if ended.err is None {
            lemma_frames_ended_extend(ended.log, record);
        }
    }
}

/// The calls that fill in defaults are in the record of the end of a struct.
proof fn lemma_fills_recorded(
    runner: RunnerView,
    log: Seq<Call>,
    shape: &'static Shape,
    default: DefaultView,
    record: Seq<Call>,
)
    requires
        shape::type_info(shape) is Struct,
        struct_fields(shape).len() <= partial::MAX_FIELDS,
        partial::shape_at(log) == shape,
        driver::pop_step(runner, log, PopReason::TopLevel, default, record).state.log == record,
    ensures
        runner::extends(
            record,
            pop::defaults_filled(
                struct_fields(shape),
                false,
                0,
                log,
                false,
                record,
            ).attempt.log,
        ),
{
    let made = pop::defaults_filled(
        struct_fields(shape),
        false,
        0,
        log,
        false,
        record,
    ).attempt.log;
    let settled = pop::pop_attempt(log, PopReason::TopLevel, default, record);
    lemma_default_taken_extends(made, partial::default_calls(shape), default, record);
    assert(runner::extends(settled.log, made));
    lemma_frames_ended_extend(settled.log, record);
    let ended = driver::frames_ended(settled.log, record);
    assert(runner::extends(ended.log, settled.log));
    assert(runner::extends(record, settled.log));
}

/// Taking fields from a default value adds to the calls.
proof fn lemma_default_taken_extends(
    log: Seq<Call>,
    source: Seq<Call>,
    default: DefaultView,
    record: Seq<Call>,
)
    ensures
        default matches DefaultView::Ready(variant) ==> runner::extends(
            pop::default_taken(log, source, variant, record).log,
            log,
        ),
{
    lemma_fields_taken_extend(partial::frame_fields(log), 0, log, source, record);
}

/// Taking fields adds to the calls.
pub(crate) proof fn lemma_fields_taken_extend(
    fields: Seq<Field>,
    index: int,
    log: Seq<Call>,
    source: Seq<Call>,
    record: Seq<Call>,
)
    ensures
        runner::extends(pop::fields_taken(fields, index, log, source, record).log, log),
    decreases fields.len() - index,
{
    if 0 <= index < fields.len() {
        match partial::field_set_at(log, index as usize) {
            Err(_) => {},
            Ok(true) => {
                lemma_fields_taken_extend(fields, index + 1, log, source, record);
            },
            Ok(false) => {
                let taken = Attempt::begin(log).call(
                    Op::StealNthField(index as usize, source),
                    record,
                );
                let left = source.push(partial::done(Op::LoseNthField(index as usize)));
                lemma_fields_taken_extend(fields, index + 1, taken.log, left, record);
            },
        }
    }
}

/// A struct of which each field was read or has a default is filled, and finished.
proof fn lemma_filled_finish<'input, 'facet>(
    run: Run<'input>,
    start: State,
    r: Result<Progress<'input, 'facet>, DeserError<'input>>,
    k: int,
    shape: &'static Shape,
    readings: Seq<Reading>,
)
    requires
        run.carried_out_from(start),
        run.comes_to(r),
        0 <= k < run.answers.len(),
        run.states[k].runner.stack == seq![Instruction::Pop(PopReason::TopLevel)],
        shape::type_info(shape) is Struct,
        0 < struct_fields(shape).len() <= partial::MAX_FIELDS,
        partial::shape_at(run.states[k].log) == shape,
        partial::active(run.states[k].log),
        partial::depth_at(run.states[k].log) == 1,
        readings.len() > 0 ==> run.states[k].log.last().op is End,
        forall|i: usize|
            i < struct_fields(shape).len() ==> (#[trigger] partial::field_set_at(
                run.states[k].log,
                i,
            )) == Ok::<bool, ReflectError>(is_read(readings, i)),
        forall|i: usize|
            i < struct_fields(shape).len() ==> #[trigger] is_read(readings, i) || has_default(
                struct_fields(shape)[i as int],
            ),
        !shape::has_invariants(shape),
        !driver::input_left(run.states[k].runner),
    ensures
        run.answers.len() == k + 1,
        r matches Ok(Progress::Done(value)) && partial::built_from(value) == run.states[k].log
            + fill_calls(shape, readings, 0),
{
    let log = run.states[k].log;
    let record = run.states[k + 1].log;
    let reason = PopReason::TopLevel;
    let default = run.defaults[k];
    let fields = struct_fields(shape);
    assert(run.carried_out(k));
    let filling = pop::defaults_filled(fields, false, 0, log, false, record);
    let made = filling.attempt.log;
    let state = run.states[k].runner;
    let below = RunnerView { stack: state.stack.drop_last(), ..state };
    assert(run.step(k) == driver::pop_step(below, log, reason, default, record)) by {
        reveal(driver::step);
    }
    lemma_fills_recorded(below, log, shape, default, record);
    lemma_fill(shape, readings, 0, log, record, log);
    assert(partial::is_whole(made)) by {
        if made == log {
            if readings.len() == 0 {
                assert(!is_read(readings, 0));
                assert(partial::field_set_at(log, 0) == Ok::<bool, ReflectError>(false));
            }
        }
    }
    assert(pop::pop_attempt(log, reason, default, record) == Attempt::begin(made));
    assert(driver::frames_ended(made, record) == Attempt::begin(made));
    assert(run.step(k).effect is Finish && record == made.push(partial::done(Op::Build)));
    assert(record.drop_last() =~= made);
    if k + 1 < run.answers.len() {
        assert(run.step(k).effect is Continue);
    }
}

/// An object of scalars is read into a struct: the value is built from the fields that were read, in
/// that order, then from the defaults of the fields that were not, and from nothing else. The format
/// is asked for the start of the object, for each key and its value, and for the end, in that order.
/// Each field is read at most once, and has a default if it is not read. (A type with invariants may
/// refuse the value.)
pub proof fn an_object_of_scalars_is_read<'input, 'facet>(
    run: Run<'input>,
    input: Seq<u8>,
    source: Seq<char>,
    shape: &'static Shape,
    keys: Seq<Seq<char>>,
    scalars: Seq<Scalar<'input>>,
    readings: Seq<Reading>,
    r: Result<Progress<'input, 'facet>, DeserError<'input>>,
)
    requires
        is_allocated(shape),
        run.carried_out_from(fresh(input, source, shape)),
        run.comes_to(r),
        is_unwrapped(shape),
        !(shape::def_info(shape) is Mapping),
        struct_fields(shape).len() > 0,
        fits_struct(shape, keys, scalars, readings),
        forall|i: usize|
            i < struct_fields(shape).len() ==> #[trigger] is_read(readings, i) || has_default(
                struct_fields(shape)[i as int],
            ),
        answers_with_object(run, input, keys, scalars),
        all_parsed(run.states.last().log),
        !shape::has_invariants(shape),
    ensures
        r matches Ok(Progress::Done(value)) && partial::built_from(value) == struct_calls(
            shape,
            readings,
        ),
        run.answers.len() == 3 * readings.len() + 3,
{
    let start = fresh(input, source, shape);
    let log = start.log;
    let end = 1 + 3 * readings.len();
    let top = Instruction::Pop(PopReason::TopLevel);
    let next = Instruction::ObjectKeyOrObjectClose;
    assert(run.carried_out(0));
    assert(start.runner.stack.drop_last() =~= seq![top]);
    assert(run.step(0).effect is Continue && run.states[1].log == log && run.states[1].runner.stack
        == seq![top].push(next)) by {
        reveal(driver::step);
        assert(value::next_wrap(log, false) is None);
    }
    lemma_goes_on(run, start, r, 0);
    assert forall|j: int| 0 <= j < readings.len() implies partial::field_set_at(
        log,
        (#[trigger] readings[j]).index,
    ) == Ok::<bool, ReflectError>(false) by {
        laws::lemma_field_named(struct_fields(shape), keys[j], 0);
        assert(fits_field(shape, keys[j], scalars[j], readings[j]));
    }
    lemma_pairs(run, start, r, 1, shape, keys, scalars, readings, readings.len() as int);
    assert(readings.take(readings.len() as int) =~= readings);
    let k = end as int;
    let full = run.states[k].log;
    assert(run.carried_out(k));
    assert(seq![top].push(next).drop_last() =~= seq![top]);
    assert(run.step(k).effect is Continue && run.states[k + 1].log == full
        && run.states[k + 1].runner.stack == seq![top]) by {
        reveal(driver::step);
    }
    laws::errors_are_where_the_format_last_answered(
        run.states[k],
        run.answers[k],
        run.defaults[k],
        full,
    );
    lemma_goes_on(run, start, r, k);
    laws::a_run_keeps_the_input(run, start, k + 1);
    assert(run.carried_out(k + 1));
    if readings.len() > 0 {
        lemma_last_call(log, readings);
    }
    lemma_filled_finish(run, start, r, k + 1, shape, readings);
}

/// After all fields are read the last call is the end of one.
proof fn lemma_last_call(log: Seq<Call>, readings: Seq<Reading>)
    requires
        readings.len() > 0,
    ensures
        (log + reading_calls(readings)).last() == partial::done(Op::End),
{
    let last = readings.last();
    assert((log + reading_calls(readings)).last() == field_calls(last.index, last.op).last());
}

/// A whole value of a type without invariants is built, and nothing else happens.
proof fn lemma_finish_step<'input, 'facet>(
    run: Run<'input>,
    start: State,
    r: Result<Progress<'input, 'facet>, DeserError<'input>>,
    k: int,
)
    requires
        run.carried_out_from(start),
        run.comes_to(r),
        0 <= k < run.answers.len(),
        run.states[k].runner.stack == seq![Instruction::Pop(PopReason::TopLevel)],
        partial::is_whole(run.states[k].log),
        is_bare(partial::shape_at(run.states[k].log)) || (pop::has_fields(run.states[k].log)
            && partial::all_set(run.states[k].log) && partial::frame_fields(
            run.states[k].log,
        ).len() <= partial::MAX_FIELDS),
        !shape::has_invariants(partial::shape_at(run.states[k].log)),
        !driver::input_left(run.states[k].runner),
    ensures
        run.answers.len() == k + 1,
        r matches Ok(Progress::Done(value)) && partial::built_from(value) == run.states[k].log,
{
    let log = run.states[k].log;
    let record = run.states[k + 1].log;
    assert(run.carried_out(k));
    let reason = PopReason::TopLevel;
    if pop::has_fields(log) && partial::all_set(log) && !is_bare(partial::shape_at(log)) {
        laws::a_complete_value_is_left_alone(log, reason, run.defaults[k], record);
    }
    assert(run.step(k).effect is Finish && record == log.push(partial::done(Op::Build))) by {
        reveal(driver::step);
        assert(pop::pop_attempt(log, reason, run.defaults[k], record) == Attempt::begin(log));
        assert(driver::frames_ended(log, record) == Attempt::begin(log));
    }
    assert(record.drop_last() =~= log);
    if k + 1 < run.answers.len() {
        assert(run.step(k).effect is Continue);
    }
}

/// The calls by which items of a list take what the calls `ops` store, one after the other.
pub open spec fn item_calls(ops: Seq<Op>) -> Seq<Call>
    decreases ops.len(),
{
    if ops.len() == 0 {
        Seq::empty()
    } else {
        item_calls(ops.drop_last()) + seq![
            partial::done(Op::BeginListItem),
            partial::done(ops.last()),
            partial::done(Op::End),
        ]
    }
}

/// Whether the scalars `scalars` are stored in items of the type `item` by the calls `ops`.
pub open spec fn fit_items(item: &'static Shape, scalars: Seq<Scalar<'_>>, ops: Seq<Op>) -> bool {
    &&& is_bare(item)
    &&& scalars.len() == ops.len()
    &&& scalars.len() < 0x1000_0000_0000_0000
    &&& forall|j: int| 0 <= j < ops.len() ==> stored(item, scalars[j]) == Some(#[trigger] ops[j])
}

/// Whether the format answers with a list of the scalars `scalars`, which reaches to the end of the
/// input. Each item is ended before the next is asked for.
pub open spec fn answers_with_list(
    run: Run<'_>,
    input: Seq<u8>,
    scalars: Seq<Scalar<'_>>,
) -> bool {
    let end = 1 + 2 * scalars.len();
    &&& run.answers.len() > 0 ==> answers_with(run.answers[0], Outcome::ListStarted)
    &&& forall|j: int|
        0 <= j < scalars.len() && 1 + 2 * j < run.answers.len() ==> answers_with(
            run.answers[1 + 2 * j],
            Outcome::Scalar(#[trigger] scalars[j]),
        )
    &&& end < run.answers.len() ==> answers_with(run.answers[end as int], Outcome::ListEnded)
        && reaches(run.answers[end as int], input.len())
}

/// Whether the deserialization ends in an error because the last call failed.
pub open spec fn a_call_failed<'input, 'facet>(
    run: Run<'input>,
    r: Result<Progress<'input, 'facet>, DeserError<'input>>,
) -> bool {
    &&& r is Err
    &&& run.states.last().log.len() > 0
    &&& run.states.last().log.last().err is Some
}

/// A run that fails ends there.
pub(crate) proof fn lemma_stops<'input, 'facet>(
    run: Run<'input>,
    start: State,
    r: Result<Progress<'input, 'facet>, DeserError<'input>>,
    k: int,
)
    requires
        run.carried_out_from(start),
        run.comes_to(r),
        0 <= k < run.answers.len(),
        run.step(k).effect is Fail,
    ensures
        run.answers.len() == k + 1,
        run.states.last() == run.states[k + 1],
        r is Err,
{
    if k + 1 < run.answers.len() {
        assert(run.step(k).effect is Continue);
    }
}

/// Where no text fails to parse, none has failed before.
pub(crate) proof fn lemma_parsed_before(run: Run<'_>, start: State, k: int)
    requires
        run.carried_out_from(start),
        0 <= k < run.states.len(),
        all_parsed(run.states.last().log),
    ensures
        all_parsed(run.states[k].log),
{
    lemma_calls_stay(run, start, k, run.states.len() - 1);
    let parsed = run.states[k].log;
    let last = run.states.last().log;
    assert forall|i: int| 0 <= i < parsed.len() && (
    #[trigger] parsed[i]).op is ParseFromStr implies parsed[i].err is None by {
        assert(last[i] == parsed[i]);
    }
}

/// An item of a list is begun and takes the scalar, and is ended, unless a call fails.
proof fn lemma_item_step<'input, 'facet>(
    run: Run<'input>,
    start: State,
    r: Result<Progress<'input, 'facet>, DeserError<'input>>,
    k: int,
    item: &'static Shape,
    scalar: Scalar<'input>,
    op: Op,
)
    requires
        run.carried_out_from(start),
        run.comes_to(r),
        0 <= k < run.answers.len(),
        k + 2 < u64::MAX,
        run.states[k].runner.stack.last() is ListItemOrListClose,
        partial::active(run.states[k].log),
        partial::depth_at(run.states[k].log) >= 1,
        shape::def_info(partial::shape_at(run.states[k].log)) == (DefInfo::List { item }),
        is_bare(item),
        stored(item, scalar) == Some(op),
        answers_with(run.answers[k], Outcome::Scalar(scalar)),
        all_parsed(run.states.last().log),
    ensures
        a_call_failed(run, r) || {
            &&& k + 2 < run.answers.len()
            &&& run.states[k + 2].log == run.states[k].log + item_calls(seq![op])
            &&& run.states[k + 2].runner.stack == run.states[k].runner.stack
            &&& partial::depth_at(run.states[k + 2].log) == partial::depth_at(run.states[k].log)
            &&& partial::shape_at(run.states[k + 2].log) == partial::shape_at(run.states[k].log)
            &&& partial::active(run.states[k + 2].log)
        },
{
    let log = run.states[k].log;
    let record = run.states[k + 1].log;
    let begin = partial::done(Op::BeginListItem);
    let begun = log.push(begin);
    let filled = begun.push(partial::done(op));
    let below = run.states[k].runner.stack.drop_last();
    let next = Instruction::ListItemOrListClose;
    let end = Instruction::Pop(PopReason::ListVal);
    assert(run.carried_out(k));
    lemma_parsed_before(run, start, k + 1);
    lemma_item_read(run, start, k, item, scalar, op);
    if run.step(k).effect is Fail {
        lemma_stops(run, start, r, k);
    } else {
        lemma_goes_on(run, start, r, k);
        lemma_effect_of_two(log, begin, partial::done(op));
        assert(below.push(next).push(end).drop_last() =~= below.push(next));
        assert(filled.drop_last() =~= begun);
        assert(partial::item_filled(log, filled));
        lemma_end_step(run, start, k + 1, PopReason::ListVal);
        if run.step(k + 1).effect is Fail {
            lemma_stops(run, start, r, k + 1);
            lemma_failed_end(run, start, k + 1, PopReason::ListVal);
        } else {
            lemma_goes_on(run, start, r, k + 1);
            assert(run.states[k].runner.stack =~= below.push(next));
            assert(seq![op].drop_last() =~= Seq::<Op>::empty());
            assert(item_calls(seq![op].drop_last()) =~= Seq::<Call>::empty());
            assert(run.states[k + 2].log =~= log + item_calls(seq![op]));
        }
    }
}

/// A call that was made did what it does.
pub(crate) proof fn lemma_effect_of_first(log: Seq<Call>, record: Seq<Call>)
    requires
        partial::effective(record, log),
        record.len() > log.len(),
    ensures
        partial::effect(
            log,
            record[log.len() as int],
            log.push(record[log.len() as int]),
        ),
{
    reveal(partial::effective);
    let n = log.len() as int;
    assert(partial::effect(record.take(n), record[n], record.take(n + 1)));
    assert(record.take(n) =~= log);
    assert(record.take(n + 1) =~= log.push(record[n]));
}

/// Reading a scalar adds to the calls.
pub(crate) proof fn lemma_scalar_extends(
    runner: RunnerView,
    log: Seq<Call>,
    scalar: Scalar<'_>,
    record: Seq<Call>,
)
    ensures
        runner::extends(
            value::value_turn(runner, log, Outcome::Scalar(scalar), record).log,
            log,
        ),
{
    laws::lemma_resolved_extends(runner.stack, log, false, record);
    let resolution = value::resolved(runner.stack, log, false, record);
    let inner = resolution.attempt.log;
    assert(runner::extends(
        scalar_value::scalar_placement(inner, scalar, record).attempt.log,
        inner,
    ));
}

/// What comes of a scalar that is read for an item of a list.
proof fn lemma_item_turn(
    seen: RunnerView,
    log: Seq<Call>,
    item: &'static Shape,
    scalar: Scalar<'_>,
    op: Op,
    record: Seq<Call>,
)
    requires
        shape::def_info(partial::shape_at(log)) == (DefInfo::List { item }),
        is_bare(item),
        stored(item, scalar) == Some(op),
        partial::effective(record, log),
        list::list_turn(seen, log, Outcome::Scalar(scalar), record).log == record,
        all_parsed(record),
    ensures
        ({
            let turn = list::list_turn(seen, log, Outcome::Scalar(scalar), record);
            let begun = log.push(partial::done(Op::BeginListItem));
            let pushed = seen.push(Instruction::ListItemOrListClose).push(
                Instruction::Pop(PopReason::ListVal),
            );
            &&& turn.runner == pushed
            &&& turn.float is None
            &&& turn.err is Some ==> record.len() > 0 && record.last().err is Some
            &&& turn.err is None ==> record == begun.push(partial::done(op))
            &&& partial::fills_frame(op)
        }),
{
    let pushed = seen.push(Instruction::ListItemOrListClose).push(
        Instruction::Pop(PopReason::ListVal),
    );
    let attempt = Attempt::begin(log).call(Op::BeginListItem, record);
    let n = log.len() as int;
    assert(list::item_begun(pushed, log, record) == (list::Item { runner: pushed, attempt }));
    let begun = log.push(partial::done(Op::BeginListItem));
    if attempt.err is None {
        assert(attempt.log == begun);
        assert(list::empty_tuple_set(attempt, Outcome::Scalar(scalar), record) == attempt);
        lemma_scalar_extends(pushed, begun, scalar, record);
        assert(record[n] == begun[n]);
        lemma_effect_of_first(log, record);
        if op is ParseFromStr {
            lemma_parse_recorded(pushed, begun, scalar, op, record);
        }
        lemma_stored(pushed, begun, scalar, op, record);
    } else {
        assert(record == attempt.log);
    }
}

/// A scalar is stored where an item is due, unless a call fails.
proof fn lemma_item_read(
    run: Run<'_>,
    start: State,
    k: int,
    item: &'static Shape,
    scalar: Scalar<'_>,
    op: Op,
)
    requires
        run.carried_out_from(start),
        0 <= k < run.answers.len(),
        run.states[k].runner.stack.last() is ListItemOrListClose,
        shape::def_info(partial::shape_at(run.states[k].log)) == (DefInfo::List { item }),
        is_bare(item),
        stored(item, scalar) == Some(op),
        answers_with(run.answers[k], Outcome::Scalar(scalar)),
        all_parsed(run.states[k + 1].log),
    ensures
        ({
            let record = run.states[k + 1].log;
            let begun = run.states[k].log.push(partial::done(Op::BeginListItem));
            ||| run.step(k).effect is Fail && record.len() > 0 && record.last().err is Some
            ||| {
                &&& run.step(k).effect is Continue
                &&& record == begun.push(partial::done(op))
                &&& partial::fills_frame(op)
                &&& run.states[k + 1].runner.stack == run.states[k].runner.stack.drop_last().push(
                    Instruction::ListItemOrListClose,
                ).push(Instruction::Pop(PopReason::ListVal))
            }
        }),
{
    reveal(driver::step);
    assert(run.carried_out(k));
    let state = run.states[k];
    let runner = RunnerView { stack: state.runner.stack.drop_last(), ..state.runner };
    match run.answers[k] {
        Answer::Read(Ok(read)) => {
            let seen = RunnerView { last_span: read.span, ..runner };
            lemma_item_turn(seen, state.log, item, scalar, op, run.states[k + 1].log);
        },
        _ => {},
    }
}

/// A bare value whose end fails leaves that call as the last.
pub(crate) proof fn lemma_failed_end(run: Run<'_>, start: State, k: int, reason: PopReason)
    requires
        run.carried_out_from(start),
        0 <= k < run.answers.len(),
        run.states[k].runner.stack.last() == Instruction::Pop(reason),
        !(reason is TopLevel),
        is_bare(partial::shape_at(run.states[k].log)),
        run.step(k).effect is Fail,
    ensures
        run.states[k + 1].log.len() > 0,
        run.states[k + 1].log.last().err is Some,
{
    reveal(driver::step);
    assert(run.carried_out(k));
    assert(pop::pop_attempt(
        run.states[k].log,
        reason,
        run.defaults[k],
        run.states[k + 1].log,
    ) == Attempt::begin(run.states[k].log));
}

/// The first `n` items of a list are stored one after the other, unless a call fails.
proof fn lemma_items<'input, 'facet>(
    run: Run<'input>,
    start: State,
    r: Result<Progress<'input, 'facet>, DeserError<'input>>,
    input: Seq<u8>,
    item: &'static Shape,
    scalars: Seq<Scalar<'input>>,
    ops: Seq<Op>,
    n: int,
)
    requires
        run.carried_out_from(start),
        run.comes_to(r),
        1 < run.answers.len(),
        fit_items(item, scalars, ops),
        answers_with_list(run, input, scalars),
        0 <= n <= ops.len(),
        run.states[1].runner.stack.last() is ListItemOrListClose,
        partial::active(run.states[1].log),
        partial::depth_at(run.states[1].log) >= 1,
        shape::def_info(partial::shape_at(run.states[1].log)) == (DefInfo::List { item }),
        all_parsed(run.states.last().log),
    ensures
        a_call_failed(run, r) || {
            let k = 1 + 2 * n;
            let log = run.states[k].log;
            &&& k < run.answers.len()
            &&& log == run.states[1].log + item_calls(ops.take(n))
            &&& run.states[k].runner.stack == run.states[1].runner.stack
            &&& partial::depth_at(log) == partial::depth_at(run.states[1].log)
            &&& partial::shape_at(log) == partial::shape_at(run.states[1].log)
            &&& partial::active(log)
        },
    decreases n,
{
    let first = run.states[1].log;
    if n == 0 {
        assert(ops.take(0) =~= Seq::empty());
        assert(first + item_calls(ops.take(0)) =~= first);
    } else {
        let m = n - 1;
        lemma_items(run, start, r, input, item, scalars, ops, m);
        if !a_call_failed(run, r) {
            let k = 1 + 2 * m;
            assert(answers_with(run.answers[1 + 2 * m], Outcome::Scalar(scalars[m])));
            assert(stored(item, scalars[m]) == Some(ops[m]));
            lemma_item_step(run, start, r, k, item, scalars[m], ops[m]);
            if !a_call_failed(run, r) {
                assert(ops.take(n).drop_last() =~= ops.take(m));
                assert(seq![ops[m]].drop_last() =~= Seq::<Op>::empty());
                assert(item_calls(seq![ops[m]].drop_last()) =~= Seq::<Call>::empty());
                assert(run.states[k + 2].log =~= first + item_calls(ops.take(n)));
            }
        }
    }
}

/// A list of scalars is read into a list of just these items, in the order in which they were read,
/// unless a call fails. The format is asked for the start of the list, for each item, and for the
/// end, in that order. (A type with invariants may refuse the value.)
pub proof fn a_list_of_scalars_is_read<'input, 'facet>(
    run: Run<'input>,
    input: Seq<u8>,
    source: Seq<char>,
    shape: &'static Shape,
    item: &'static Shape,
    scalars: Seq<Scalar<'input>>,
    ops: Seq<Op>,
    r: Result<Progress<'input, 'facet>, DeserError<'input>>,
)
    requires
        is_allocated(shape),
        run.carried_out_from(fresh(input, source, shape)),
        run.comes_to(r),
        is_bare(shape),
        shape::def_info(shape) == (DefInfo::List { item }),
        shape::implements_default(shape),
        fit_items(item, scalars, ops),
        answers_with_list(run, input, scalars),
        all_parsed(run.states.last().log),
        !shape::has_invariants(shape),
    ensures
        a_call_failed(run, r) || {
            &&& r matches Ok(Progress::Done(value)) && partial::built_from(value) == seq![
                partial::done(Op::AllocShape(shape)),
                partial::done(Op::SetDefault),
                partial::done(Op::BeginList),
            ] + item_calls(ops)
            &&& run.answers.len() == 2 * ops.len() + 3
        },
{
    let start = fresh(input, source, shape);
    let log = start.log;
    let top = Instruction::Pop(PopReason::TopLevel);
    let next = Instruction::ListItemOrListClose;
    let emptied = log.push(partial::done(Op::SetDefault));
    let begun = emptied.push(partial::done(Op::BeginList));
    assert(run.carried_out(0));
    assert(start.runner.stack.drop_last() =~= seq![top]);
    assert(run.step(0).effect is Continue && run.states[1].log == begun
        && run.states[1].runner.stack == seq![top].push(next)) by {
        reveal(driver::step);
        assert(value::next_wrap(log, false) is None);
    }
    lemma_effect_of_two(log, partial::done(Op::SetDefault), partial::done(Op::BeginList));
    lemma_goes_on(run, start, r, 0);
    lemma_items(run, start, r, input, item, scalars, ops, ops.len() as int);
    if !a_call_failed(run, r) {
        assert(ops.take(ops.len() as int) =~= ops);
        let k = 1 + 2 * ops.len() as int;
        let full = run.states[k].log;
        assert(run.carried_out(k));
        assert(seq![top].push(next).drop_last() =~= seq![top]);
        assert(run.step(k).effect is Continue && run.states[k + 1].log == full
            && run.states[k + 1].runner.stack == seq![top]) by {
            reveal(driver::step);
        }
        laws::errors_are_where_the_format_last_answered(
            run.states[k],
            run.answers[k],
            run.defaults[k],
            full,
        );
        lemma_goes_on(run, start, r, k);
        laws::a_run_keeps_the_input(run, start, k + 1);
        assert(full.last().op is End || full.last().op is BeginList) by {
            if ops.len() > 0 {
                assert(full.last() == item_calls(ops).last());
            } else {
                assert(full =~= begun);
            }
        }
        lemma_finish_step(run, start, r, k + 1);
        assert(full =~= seq![
            partial::done(Op::AllocShape(shape)),
            partial::done(Op::SetDefault),
            partial::done(Op::BeginList),
        ] + item_calls(ops));
    }
}

/// A scalar is read into a value of a type that takes it: the value is built from the one call that
/// stores it, and the format is asked once. (A type with invariants may refuse the value.)
pub proof fn a_scalar_is_read<'input, 'facet>(
    run: Run<'input>,
    input: Seq<u8>,
    source: Seq<char>,
    shape: &'static Shape,
    scalar: Scalar<'input>,
    op: Op,
    r: Result<Progress<'input, 'facet>, DeserError<'input>>,
)
    requires
        is_allocated(shape),
        run.carried_out_from(fresh(input, source, shape)),
        run.comes_to(r),
        is_bare(shape),
        stored(shape, scalar) == Some(op),
        takes(shape, op) || op is ParseFromStr,
        answers_with(run.answers[0], Outcome::Scalar(scalar)),
        reaches(run.answers[0], input.len()),
        all_parsed(run.states.last().log),
        !shape::has_invariants(shape),
    ensures
        r matches Ok(Progress::Done(value)) && partial::built_from(value) == seq![
            partial::done(Op::AllocShape(shape)),
            partial::done(op),
        ],
        run.answers.len() == 2,
{
    let start = fresh(input, source, shape);
    let log = start.log;
    assert(run.carried_out(0));
    lemma_parsed_before(run, start, 1);
    lemma_value_step(run, start, 0, scalar, op);
    lemma_goes_on(run, start, r, 0);
    laws::errors_are_where_the_format_last_answered(
        run.states[0],
        run.answers[0],
        run.defaults[0],
        run.states[1].log,
    );
    assert(start.runner.stack.drop_last() =~= seq![Instruction::Pop(PopReason::TopLevel)]);
    lemma_finish_step(run, start, r, 1);
    assert(run.states[1].log =~= seq![partial::done(Op::AllocShape(shape)), partial::done(op)]);
}

/// An error that the format answers with is the error that the deserialization ends in, at the place
/// that the format says, with the whole input. The format is not asked again.
pub proof fn an_error_of_the_format_ends_it<'input, 'facet>(
    run: Run<'input>,
    input: Seq<u8>,
    source: Seq<char>,
    log: Seq<Call>,
    r: Result<Progress<'input, 'facet>, DeserError<'input>>,
    k: int,
)
    requires
        run.carried_out_from(driver::initial(input, source, log)),
        run.comes_to(r),
        0 <= k < run.answers.len(),
    ensures
        run.answers[k] matches Answer::Read(Err(e)) ==> run.answers.len() == k + 1 && (r matches Err(
            failed,
        ) && failed.kind@ == e.node@ && failed.span == e.span && failed.input@ == input),
        run.answers[k] matches Answer::Skipped(Err(e)) ==> run.answers.len() == k + 1 && (
        r matches Err(failed) && failed.kind@ == e.node@ && failed.span == e.span && failed.input@
            == input),
{
    let start = driver::initial(input, source, log);
    assert(run.carried_out(k));
    let failing = match run.answers[k] {
        Answer::Read(Err(_)) => true,
        Answer::Skipped(Err(_)) => true,
        _ => false,
    };
    if failing {
        assert(run.step(k).effect is Fail) by {
            reveal(driver::step);
        }
        lemma_stops(run, start, r, k);
        laws::a_run_keeps_the_input(run, start, k + 1);
        assert(run.effect() == run.step(k).effect);
        reveal(driver::step);
    }
}

/// What comes of a scalar that is read for an element of an array.
proof fn lemma_element_turn(
    seen: RunnerView,
    log: Seq<Call>,
    len: usize,
    item: &'static Shape,
    index: usize,
    scalar: Scalar<'_>,
    op: Op,
    record: Seq<Call>,
)
    requires
        partial::is_array(partial::shape_at(log)),
        shape::def_info(partial::shape_at(log)) == (DefInfo::Array { len, item }),
        seen.array_indices == seq![index],
        index < len,
        is_bare(item),
        stored(item, scalar) == Some(op),
        partial::effective(record, log),
        list::list_turn(seen, log, Outcome::Scalar(scalar), record).log == record,
        all_parsed(record),
    ensures
        ({
            let turn = list::list_turn(seen, log, Outcome::Scalar(scalar), record);
            let begun = log.push(partial::done(Op::BeginNthField(index)));
            &&& turn.float is None
            &&& turn.err is None ==> {
                &&& record == begun.push(partial::done(op))
                &&& turn.runner.stack == seen.stack.push(Instruction::ListItemOrListClose).push(
                    Instruction::Pop(PopReason::ListVal),
                )
                &&& turn.runner.array_indices == seq![(index + 1) as usize]
            }
            &&& partial::fills_frame(op)
        }),
{
    let pushed = seen.push(Instruction::ListItemOrListClose).push(
        Instruction::Pop(PopReason::ListVal),
    );
    let attempt = Attempt::begin(log).call(Op::BeginNthField(index), record);
    let n = log.len() as int;
    let item_read = list::item_begun(pushed, log, record);
    assert(pushed.array_indices.last() == index);
    assert(item_read.attempt == attempt);
    let begun = log.push(partial::done(Op::BeginNthField(index)));
    if attempt.err is None {
        assert(list::advanced(seq![index]) =~= seq![(index + 1) as usize]);
        assert(attempt.log == begun);
        assert(list::empty_tuple_set(attempt, Outcome::Scalar(scalar), record) == attempt);
        lemma_scalar_extends(item_read.runner, begun, scalar, record);
        assert(record[n] == begun[n]);
        lemma_effect_of_first(log, record);
        if op is ParseFromStr {
            lemma_parse_recorded(item_read.runner, begun, scalar, op, record);
        }
        lemma_stored(item_read.runner, begun, scalar, op, record);
    }
}

/// A scalar is stored in the next element of an array, unless something fails.
proof fn lemma_element_read(
    run: Run<'_>,
    start: State,
    k: int,
    len: usize,
    item: &'static Shape,
    index: usize,
    scalar: Scalar<'_>,
    op: Op,
)
    requires
        run.carried_out_from(start),
        0 <= k < run.answers.len(),
        run.states[k].runner.stack.last() is ListItemOrListClose,
        run.states[k].runner.array_indices == seq![index],
        partial::is_array(partial::shape_at(run.states[k].log)),
        shape::def_info(partial::shape_at(run.states[k].log)) == (DefInfo::Array { len, item }),
        index < len,
        is_bare(item),
        stored(item, scalar) == Some(op),
        answers_with(run.answers[k], Outcome::Scalar(scalar)),
        all_parsed(run.states[k + 1].log),
    ensures
        ({
            let begun = run.states[k].log.push(partial::done(Op::BeginNthField(index)));
            ||| run.step(k).effect is Fail
            ||| {
                &&& run.step(k).effect is Continue
                &&& run.states[k + 1].log == begun.push(partial::done(op))
                &&& partial::fills_frame(op)
                &&& run.states[k + 1].runner.stack == run.states[k].runner.stack.drop_last().push(
                    Instruction::ListItemOrListClose,
                ).push(Instruction::Pop(PopReason::ListVal))
                &&& run.states[k + 1].runner.array_indices == seq![(index + 1) as usize]
            }
        }),
{
    reveal(driver::step);
    assert(run.carried_out(k));
    let state = run.states[k];
    let runner = RunnerView { stack: state.runner.stack.drop_last(), ..state.runner };
    match run.answers[k] {
        Answer::Read(Ok(read)) => {
            let seen = RunnerView { last_span: read.span, ..runner };
            lemma_element_turn(
                seen,
                state.log,
                len,
                item,
                index,
                scalar,
                op,
                run.states[k + 1].log,
            );
        },
        _ => {},
    }
}

/// The first `n` items of an array are stored in its first `n` elements, unless something fails.
proof fn lemma_elements<'input, 'facet>(
    run: Run<'input>,
    start: State,
    r: Result<Progress<'input, 'facet>, DeserError<'input>>,
    input: Seq<u8>,
    len: usize,
    item: &'static Shape,
    scalars: Seq<Scalar<'input>>,
    ops: Seq<Op>,
    n: int,
)
    requires
        run.carried_out_from(start),
        run.comes_to(r),
        1 < run.answers.len(),
        fit_items(item, scalars, ops),
        answers_with_list(run, input, scalars),
        0 <= n <= ops.len() <= len,
        run.states[1].runner.stack.last() is ListItemOrListClose,
        run.states[1].runner.array_indices == seq![0usize],
        partial::depth_at(run.states[1].log) >= 1,
        partial::is_array(partial::shape_at(run.states[1].log)),
        shape::def_info(partial::shape_at(run.states[1].log)) == (DefInfo::Array { len, item }),
        forall|i: usize| !(#[trigger] partial::element_set_at(run.states[1].log, i)),
        all_parsed(run.states.last().log),
    ensures
        r is Err || {
            let k = 1 + 2 * n;
            let log = run.states[k].log;
            &&& k < run.answers.len()
            &&& run.states[k].runner.stack == run.states[1].runner.stack
            &&& run.states[k].runner.array_indices == seq![n as usize]
            &&& partial::depth_at(log) == partial::depth_at(run.states[1].log)
            &&& partial::shape_at(log) == partial::shape_at(run.states[1].log)
            &&& forall|i: usize| (#[trigger] partial::element_set_at(log, i)) == (i < n)
        },
    decreases n,
{
    if n > 0 {
        let m = n - 1;
        lemma_elements(run, start, r, input, len, item, scalars, ops, m);
        if !(r is Err) {
            let k = 1 + 2 * m;
            let log = run.states[k].log;
            let index = m as usize;
            let begin = partial::done(Op::BeginNthField(index));
            let filled = log.push(begin).push(partial::done(ops[m]));
            let below = run.states[k].runner.stack.drop_last();
            let next = Instruction::ListItemOrListClose;
            let end = Instruction::Pop(PopReason::ListVal);
            assert(run.carried_out(k));
            assert(answers_with(run.answers[1 + 2 * m], Outcome::Scalar(scalars[m])));
            assert(stored(item, scalars[m]) == Some(ops[m]));
            lemma_parsed_before(run, start, k + 1);
            lemma_element_read(run, start, k, len, item, index, scalars[m], ops[m]);
            if run.step(k).effect is Fail {
                lemma_stops(run, start, r, k);
            } else {
                lemma_goes_on(run, start, r, k);
                lemma_effect_of_two(log, begin, partial::done(ops[m]));
                assert(below.push(next).push(end).drop_last() =~= below.push(next));
                assert(filled.drop_last() =~= log.push(begin));
                assert(partial::field_filled(log, index, filled));
                assert(partial::fills_a_field(filled));
                lemma_end_step(run, start, k + 1, PopReason::ListVal);
                lemma_goes_on(run, start, r, k + 1);
                assert(run.states[k].runner.stack =~= below.push(next));
            }
        }
    }
}

/// An array that is given fewer items than it has elements is refused.
pub proof fn an_array_of_too_few_items_is_refused<'input, 'facet>(
    run: Run<'input>,
    input: Seq<u8>,
    source: Seq<char>,
    shape: &'static Shape,
    len: usize,
    item: &'static Shape,
    scalars: Seq<Scalar<'input>>,
    ops: Seq<Op>,
    r: Result<Progress<'input, 'facet>, DeserError<'input>>,
)
    requires
        is_allocated(shape),
        run.carried_out_from(fresh(input, source, shape)),
        run.comes_to(r),
        is_bare(shape),
        shape::def_info(shape) == (DefInfo::Array { len, item }),
        fit_items(item, scalars, ops),
        scalars.len() < len,
        answers_with_list(run, input, scalars),
        all_parsed(run.states.last().log),
    ensures
        r is Err,
{
    let start = fresh(input, source, shape);
    let log = start.log;
    let top = Instruction::Pop(PopReason::TopLevel);
    let next = Instruction::ListItemOrListClose;
    assert(run.carried_out(0));
    assert(start.runner.stack.drop_last() =~= seq![top]);
    assert(Seq::<usize>::empty().push(0) =~= seq![0usize]);
    assert(run.step(0).effect is Continue && run.states[1].log == log && run.states[1].runner.stack
        == seq![top].push(next) && run.states[1].runner.array_indices == seq![0usize]) by {
        reveal(driver::step);
        assert(value::next_wrap(log, false) is None);
    }
    lemma_goes_on(run, start, r, 0);
    lemma_elements(run, start, r, input, len, item, scalars, ops, ops.len() as int);
    if !(r is Err) {
        let k = 1 + 2 * ops.len() as int;
        let full = run.states[k].log;
        assert(run.carried_out(k));
        assert(seq![top].push(next).drop_last() =~= seq![top]);
        assert(run.step(k).effect is Continue && run.states[k + 1].log == full
            && run.states[k + 1].runner.stack == seq![top]) by {
            reveal(driver::step);
        }
        lemma_goes_on(run, start, r, k);
        assert(run.carried_out(k + 1));
        let record = run.states[k + 2].log;
        let reason = PopReason::TopLevel;
        assert(!(run.step(k + 1).effect is Continue) && !(run.step(k + 1).effect is Float)) by {
            reveal(driver::step);
        }
        if run.step(k + 1).effect is Finish {
            assert(record == full.push(partial::done(Op::Build))) by {
                reveal(driver::step);
                assert(pop::pop_attempt(full, reason, run.defaults[k + 1], record)
                    == Attempt::begin(full));
                assert(driver::frames_ended(full, record) == Attempt::begin(full));
            }
            lemma_effect_of_one(full, partial::done(Op::Build));
            assert(partial::element_set_at(full, ops.len() as usize));
        } else {
            lemma_stops(run, start, r, k + 1);
        }
    }
}

/// Whether, by the calls `log`, field `index` takes what the call `op` stores.
pub open spec fn stores(log: Seq<Call>, index: usize, op: Op) -> bool {
    exists|at: int| #[trigger]
        stores_at(log, at, index, op)
}

/// Whether, by the calls `log` from number `at` on, field `index` takes what the call `op` stores.
pub open spec fn stores_at(log: Seq<Call>, at: int, index: usize, op: Op) -> bool {
    &&& 0 <= at && at + 2 < log.len()
    &&& log[at] == partial::done(Op::BeginNthField(index))
    &&& log[at + 1] == partial::done(op)
    &&& log[at + 2] == partial::done(Op::End)
}

/// Each reading is three calls.
pub(crate) proof fn lemma_reading_calls(readings: Seq<Reading>)
    ensures
        reading_calls(readings).len() == 3 * readings.len(),
        forall|j: int|
            0 <= j < readings.len() ==> {
                &&& reading_calls(readings)[3 * j] == partial::done(
                    Op::BeginNthField((#[trigger] readings[j]).index),
                )
                &&& reading_calls(readings)[3 * j + 1] == partial::done(readings[j].op)
                &&& reading_calls(readings)[3 * j + 2] == partial::done(Op::End)
            },
    decreases readings.len(),
{
    if readings.len() > 0 {
        let shorter = readings.drop_last();
        lemma_reading_calls(shorter);
        assert forall|j: int| 0 <= j < readings.len() implies {
            &&& reading_calls(readings)[3 * j] == partial::done(
                Op::BeginNthField((#[trigger] readings[j]).index),
            )
            &&& reading_calls(readings)[3 * j + 1] == partial::done(readings[j].op)
            &&& reading_calls(readings)[3 * j + 2] == partial::done(Op::End)
        } by {
            if j < shorter.len() {
                assert(shorter[j] == readings[j]);
            }
        }
    }
}

/// Whether, by the calls `log`, field `index` takes its default.
pub open spec fn defaults(log: Seq<Call>, index: usize) -> bool {
    exists|at: int|
        0 <= at < log.len() && #[trigger] log[at] == partial::done(Op::SetNthFieldToDefault(index))
}

/// Defaults are given by their calls, and only fields that were not read take one.
proof fn lemma_fill_calls(shape: &'static Shape, readings: Seq<Reading>, index: int)
    requires
        0 <= index,
        struct_fields(shape).len() <= usize::MAX,
    ensures
        forall|k: int|
            0 <= k < fill_calls(shape, readings, index).len() ==> (#[trigger] fill_calls(
                shape,
                readings,
                index,
            )[k]).op is SetNthFieldToDefault,
    decreases struct_fields(shape).len() - index,
{
    if index < struct_fields(shape).len() {
        lemma_fill_calls(shape, readings, index + 1);
    }
}

/// Where the same fields are read the same fields take their defaults.
proof fn lemma_same_fills(
    shape: &'static Shape,
    one: Seq<Reading>,
    other: Seq<Reading>,
    index: int,
)
    requires
        0 <= index,
        struct_fields(shape).len() <= usize::MAX,
        forall|i: usize|
            i < struct_fields(shape).len() ==> #[trigger] is_read(one, i) == is_read(other, i),
    ensures
        fill_calls(shape, one, index) == fill_calls(shape, other, index),
    decreases struct_fields(shape).len() - index,
{
    if index < struct_fields(shape).len() {
        assert(is_read(one, index as usize) == is_read(other, index as usize));
        lemma_same_fills(shape, one, other, index + 1);
    }
}

/// The calls that a struct is built from.
pub open spec fn struct_calls(shape: &'static Shape, readings: Seq<Reading>) -> Seq<Call> {
    seq![partial::done(Op::AllocShape(shape))] + reading_calls(readings) + fill_calls(
        shape,
        readings,
        0,
    )
}

/// What a struct that is built from readings stores is what was read.
proof fn lemma_what_is_stored(shape: &'static Shape, readings: Seq<Reading>, index: usize, op: Op)
    requires
        struct_fields(shape).len() <= usize::MAX,
        forall|j: int|
            0 <= j < readings.len() ==> partial::fills_frame((#[trigger] readings[j]).op),
    ensures
        stores(struct_calls(shape, readings), index, op) <==> exists|j: int|
            0 <= j < readings.len() && (#[trigger] readings[j]).index == index && readings[j].op
                == op,
{
    let log = struct_calls(shape, readings);
    let fills = fill_calls(shape, readings, 0);
    lemma_reading_calls(readings);
    lemma_fill_calls(shape, readings, 0);
    if stores(log, index, op) {
        let at = choose|at: int| #[trigger] stores_at(log, at, index, op);
        assert(at > 0);
        if at >= 1 + 3 * readings.len() {
            assert(log[at] == fills[at - 1 - 3 * readings.len()]);
        }
        let j = (at - 1) / 3;
        let c = (at - 1) % 3;
        assert(0 <= j < readings.len());
        let reading = readings[j];
        assert(partial::fills_frame(reading.op));
        assert(log[at] == reading_calls(readings)[3 * j + c]);
        assert(c == 0);
        assert(log[at + 1] == reading_calls(readings)[3 * j + 1]);
        assert(reading.index == index && reading.op == op);
    }
    if exists|j: int|
        0 <= j < readings.len() && (#[trigger] readings[j]).index == index && readings[j].op == op {
        let j = choose|j: int|
            0 <= j < readings.len() && (#[trigger] readings[j]).index == index && readings[j].op
                == op;
        let at = 1 + 3 * j;
        assert(log[at] == reading_calls(readings)[3 * j]);
        assert(log[at + 1] == reading_calls(readings)[3 * j + 1]);
        assert(log[at + 2] == reading_calls(readings)[3 * j + 2]);
        assert(stores_at(log, at, index, op));
    }
}

/// The fields of a struct that is built from readings that take their defaults are those of the
/// calls that give one.
proof fn lemma_what_is_defaulted(shape: &'static Shape, readings: Seq<Reading>, index: usize)
    requires
        struct_fields(shape).len() <= usize::MAX,
        forall|j: int|
            0 <= j < readings.len() ==> partial::fills_frame((#[trigger] readings[j]).op),
    ensures
        defaults(struct_calls(shape, readings), index) <==> defaults(
            fill_calls(shape, readings, 0),
            index,
        ),
{
    let log = struct_calls(shape, readings);
    let fills = fill_calls(shape, readings, 0);
    let call = partial::done(Op::SetNthFieldToDefault(index));
    let n = 1 + 3 * readings.len();
    lemma_reading_calls(readings);
    if defaults(log, index) {
        let at = choose|at: int| 0 <= at < log.len() && #[trigger] log[at] == call;
        if at < n {
            assert(at > 0);
            let j = (at - 1) / 3;
            let c = (at - 1) % 3;
            assert(0 <= j < readings.len());
            assert(partial::fills_frame(readings[j].op));
            assert(log[at] == reading_calls(readings)[3 * j + c]);
        }
        assert(fills[at - n] == call);
    }
    if defaults(fills, index) {
        let at = choose|at: int| 0 <= at < fills.len() && #[trigger] fills[at] == call;
        assert(log[at + n] == call);
    }
}

/// Whether each of the keys `keys`, with its scalar, is also one of `others`.
#[verifier::opaque]
pub open spec fn pairs_among<'input>(
    keys: Seq<Seq<char>>,
    scalars: Seq<Scalar<'input>>,
    other_keys: Seq<Seq<char>>,
    other_scalars: Seq<Scalar<'input>>,
) -> bool {
    forall|i: int|
        0 <= i < keys.len() ==> exists|j: int|
            0 <= j < other_keys.len() && #[trigger] other_keys[j] == #[trigger] keys[i]
                && other_scalars[j] == scalars[i]
}

/// The same pair is stored the same way.
proof fn lemma_same_readings<'input>(
    shape: &'static Shape,
    keys: Seq<Seq<char>>,
    scalars: Seq<Scalar<'input>>,
    readings: Seq<Reading>,
    other_keys: Seq<Seq<char>>,
    other_scalars: Seq<Scalar<'input>>,
    other_readings: Seq<Reading>,
    i: int,
)
    requires
        fits_struct(shape, keys, scalars, readings),
        fits_struct(shape, other_keys, other_scalars, other_readings),
        pairs_among(keys, scalars, other_keys, other_scalars),
        0 <= i < readings.len(),
    ensures
        exists|j: int|
            0 <= j < other_readings.len() && (#[trigger] other_readings[j]).index
                == readings[i].index && other_readings[j].op == readings[i].op,
{
    reveal(pairs_among);
    let key = keys[i];
    let j = choose|j: int|
        0 <= j < other_keys.len() && #[trigger] other_keys[j] == key && other_scalars[j]
            == scalars[i];
    assert(fits_field(shape, keys[i], scalars[i], readings[i]));
    assert(fits_field(shape, other_keys[j], other_scalars[j], other_readings[j]));
}

/// The scalars that are read for a struct are stored by calls that give a field its value.
proof fn lemma_readings_fill(
    shape: &'static Shape,
    keys: Seq<Seq<char>>,
    scalars: Seq<Scalar<'_>>,
    readings: Seq<Reading>,
)
    requires
        fits_struct(shape, keys, scalars, readings),
    ensures
        forall|j: int|
            0 <= j < readings.len() ==> partial::fills_frame((#[trigger] readings[j]).op),
{
    assert forall|j: int| 0 <= j < readings.len() implies partial::fills_frame(
        (#[trigger] readings[j]).op,
    ) by {
        assert(fits_field(shape, keys[j], scalars[j], readings[j]));
    }
}

/// Whether by the calls `one` and by the calls `other` each field takes the same value, by the same
/// call, or its default.
pub open spec fn same_fields(one: Seq<Call>, other: Seq<Call>) -> bool {
    &&& forall|index: usize, op: Op|
        stores(one, index, op) <==> #[trigger] stores(other, index, op)
    &&& forall|index: usize| defaults(one, index) <==> #[trigger] defaults(other, index)
}

/// The order in which the keys of an object come does not matter: two documents that give the fields
/// of a struct the same scalars, in whatever order, are both read, and the two values are the same.
/// Each field takes the same value by the same call, or its default. (A type with invariants may
/// refuse a value.)
pub proof fn the_same_keys_in_another_order_give_the_same_value<'input, 'facet>(
    one: Run<'input>,
    other: Run<'input>,
    input: Seq<u8>,
    other_input: Seq<u8>,
    source: Seq<char>,
    other_source: Seq<char>,
    shape: &'static Shape,
    keys: Seq<Seq<char>>,
    scalars: Seq<Scalar<'input>>,
    readings: Seq<Reading>,
    other_keys: Seq<Seq<char>>,
    other_scalars: Seq<Scalar<'input>>,
    other_readings: Seq<Reading>,
    r: Result<Progress<'input, 'facet>, DeserError<'input>>,
    other_r: Result<Progress<'input, 'facet>, DeserError<'input>>,
)
    requires
        is_allocated(shape),
        is_unwrapped(shape),
        !(shape::def_info(shape) is Mapping),
        struct_fields(shape).len() > 0,
        !shape::has_invariants(shape),
        one.carried_out_from(fresh(input, source, shape)),
        one.comes_to(r),
        answers_with_object(one, input, keys, scalars),
        fits_struct(shape, keys, scalars, readings),
        all_parsed(one.states.last().log),
        other.carried_out_from(fresh(other_input, other_source, shape)),
        other.comes_to(other_r),
        answers_with_object(other, other_input, other_keys, other_scalars),
        fits_struct(shape, other_keys, other_scalars, other_readings),
        all_parsed(other.states.last().log),
        forall|i: usize|
            i < struct_fields(shape).len() ==> #[trigger] is_read(readings, i) || has_default(
                struct_fields(shape)[i as int],
            ),
        pairs_among(keys, scalars, other_keys, other_scalars),
        pairs_among(other_keys, other_scalars, keys, scalars),
    ensures
        r matches Ok(Progress::Done(value)) && (other_r matches Ok(Progress::Done(other_value))
            && same_fields(partial::built_from(value), partial::built_from(other_value))),
{
    assert forall|i: usize| i < struct_fields(shape).len() implies #[trigger] is_read(readings, i)
        == is_read(other_readings, i) by {
        if is_read(readings, i) {
            let j = choose|j: int| 0 <= j < readings.len() && (#[trigger] readings[j]).index == i;
            lemma_same_readings(
                shape,
                keys,
                scalars,
                readings,
                other_keys,
                other_scalars,
                other_readings,
                j,
            );
        }
        if is_read(other_readings, i) {
            let j = choose|j: int|
                0 <= j < other_readings.len() && (#[trigger] other_readings[j]).index == i;
            lemma_same_readings(
                shape,
                other_keys,
                other_scalars,
                other_readings,
                keys,
                scalars,
                readings,
                j,
            );
        }
    }
    assert forall|i: usize| i < struct_fields(shape).len() implies #[trigger] is_read(
        other_readings,
        i,
    ) || has_default(struct_fields(shape)[i as int]) by {
        assert(is_read(readings, i) == is_read(other_readings, i));
    }
    an_object_of_scalars_is_read(one, input, source, shape, keys, scalars, readings, r);
    an_object_of_scalars_is_read(
        other,
        other_input,
        other_source,
        shape,
        other_keys,
        other_scalars,
        other_readings,
        other_r,
    );
    lemma_same_fields(
        shape,
        keys,
        scalars,
        readings,
        other_keys,
        other_scalars,
        other_readings,
    );
}

/// Structs that are built from the same readings have the same fields.
proof fn lemma_same_fields<'input>(
    shape: &'static Shape,
    keys: Seq<Seq<char>>,
    scalars: Seq<Scalar<'input>>,
    readings: Seq<Reading>,
    other_keys: Seq<Seq<char>>,
    other_scalars: Seq<Scalar<'input>>,
    other_readings: Seq<Reading>,
)
    requires
        fits_struct(shape, keys, scalars, readings),
        fits_struct(shape, other_keys, other_scalars, other_readings),
        pairs_among(keys, scalars, other_keys, other_scalars),
        pairs_among(other_keys, other_scalars, keys, scalars),
        forall|i: usize|
            i < struct_fields(shape).len() ==> #[trigger] is_read(readings, i) == is_read(
                other_readings,
                i,
            ),
    ensures
        same_fields(struct_calls(shape, readings), struct_calls(shape, other_readings)),
{
    lemma_readings_fill(shape, keys, scalars, readings);
    lemma_readings_fill(shape, other_keys, other_scalars, other_readings);
    let one = struct_calls(shape, readings);
    let other = struct_calls(shape, other_readings);
    assert forall|index: usize, op: Op|
        stores(one, index, op) <==> #[trigger] stores(other, index, op) by {
        lemma_what_is_stored(shape, readings, index, op);
        lemma_what_is_stored(shape, other_readings, index, op);
        if stores(one, index, op) {
            let j = choose|j: int|
                0 <= j < readings.len() && (#[trigger] readings[j]).index == index
                    && readings[j].op == op;
            lemma_same_readings(
                shape,
                keys,
                scalars,
                readings,
                other_keys,
                other_scalars,
                other_readings,
                j,
            );
        }
        if stores(other, index, op) {
            let j = choose|j: int|
                0 <= j < other_readings.len() && (#[trigger] other_readings[j]).index == index
                    && other_readings[j].op == op;
            lemma_same_readings(
                shape,
                other_keys,
                other_scalars,
                other_readings,
                keys,
                scalars,
                readings,
                j,
            );
        }
    }
    lemma_same_fills(shape, readings, other_readings, 0);
    assert forall|index: usize| defaults(one, index) <==> #[trigger] defaults(other, index) by {
        lemma_what_is_defaulted(shape, readings, index);
        lemma_what_is_defaulted(shape, other_readings, index);
    }
}

/// An array with an element missing is never ended: neither is a value finished with it, nor does
/// the run go on behind it.
pub proof fn an_array_with_an_element_missing_is_refused(
    run: Run<'_>,
    start: State,
    k: int,
    reason: PopReason,
    len: usize,
    index: usize,
)
    requires
        run.carried_out_from(start),
        0 <= k < run.answers.len(),
        run.states[k].runner.stack.last() == Instruction::Pop(reason),
        ({
            let ended = if reason is TopLevel {
                run.states[k + 1].log.drop_last()
            } else {
                pop::pop_attempt(
                    run.states[k].log,
                    reason,
                    run.defaults[k],
                    run.states[k + 1].log,
                ).log
            };
            &&& shape::def_info(partial::shape_at(ended)) matches DefInfo::Array { len: n, .. }
            &&& n == len
            &&& index < len
            &&& !partial::element_set_at(ended, index)
        }),
    ensures
        run.step(k).effect is Fail,
{
    reveal(driver::step);
    assert(run.carried_out(k));
    let log = run.states[k].log;
    let record = run.states[k + 1].log;
    let settled = pop::pop_attempt(log, reason, run.defaults[k], record);
    if !(run.step(k).effect is Fail) {
        let ended = if reason is TopLevel {
            record.drop_last()
        } else {
            settled.log
        };
        assert(record == ended.push(record.last()));
        lemma_ended_extends(log, reason, run.defaults[k], record);
        assert(record[ended.len() as int] == record.last());
        lemma_effect_at(ended, record, log);
    }
}

/// Ending a frame adds to the calls.
proof fn lemma_ended_extends(
    log: Seq<Call>,
    reason: PopReason,
    default: DefaultView,
    record: Seq<Call>,
)
    ensures
        ({
            let settled = pop::pop_attempt(log, reason, default, record).log;
            &&& log.len() <= settled.len()
            &&& settled.len() <= driver::frames_ended(settled, record).log.len()
        }),
{
    let settled = pop::pop_attempt(log, reason, default, record).log;
    lemma_frames_ended_extend(settled, record);
    let fields = partial::frame_fields(log);
    lemma_filling_extends(fields, false, 0, log, false, record);
    lemma_filling_extends(fields, true, 0, log, false, record);
    let made = pop::completed(log, reason, record).attempt.log;
    assert(log.len() <= made.len());
    lemma_default_taken_extends(
        made,
        partial::default_calls(partial::shape_at(log)),
        default,
        record,
    );
}

/// Filling in defaults adds to the calls.
proof fn lemma_filling_extends(
    fields: Seq<Field>,
    in_variant: bool,
    index: int,
    log: Seq<Call>,
    missing: bool,
    record: Seq<Call>,
)
    ensures
        log.len() <= pop::defaults_filled(
            fields,
            in_variant,
            index,
            log,
            missing,
            record,
        ).attempt.log.len(),
    decreases fields.len() - index,
{
    if 0 <= index < fields.len() {
        match partial::field_set_at(log, index as usize) {
            Err(_) => {},
            Ok(true) => {
                lemma_filling_extends(fields, in_variant, index + 1, log, missing, record);
            },
            Ok(false) => {
                let given = if in_variant {
                    pop::variant_field_default(log, index as usize, fields[index], record)
                } else {
                    pop::struct_field_default(log, index as usize, record)
                };
                assert(log.len() <= given.log.len());
                lemma_filling_extends(fields, in_variant, index + 1, given.log, missing, record);
                lemma_filling_extends(fields, in_variant, index + 1, log, true, record);
            },
        }
    }
}

} // verus!
