//! What comes of whole documents: options, maps, enums, arrays and tuples of scalars.
use crate::driver::{self, Answer, Progress, Run, State, Step};
use crate::error::DeserError;
use crate::instruction::{Instruction, PopReason, ValueReason};
use crate::laws;
use crate::operation_laws::{
    self, begins_with, first_named, first_variant_named, makes, no_variant_named, on_reading,
};
use crate::partial::{self, Call, Op, TextView};
use crate::pop::{self, DefaultView};
use crate::reading_laws::{
    self, a_call_failed, all_parsed, answers_with, answers_with_key, fresh, is_allocated, is_bare,
    reaches, stored, Reading,
};
use crate::runner::{self, Attempt, RunnerView};
use crate::scalar::{Outcome, Scalar};
use crate::shape::{self, DefInfo, TypeInfo};
use crate::span::Span;
use crate::value;
use facet_core::{Field, Shape, Variant};
use facet_reflect::ReflectError;
use vstd::prelude::*;

verus! {

/// The calls `ops`, all without an error.
pub open spec fn all_done(ops: Seq<Op>) -> Seq<Call> {
    Seq::new(ops.len(), |i: int| partial::done(ops[i]))
}

/// Whether the value of the last frame is a bare one that takes what the call `op` stores for
/// `scalar`.
pub open spec fn stores_here(log: Seq<Call>, scalar: Scalar<'_>, op: Op) -> bool {
    &&& is_bare(partial::shape_at(log))
    &&& partial::parent_field_at(log) matches Some(field) ==> !shape::has_custom(field)
    &&& stored(partial::shape_at(log), scalar) == Some(op)
}

/// A step that makes calls, and is no error, adds just these.
proof fn lemma_made(step: Step, log: Seq<Call>, ops: Seq<Op>)
    requires
        makes(step, log, ops),
    ensures
        !(step.effect is Fail) ==> step.state.log == log + all_done(ops),
        step.effect is Fail ==> step.state.log.len() > 0 && step.state.log.last().err is Some,
{
    let made = step.state.log;
    if !(step.effect is Fail) {
        assert forall|i: int| 0 <= i < made.len() implies made[i] == (log + all_done(ops))[i] by {
            if i >= log.len() {
                let j = i - log.len();
                assert(made[log.len() + j].op == ops[j]);
                if j < ops.len() - 1 {
                    assert(made[log.len() + j].err is None);
                }
            }
        }
        assert(made =~= log + all_done(ops));
    }
}

/// A step of a run that reads is what comes of the reading.
proof fn lemma_read(run: Run<'_>, start: State, k: int)
    requires
        run.carried_out_from(start),
        0 <= k < run.answers.len(),
        run.answers[k] matches Answer::Read(Ok(_)),
    ensures
        run.answers[k] matches Answer::Read(Ok(read)) && {
            let step = on_reading(
                run.states[k],
                read.node,
                read.span,
                run.defaults[k],
                run.states[k + 1].log,
            );
            &&& run.step(k) == step
            &&& step.state == run.states[k + 1]
            &&& step.state.runner.last_span == read.span
        },
        run.states[k].runner.stack.len() > 0,
        partial::effective(run.states[k + 1].log, run.states[k].log),
        runner::extends(run.states[k + 1].log, run.states[k].log),
{
    assert(run.carried_out(k));
    laws::errors_are_where_the_format_last_answered(
        run.states[k],
        run.answers[k],
        run.defaults[k],
        run.states[k + 1].log,
    );
}

/// The value as a whole, of which nothing is missing, is built, unless that fails.
proof fn lemma_built<'input, 'facet>(
    run: Run<'input>,
    start: State,
    r: Result<Progress<'input, 'facet>, DeserError<'input>>,
    k: int,
)
    requires
        run.carried_out_from(start),
        run.comes_to(r),
        0 <= k < run.answers.len(),
        run.states[k].runner.stack == seq![Instruction::Pop(PopReason::TopLevel)],
        partial::depth_at(run.states[k].log) == 1,
        pop::pop_attempt(
            run.states[k].log,
            PopReason::TopLevel,
            run.defaults[k],
            run.states[k + 1].log,
        ) == Attempt::begin(run.states[k].log),
        !driver::input_left(run.states[k].runner),
    ensures
        run.answers.len() == k + 1,
        a_call_failed(run, r) || (r matches Ok(Progress::Done(value)) && partial::built_from(value)
            == run.states[k].log),
{
    let log = run.states[k].log;
    let record = run.states[k + 1].log;
    assert(run.carried_out(k));
    assert(!(run.step(k).effect is Continue) && !(run.step(k).effect is Float) && record.len()
        == log.len() + 1 && record.drop_last() == log && (run.step(k).effect is Fail
        ==> record.last().err is Some)) by {
        reveal(driver::step);
        assert(driver::frames_ended(log, record) == Attempt::begin(log));
        assert(record.drop_last() =~= log);
    }
    if k + 1 < run.answers.len() {
        assert(run.step(k).effect is Continue);
    }
}

/// A scalar is stored where a value is due, and the frame is ended.
proof fn lemma_value_then_end<'input, 'facet>(
    run: Run<'input>,
    start: State,
    r: Result<Progress<'input, 'facet>, DeserError<'input>>,
    k: int,
    below: Seq<Instruction>,
    scalar: Scalar<'input>,
    op: Op,
)
    requires
        run.carried_out_from(start),
        run.comes_to(r),
        0 <= k < run.answers.len(),
        k + 2 < u64::MAX,
        run.states[k].runner.stack == below.push(Instruction::Pop(PopReason::ObjectVal)).push(
            Instruction::Value(ValueReason::ObjectVal),
        ),
        partial::active(run.states[k].log),
        partial::depth_at(run.states[k].log) > 1,
        stores_here(run.states[k].log, scalar, op),
        answers_with(run.answers[k], Outcome::Scalar(scalar)),
        all_parsed(run.states.last().log),
    ensures
        a_call_failed(run, r) || {
            let log = run.states[k].log;
            let filled = log.push(partial::done(op));
            let after = run.states[k + 2];
            &&& k + 2 < run.answers.len()
            &&& after.log == filled.push(partial::done(Op::End))
            &&& after.runner == (RunnerView {
                stack: below,
                last_span: after.runner.last_span,
                ..run.states[k].runner
            })
            &&& partial::fills_frame(op)
            &&& partial::frame_ended(filled, after.log)
            &&& partial::depth_at(after.log) == partial::depth_at(log) - 1
        },
{
    let log = run.states[k].log;
    let end = Instruction::Pop(PopReason::ObjectVal);
    assert(run.carried_out(k));
    reading_laws::lemma_parsed_before(run, start, k + 1);
    reading_laws::lemma_value_step(run, start, k, scalar, op);
    if run.step(k).effect is Fail {
        reading_laws::lemma_stops(run, start, r, k);
    } else {
        reading_laws::lemma_goes_on(run, start, r, k);
        assert(run.states[k].runner.stack.drop_last() =~= below.push(end));
        assert(below.push(end).drop_last() =~= below);
        reading_laws::lemma_end_step(run, start, k + 1, PopReason::ObjectVal);
        if run.step(k + 1).effect is Fail {
            reading_laws::lemma_stops(run, start, r, k + 1);
            reading_laws::lemma_failed_end(run, start, k + 1, PopReason::ObjectVal);
        } else {
            reading_laws::lemma_goes_on(run, start, r, k + 1);
        }
    }
}

// ---------------------------------------------------------------------------------------------
// Options

/// A scalar that is no null is read into an option: the value is built from a `Some` that is begun,
/// the one call that stores the scalar in it, and its end, unless a call fails. It is never set to
/// its default. The format is asked once.
///
/// The type of what is in the `Some` is `inner`, and what is ended again is the option.
pub proof fn a_scalar_is_read_into_an_option<'input, 'facet>(
    run: Run<'input>,
    input: Seq<u8>,
    source: Seq<char>,
    shape: &'static Shape,
    inner: &'static Shape,
    scalar: Scalar<'input>,
    op: Op,
    r: Result<Progress<'input, 'facet>, DeserError<'input>>,
)
    requires
        is_allocated(shape),
        run.carried_out_from(fresh(input, source, shape)),
        run.comes_to(r),
        shape::def_info(shape) is Optional,
        !(shape::type_info(shape) is Struct),
        !(scalar is Null),
        partial::field_set_at(all_done(seq![Op::AllocShape(shape)]), 1) != Ok::<bool, ReflectError>(
            true,
        ),
        ({
            let begun = all_done(seq![Op::AllocShape(shape), Op::BeginSome]);
            let ended = all_done(seq![Op::AllocShape(shape), Op::BeginSome, op, Op::End]);
            &&& partial::shape_at(begun) == inner
            &&& stores_here(begun, scalar, op)
            &&& partial::shape_at(ended) == shape
            &&& shape::type_info(shape) is Enum ==> partial::variant_at(ended) is None
                && !shape::default_attr(shape)
        }),
        answers_with(run.answers[0], Outcome::Scalar(scalar)),
        reaches(run.answers[0], input.len()),
        all_parsed(run.states.last().log),
    ensures
        a_call_failed(run, r) || {
            &&& r matches Ok(Progress::Done(value)) && partial::built_from(value) == all_done(
                seq![Op::AllocShape(shape), Op::BeginSome, op, Op::End],
            )
            &&& run.answers.len() == 3
        },
{
    let start = fresh(input, source, shape);
    let log = start.log;
    let record = run.states[1].log;
    let top = Instruction::Pop(PopReason::TopLevel);
    let end = Instruction::Pop(PopReason::OptionSome);
    let due = Instruction::Value(ValueReason::ObjectVal);
    let begun = log.push(partial::done(Op::BeginSome));
    assert(log =~= all_done(seq![Op::AllocShape(shape)]));
    assert(begun =~= all_done(seq![Op::AllocShape(shape), Op::BeginSome]));
    assert(start.runner.stack.drop_last() =~= seq![top]);
    assert(run.carried_out(0));
    lemma_read(run, start, 0);
    let read = run.answers[0]->Read_0->Ok_0;
    let default = run.defaults[0];
    operation_laws::what_stands_round_a_value_is_entered(
        start,
        read.node,
        read.span,
        default,
        record,
    );
    if record[1].err is Some {
        reading_laws::lemma_stops(run, start, r, 0);
    } else {
        operation_laws::what_is_inside_is_read_as_if_it_was_due_there(
            start,
            read.node,
            read.span,
            default,
            record,
            Op::BeginSome,
            PopReason::OptionSome,
        );
        let inside = State {
            runner: RunnerView { stack: seq![top].push(end).push(due), ..start.runner },
            log: begun,
        };
        assert(run.step(0) == on_reading(inside, read.node, read.span, default, record));
        reading_laws::lemma_parsed_before(run, start, 1);
        lemma_stored_inside(inside, seq![top].push(end), read.span, scalar, op, default, record);
        if run.step(0).effect is Fail {
            reading_laws::lemma_stops(run, start, r, 0);
        } else {
            reading_laws::lemma_goes_on(run, start, r, 0);
            reading_laws::lemma_effect_of_two(
                log,
                partial::done(Op::BeginSome),
                partial::done(op),
            );
            reading_laws::lemma_end_step(run, start, 1, PopReason::OptionSome);
            assert(seq![top].push(end).drop_last() =~= seq![top]);
            if run.step(1).effect is Fail {
                reading_laws::lemma_stops(run, start, r, 1);
                reading_laws::lemma_failed_end(run, start, 1, PopReason::OptionSome);
            } else {
                reading_laws::lemma_goes_on(run, start, r, 1);
                let ended = run.states[2].log;
                assert(ended =~= all_done(
                    seq![Op::AllocShape(shape), Op::BeginSome, op, Op::End],
                ));
                lemma_built(run, start, r, 2);
            }
        }
    }
}

/// What comes of a scalar that is read for a bare value.
proof fn lemma_stored_inside(
    state: State,
    below: Seq<Instruction>,
    span: Span,
    scalar: Scalar<'_>,
    op: Op,
    default: DefaultView,
    record: Seq<Call>,
)
    requires
        state.runner.stack == below.push(Instruction::Value(ValueReason::ObjectVal)),
        partial::active(state.log),
        stores_here(state.log, scalar, op),
        on_reading(state, Outcome::Scalar(scalar), span, default, record).state.log == record,
        all_parsed(record),
    ensures
        ({
            let step = on_reading(state, Outcome::Scalar(scalar), span, default, record);
            &&& step.effect is Fail || step.effect is Continue
            &&& step.effect is Fail ==> record.len() > 0 && record.last().err is Some
            &&& step.effect is Continue ==> record == state.log.push(partial::done(op))
            &&& step.state.runner == (RunnerView { stack: below, last_span: span, ..state.runner })
            &&& partial::fills_frame(op)
        }),
{
    reveal(driver::step);
    assert(state.runner.stack.drop_last() =~= below);
    let seen = RunnerView { stack: below, last_span: span, ..state.runner };
    let turn = value::value_turn(seen, state.log, Outcome::Scalar(scalar), record);
    assert(turn.log == record);
    if op is ParseFromStr {
        reading_laws::lemma_parse_recorded(seen, state.log, scalar, op, record);
    }
    reading_laws::lemma_stored(seen, state.log, scalar, op, record);
}

// ---------------------------------------------------------------------------------------------
// Maps

/// The calls by which a map takes the key `key`, as it was read.
pub open spec fn key_ops(key: Seq<char>) -> Seq<Op> {
    seq![Op::BeginKey, Op::SetText(TextView::Owned(key)), Op::End, Op::BeginValue]
}

/// The calls by which a map takes the keys `keys`, each with what the call of the same number of `ops`
/// stores, in that order.
pub open spec fn pair_ops(keys: Seq<Seq<char>>, ops: Seq<Op>) -> Seq<Op>
    decreases keys.len(),
{
    if keys.len() == 0 {
        Seq::empty()
    } else {
        pair_ops(keys.drop_last(), ops.drop_last()) + key_ops(keys.last()) + seq![
            ops.last(),
            Op::End,
        ]
    }
}

/// The calls by which a map of the type `shape` takes its first `n` pairs.
pub open spec fn map_ops(
    shape: &'static Shape,
    keys: Seq<Seq<char>>,
    ops: Seq<Op>,
    n: int,
) -> Seq<Op> {
    seq![Op::AllocShape(shape), Op::BeginMap] + pair_ops(keys.take(n), ops.take(n))
}

/// Whether the scalars `scalars` are stored by the calls `ops` as the values of the keys `keys` of a
/// map of the type `shape`: the value of each key that was stored is a bare one, and where a value
/// ends it is the map that is there again.
pub open spec fn fits_map(
    shape: &'static Shape,
    keys: Seq<Seq<char>>,
    scalars: Seq<Scalar<'_>>,
    ops: Seq<Op>,
) -> bool {
    &&& is_bare(shape)
    &&& shape::def_info(shape) matches DefInfo::Mapping { key } && shape::inner_shape(key) is None
    &&& keys.len() == ops.len()
    &&& scalars.len() == ops.len()
    &&& ops.len() < 0x1000_0000_0000_0000
    &&& forall|n: int|
        0 <= n <= ops.len() ==> partial::shape_at(all_done(#[trigger] map_ops(shape, keys, ops, n)))
            == shape
    &&& forall|n: int|
        0 <= n < ops.len() ==> stores_here(
            all_done(#[trigger] map_ops(shape, keys, ops, n) + key_ops(keys[n])),
            scalars[n],
            ops[n],
        )
}

/// A key of a map leaves its value begun, in a frame more.
proof fn lemma_key_frames(log: Seq<Call>, record: Seq<Call>, key: Seq<char>)
    requires
        record == log + all_done(key_ops(key)),
        partial::effective(record, log),
        partial::depth_at(log) >= 1,
    ensures
        partial::depth_at(record) == partial::depth_at(log) + 1,
{
    reveal(partial::effective);
    let n = log.len() as int;
    let ops = key_ops(key);
    assert(record.take(n) =~= log);
    assert(record.take(n + 4) =~= record);
    assert(record[n] == partial::done(ops[0]));
    assert(record[n + 1] == partial::done(ops[1]));
    assert(record[n + 2] == partial::done(ops[2]));
    assert(record[n + 3] == partial::done(ops[3]));
    assert(partial::effect(record.take(n), record[n], record.take(n + 1)));
    assert(partial::effect(record.take(n + 1), record[n + 1], record.take(n + 2)));
    assert(partial::effect(record.take(n + 2), record[n + 2], record.take(n + 3)));
    assert(partial::effect(record.take(n + 3), record[n + 3], record.take(n + 4)));
}

/// The first `n` pairs of a map are stored one after the other, unless a call fails.
#[verifier::spinoff_prover]
#[verifier::rlimit(60)]
proof fn lemma_map_pairs<'input, 'facet>(
    run: Run<'input>,
    start: State,
    r: Result<Progress<'input, 'facet>, DeserError<'input>>,
    shape: &'static Shape,
    keys: Seq<Seq<char>>,
    scalars: Seq<Scalar<'input>>,
    ops: Seq<Op>,
    n: int,
)
    requires
        run.carried_out_from(start),
        run.comes_to(r),
        1 < run.answers.len(),
        fits_map(shape, keys, scalars, ops),
        reading_laws::answers_with_pairs(run, 1, keys, scalars),
        0 <= n <= ops.len(),
        run.states[1].runner.stack.last() is ObjectKeyOrObjectClose,
        run.states[1].log == all_done(map_ops(shape, keys, ops, 0)),
        partial::depth_at(run.states[1].log) == 1,
        all_parsed(run.states.last().log),
    ensures
        a_call_failed(run, r) || {
            let k = 1 + 3 * n;
            &&& k < run.answers.len()
            &&& run.states[k].log == all_done(map_ops(shape, keys, ops, n))
            &&& run.states[k].runner.stack == run.states[1].runner.stack
            &&& partial::depth_at(run.states[k].log) == 1
        },
    decreases n,
{
    if n > 0 {
        let m = n - 1;
        lemma_map_pairs(run, start, r, shape, keys, scalars, ops, m);
        if !a_call_failed(run, r) {
            let k = 1 + 3 * m;
            let log = run.states[k].log;
            let key = keys[m];
            let below = run.states[k].runner.stack.drop_last();
            let next = Instruction::ObjectKeyOrObjectClose;
            assert(partial::shape_at(all_done(map_ops(shape, keys, ops, m))) == shape);
            assert(answers_with_key(run.answers[1 + 3 * m], keys[m]));
            lemma_read(run, start, k);
            let read = run.answers[k]->Read_0->Ok_0;
            let name = read.node->Scalar_0->String_0;
            assert(read.node == operation_laws::key(name));
            operation_laws::a_key_of_a_map_is_stored_as_it_is(
                run.states[k],
                name,
                read.span,
                run.defaults[k],
                run.states[k + 1].log,
            );
            lemma_made(run.step(k), log, key_ops(key));
            if run.step(k).effect is Fail {
                reading_laws::lemma_stops(run, start, r, k);
            } else {
                reading_laws::lemma_goes_on(run, start, r, k);
                lemma_key_frames(log, run.states[k + 1].log, key);
                let begun = run.states[k + 1].log;
                assert(begun =~= all_done(map_ops(shape, keys, ops, m) + key_ops(key)));
                assert(begun.last() == all_done(key_ops(key))[3]);
                assert(answers_with(run.answers[1 + 3 * m + 1], Outcome::Scalar(scalars[m])));
                lemma_value_then_end(
                    run,
                    start,
                    r,
                    k + 1,
                    below.push(next),
                    scalars[m],
                    ops[m],
                );
                if !a_call_failed(run, r) {
                    assert(keys.take(n).drop_last() =~= keys.take(m));
                    assert(ops.take(n).drop_last() =~= ops.take(m));
                    assert(map_ops(shape, keys, ops, n) =~= map_ops(shape, keys, ops, m) + key_ops(
                        key,
                    ) + seq![ops[m], Op::End]);
                    assert(run.states[k + 3].log =~= all_done(map_ops(shape, keys, ops, n)));
                    assert(run.states[k].runner.stack =~= below.push(next));
                }
            }
        }
    }
}

/// An object of scalars is read into a map: the value is built from one group of calls for each pair,
/// in the order in which they were read, unless a call fails. Each stores the key as the very text
/// that was read, then its scalar.
pub proof fn an_object_of_scalars_is_read_into_a_map<'input, 'facet>(
    run: Run<'input>,
    input: Seq<u8>,
    source: Seq<char>,
    shape: &'static Shape,
    keys: Seq<Seq<char>>,
    scalars: Seq<Scalar<'input>>,
    ops: Seq<Op>,
    r: Result<Progress<'input, 'facet>, DeserError<'input>>,
)
    requires
        is_allocated(shape),
        run.carried_out_from(fresh(input, source, shape)),
        run.comes_to(r),
        fits_map(shape, keys, scalars, ops),
        reading_laws::answers_with_object(run, input, keys, scalars),
        all_parsed(run.states.last().log),
    ensures
        a_call_failed(run, r) || {
            &&& r matches Ok(Progress::Done(value)) && partial::built_from(value) == all_done(
                seq![Op::AllocShape(shape), Op::BeginMap] + pair_ops(keys, ops),
            )
            &&& run.answers.len() == 3 * keys.len() + 3
        },
{
    let start = fresh(input, source, shape);
    let log = start.log;
    let top = Instruction::Pop(PopReason::TopLevel);
    let next = Instruction::ObjectKeyOrObjectClose;
    assert(run.carried_out(0));
    assert(start.runner.stack.drop_last() =~= seq![top]);
    lemma_read(run, start, 0);
    let read = run.answers[0]->Read_0->Ok_0;
    operation_laws::the_start_of_an_object(start, read.span, run.defaults[0], run.states[1].log);
    lemma_made(run.step(0), log, seq![Op::BeginMap]);
    if run.step(0).effect is Fail {
        reading_laws::lemma_stops(run, start, r, 0);
    } else {
        reading_laws::lemma_goes_on(run, start, r, 0);
        assert(keys.take(0) =~= Seq::empty());
        assert(run.states[1].log =~= log.push(partial::done(Op::BeginMap)));
        reading_laws::lemma_effect_of_one(log, partial::done(Op::BeginMap));
        assert(run.states[1].log =~= all_done(map_ops(shape, keys, ops, 0)));
        lemma_map_pairs(run, start, r, shape, keys, scalars, ops, ops.len() as int);
        if !a_call_failed(run, r) {
            let n = ops.len() as int;
            let k = 1 + 3 * n;
            assert(keys.take(n) =~= keys);
            assert(ops.take(n) =~= ops);
            assert(partial::shape_at(all_done(map_ops(shape, keys, ops, n))) == shape);
            lemma_read(run, start, k);
            let last = run.answers[k]->Read_0->Ok_0;
            operation_laws::the_end_of_an_object(
                run.states[k],
                last.span,
                run.defaults[k],
                run.states[k + 1].log,
            );
            lemma_made(run.step(k), run.states[k].log, Seq::empty());
            assert(run.states[k + 1].log =~= run.states[k].log);
            assert(seq![top].push(next).drop_last() =~= seq![top]);
            reading_laws::lemma_goes_on(run, start, r, k);
            laws::a_run_keeps_the_input(run, start, k + 1);
            lemma_built(run, start, r, k + 1);
        }
    }
}

// ---------------------------------------------------------------------------------------------
// Enums

/// The fields of `variant`.
pub open spec fn variant_fields(variant: Variant) -> Seq<Field> {
    shape::fields_of(shape::data_of(variant))@
}

/// Whether after the calls `log` just the fields of `readings` are set, of the fields `fields` that the
/// last frame has.
pub open spec fn just_set(log: Seq<Call>, fields: Seq<Field>, readings: Seq<Reading>) -> bool {
    &&& partial::frame_fields(log) == fields
    &&& forall|i: usize|
        i < fields.len() ==> (#[trigger] partial::field_set_at(log, i)) == Ok::<bool, ReflectError>(
            reading_laws::is_read(readings, i),
        )
}

/// Whether `readings` are of `fields`, of each at most once.
pub open spec fn are_apart(readings: Seq<Reading>, fields: Seq<Field>) -> bool {
    &&& forall|j: int|
        0 <= j < readings.len() ==> (#[trigger] readings[j]).index < fields.len()
    &&& forall|i: int, j: int|
        0 <= i < j < readings.len() ==> (#[trigger] readings[i]).index != (
        #[trigger] readings[j]).index
}

/// A field that was begun, took its value and was ended is set, and no other.
proof fn lemma_field_done(
    log: Seq<Call>,
    after: Seq<Call>,
    fields: Seq<Field>,
    readings: Seq<Reading>,
    m: int,
)
    requires
        0 <= m < readings.len(),
        are_apart(readings, fields),
        just_set(log, fields, readings.take(m)),
        partial::fills_frame(readings[m].op),
        partial::frame_ended(
            log.push(partial::done(Op::BeginNthField(readings[m].index))).push(
                partial::done(readings[m].op),
            ),
            after,
        ),
    ensures
        partial::shape_at(after) == partial::shape_at(log),
        partial::variant_at(after) == partial::variant_at(log),
        just_set(after, fields, readings.take(m + 1)),
{
    let reading = readings[m];
    let begun = log.push(partial::done(Op::BeginNthField(reading.index)));
    let filled = begun.push(partial::done(reading.op));
    let before = readings.take(m);
    let now = readings.take(m + 1);
    assert(filled.drop_last() =~= begun);
    assert(partial::field_filled(log, reading.index, filled));
    assert(partial::only_field_set(log, after, reading.index));
    assert(!reading_laws::is_read(before, reading.index)) by {
        if reading_laws::is_read(before, reading.index) {
            let j = choose|j: int| 0 <= j < m && (#[trigger] before[j]).index == reading.index;
            assert(readings[j].index == readings[m].index);
        }
    }
    assert(partial::field_set_at(log, reading.index) == Ok::<bool, ReflectError>(false));
    assert forall|i: usize| i < fields.len() implies (#[trigger] partial::field_set_at(after, i))
        == Ok::<bool, ReflectError>(reading_laws::is_read(now, i)) by {
        if i == reading.index {
            assert(now[m].index == i);
        } else {
            assert(partial::field_set_at(after, i) == partial::field_set_at(log, i));
            assert(reading_laws::is_read(now, i) == reading_laws::is_read(before, i)) by {
                if reading_laws::is_read(now, i) {
                    let j = choose|j: int| 0 <= j < m + 1 && (#[trigger] now[j]).index == i;
                    assert(before[j].index == i);
                }
                if reading_laws::is_read(before, i) {
                    let j = choose|j: int| 0 <= j < m && (#[trigger] before[j]).index == i;
                    assert(now[j].index == i);
                }
            }
        }
    }
}

/// The calls by which an enum of the type `shape` has variant `index` selected, and its fields take
/// what the first `n` of `readings` say.
pub open spec fn variant_calls(
    shape: &'static Shape,
    index: usize,
    readings: Seq<Reading>,
    n: int,
) -> Seq<Call> {
    all_done(seq![Op::AllocShape(shape), Op::SelectNthVariant(index)])
        + reading_laws::reading_calls(readings.take(n))
}

/// Whether `scalars` are stored as `readings` say in the fields of variant `index` of the enum
/// `shape`, which is the first named `name`. Once it is selected none of its fields is set, and each
/// of them is read once, into a bare value.
pub open spec fn fits_variant(
    shape: &'static Shape,
    name: Seq<char>,
    index: usize,
    scalars: Seq<Scalar<'_>>,
    readings: Seq<Reading>,
) -> bool {
    let variants = shape::variants_of(shape);
    let variant = variants[index as int];
    let fields = variant_fields(variant);
    let selected = variant_calls(shape, index, readings, 0);
    &&& reading_laws::is_unwrapped(shape)
    &&& shape::type_info(shape) is Enum
    &&& shape::def_info(shape) is Other || shape::def_info(shape) is Scalar
    &&& variants.len() <= usize::MAX
    &&& first_variant_named(variants, name, index as int)
    &&& fields.len() <= partial::MAX_FIELDS
    &&& partial::shape_at(selected) == shape
    &&& partial::parent_field_at(selected) is None
    &&& partial::variant_at(selected) == Some(variant)
    &&& forall|i: usize|
        i < fields.len() ==> (#[trigger] partial::field_set_at(selected, i)) == Ok::<
            bool,
            ReflectError,
        >(false)
    &&& are_apart(readings, fields)
    &&& forall|i: usize| i < fields.len() ==> #[trigger] reading_laws::is_read(readings, i)
    &&& scalars.len() == readings.len()
    &&& readings.len() <= partial::MAX_FIELDS
    &&& forall|j: int|
        0 <= j < readings.len() ==> stores_here(
            variant_calls(shape, index, readings, j).push(
                partial::done(Op::BeginNthField((#[trigger] readings[j]).index)),
            ),
            scalars[j],
            readings[j].op,
        )
}

/// An object that starts for an enum, and its first key, select the variant of that name.
proof fn lemma_selected<'input, 'facet>(
    run: Run<'input>,
    input: Seq<u8>,
    source: Seq<char>,
    shape: &'static Shape,
    name: Seq<char>,
    index: usize,
    scalars: Seq<Scalar<'input>>,
    readings: Seq<Reading>,
    r: Result<Progress<'input, 'facet>, DeserError<'input>>,
)
    requires
        is_allocated(shape),
        run.carried_out_from(fresh(input, source, shape)),
        run.comes_to(r),
        fits_variant(shape, name, index, scalars, readings),
        ({
            let data = shape::data_of(shape::variants_of(shape)[index as int]);
            !(shape::kind_of(data) is Tuple && shape::fields_of(data)@.len() == 1)
        }),
        answers_with(run.answers[0], Outcome::ObjectStarted),
        1 < run.answers.len() ==> answers_with_key(run.answers[1], name),
    ensures
        a_call_failed(run, r) || {
            let selected = run.states[2];
            &&& 2 < run.answers.len()
            &&& selected.log == variant_calls(shape, index, readings, 0)
            &&& selected.runner.stack == seq![
                Instruction::Pop(PopReason::TopLevel),
                Instruction::ObjectKeyOrObjectClose,
                Instruction::Value(ValueReason::ObjectVal),
            ]
            &&& partial::depth_at(selected.log) == 1
            &&& partial::shape_at(selected.log) == shape
            &&& partial::active(selected.log)
            &&& operation_laws::is_plain(selected.log)
            &&& just_set(
                selected.log,
                variant_fields(shape::variants_of(shape)[index as int]),
                readings.take(0),
            )
        },
{
    let start = fresh(input, source, shape);
    let log = start.log;
    let top = Instruction::Pop(PopReason::TopLevel);
    let next = Instruction::ObjectKeyOrObjectClose;
    let due = Instruction::Value(ValueReason::ObjectVal);
    let select = Op::SelectNthVariant(index);
    let selected = variant_calls(shape, index, readings, 0);
    assert(readings.take(0) =~= Seq::empty());
    assert(selected =~= log.push(partial::done(select)));
    assert(run.carried_out(0));
    assert(start.runner.stack.drop_last() =~= seq![top]);
    lemma_read(run, start, 0);
    let read = run.answers[0]->Read_0->Ok_0;
    operation_laws::the_start_of_an_object(start, read.span, run.defaults[0], run.states[1].log);
    lemma_made(run.step(0), log, Seq::empty());
    assert(run.states[1].log =~= log);
    reading_laws::lemma_goes_on(run, start, r, 0);
    assert(seq![top].push(next).drop_last() =~= seq![top]);
    lemma_read(run, start, 1);
    let second = run.answers[1]->Read_0->Ok_0;
    let text = second.node->Scalar_0->String_0;
    assert(second.node == operation_laws::key(text));
    operation_laws::a_key_of_an_enum_selects_its_variant(
        run.states[1],
        text,
        second.span,
        index as int,
        run.defaults[1],
        run.states[2].log,
    );
    lemma_made(run.step(1), log, seq![select]);
    if run.step(1).effect is Fail {
        reading_laws::lemma_stops(run, start, r, 1);
    } else {
        assert(run.states[2].log =~= selected);
        reading_laws::lemma_effect_of_one(log, partial::done(select));
        reading_laws::lemma_goes_on(run, start, r, 1);
        assert(run.states[2].runner.stack =~= seq![top, next, due]);
        assert forall|i: usize| i < variant_fields(
            shape::variants_of(shape)[index as int],
        ).len() implies !reading_laws::is_read(readings.take(0), i) by {}
    }
}

/// Whether each of `keys` is the name of the field of the same number of `readings`, and not of a
/// variant, of variant `index` of the enum `shape`.
pub open spec fn names_fields(
    shape: &'static Shape,
    index: usize,
    keys: Seq<Seq<char>>,
    readings: Seq<Reading>,
) -> bool {
    let variants = shape::variants_of(shape);
    &&& keys.len() == readings.len()
    &&& forall|j: int|
        0 <= j < keys.len() ==> {
            &&& no_variant_named(variants, #[trigger] keys[j])
            &&& first_named(
                variant_fields(variants[index as int]),
                keys[j],
                readings[j].index as int,
            )
        }
}

/// A scalar that is read for a key that names a field of the selected variant goes to that field,
/// unless a call fails.
proof fn lemma_variant_pair<'input, 'facet>(
    run: Run<'input>,
    start: State,
    r: Result<Progress<'input, 'facet>, DeserError<'input>>,
    k: int,
    variant: Variant,
    key: Seq<char>,
    scalar: Scalar<'input>,
    reading: Reading,
)
    requires
        run.carried_out_from(start),
        run.comes_to(r),
        0 <= k < run.answers.len(),
        k + 3 < u64::MAX,
        run.states[k].runner.stack.last() is ObjectKeyOrObjectClose,
        shape::type_info(partial::shape_at(run.states[k].log)) is Enum,
        shape::variants_of(partial::shape_at(run.states[k].log)).len() <= usize::MAX,
        partial::variant_at(run.states[k].log) == Some(variant),
        variant_fields(variant).len() <= partial::MAX_FIELDS,
        partial::depth_at(run.states[k].log) == 1,
        no_variant_named(shape::variants_of(partial::shape_at(run.states[k].log)), key),
        first_named(variant_fields(variant), key, reading.index as int),
        stores_here(
            run.states[k].log.push(partial::done(Op::BeginNthField(reading.index))),
            scalar,
            reading.op,
        ),
        answers_with_key(run.answers[k], key),
        k + 1 < run.answers.len() ==> answers_with(run.answers[k + 1], Outcome::Scalar(scalar)),
        all_parsed(run.states.last().log),
    ensures
        a_call_failed(run, r) || {
            let log = run.states[k].log;
            let after = run.states[k + 3];
            let filled = log.push(partial::done(Op::BeginNthField(reading.index))).push(
                partial::done(reading.op),
            );
            &&& k + 3 < run.answers.len()
            &&& after.log == filled.push(partial::done(Op::End))
            &&& after.runner.stack == run.states[k].runner.stack
            &&& partial::depth_at(after.log) == 1
            &&& partial::fills_frame(reading.op)
            &&& partial::frame_ended(filled, after.log)
        },
{
    let log = run.states[k].log;
    let begin = Op::BeginNthField(reading.index);
    let below = run.states[k].runner.stack.drop_last();
    let next = Instruction::ObjectKeyOrObjectClose;
    lemma_read(run, start, k);
    let read = run.answers[k]->Read_0->Ok_0;
    let text = read.node->Scalar_0->String_0;
    assert(read.node == operation_laws::key(text));
    operation_laws::a_key_of_the_selected_variant_begins_its_field(
        run.states[k],
        text,
        read.span,
        variant,
        reading.index as int,
        run.defaults[k],
        run.states[k + 1].log,
    );
    lemma_made(run.step(k), log, seq![begin]);
    if run.step(k).effect is Fail {
        reading_laws::lemma_stops(run, start, r, k);
    } else {
        reading_laws::lemma_goes_on(run, start, r, k);
        assert(run.states[k + 1].log =~= log.push(partial::done(begin)));
        reading_laws::lemma_effect_of_one(log, partial::done(begin));
        lemma_value_then_end(run, start, r, k + 1, below.push(next), scalar, reading.op);
        assert(run.states[k].runner.stack =~= below.push(next));
    }
}

/// The first `n` pairs of an object go to the fields of the selected variant that they name, unless
/// a call fails.
#[verifier::spinoff_prover]
#[verifier::rlimit(60)]
proof fn lemma_variant_pairs<'input, 'facet>(
    run: Run<'input>,
    start: State,
    r: Result<Progress<'input, 'facet>, DeserError<'input>>,
    shape: &'static Shape,
    name: Seq<char>,
    index: usize,
    keys: Seq<Seq<char>>,
    scalars: Seq<Scalar<'input>>,
    readings: Seq<Reading>,
    n: int,
)
    requires
        run.carried_out_from(start),
        run.comes_to(r),
        3 < run.answers.len(),
        fits_variant(shape, name, index, scalars, readings),
        names_fields(shape, index, keys, readings),
        reading_laws::answers_with_pairs(run, 3, keys, scalars),
        0 <= n <= readings.len(),
        run.states[3].runner.stack.last() is ObjectKeyOrObjectClose,
        run.states[3].log == variant_calls(shape, index, readings, 0),
        partial::depth_at(run.states[3].log) == 1,
        just_set(
            run.states[3].log,
            variant_fields(shape::variants_of(shape)[index as int]),
            readings.take(0),
        ),
        all_parsed(run.states.last().log),
    ensures
        a_call_failed(run, r) || {
            let k = 3 + 3 * n;
            let variant = shape::variants_of(shape)[index as int];
            let log = run.states[k].log;
            &&& k < run.answers.len()
            &&& log == variant_calls(shape, index, readings, n)
            &&& run.states[k].runner.stack == run.states[3].runner.stack
            &&& partial::depth_at(log) == 1
            &&& partial::shape_at(log) == shape
            &&& partial::variant_at(log) == Some(variant)
            &&& just_set(log, variant_fields(variant), readings.take(n))
        },
    decreases n,
{
    if n > 0 {
        let m = n - 1;
        lemma_variant_pairs(run, start, r, shape, name, index, keys, scalars, readings, m);
        if !a_call_failed(run, r) {
            let variant = shape::variants_of(shape)[index as int];
            let fields = variant_fields(variant);
            let k = 3 + 3 * m;
            let log = run.states[k].log;
            assert(no_variant_named(shape::variants_of(shape), keys[m]));
            assert(answers_with_key(run.answers[3 + 3 * m], keys[m]));
            assert(k + 1 < run.answers.len() ==> answers_with(
                run.answers[3 + 3 * m + 1],
                Outcome::Scalar(scalars[m]),
            ));
            lemma_variant_pair(run, start, r, k, variant, keys[m], scalars[m], readings[m]);
            if !a_call_failed(run, r) {
                let after = run.states[k + 3].log;
                assert(readings.take(n).drop_last() =~= readings.take(m));
                assert(after =~= variant_calls(shape, index, readings, n));
                lemma_field_done(log, after, fields, readings, m);
            }
        }
    }
}

/// Whether the format answers with an object of one key, `name`, whose value is what starts with
/// `opening`, ends with `closing` as answer number `end`, and then the object ends, at the end of the
/// input.
pub open spec fn answers_with_variant(
    run: Run<'_>,
    input: Seq<u8>,
    name: Seq<char>,
    opening: Outcome<'_>,
    closing: Outcome<'_>,
    end: int,
) -> bool {
    &&& answers_with(run.answers[0], Outcome::ObjectStarted)
    &&& 1 < run.answers.len() ==> answers_with_key(run.answers[1], name)
    &&& 2 < run.answers.len() ==> answers_with(run.answers[2], opening)
    &&& end < run.answers.len() ==> answers_with(run.answers[end], closing)
    &&& end + 1 < run.answers.len() ==> answers_with(run.answers[end + 1], Outcome::ObjectEnded)
        && reaches(run.answers[end + 1], input.len())
}

/// The end of the object round a variant whose fields are all set finishes the value, unless a call
/// fails.
proof fn lemma_variant_finished<'input, 'facet>(
    run: Run<'input>,
    input: Seq<u8>,
    source: Seq<char>,
    shape: &'static Shape,
    name: Seq<char>,
    index: usize,
    scalars: Seq<Scalar<'input>>,
    readings: Seq<Reading>,
    k: int,
    r: Result<Progress<'input, 'facet>, DeserError<'input>>,
)
    requires
        run.carried_out_from(fresh(input, source, shape)),
        run.comes_to(r),
        fits_variant(shape, name, index, scalars, readings),
        0 <= k < run.answers.len(),
        k + 1 < u64::MAX,
        run.states[k].runner.stack == seq![
            Instruction::Pop(PopReason::TopLevel),
            Instruction::ObjectKeyOrObjectClose,
        ],
        answers_with(run.answers[k], Outcome::ObjectEnded),
        reaches(run.answers[k], input.len()),
        partial::depth_at(run.states[k].log) == 1,
        partial::shape_at(run.states[k].log) == shape,
        partial::variant_at(run.states[k].log) is Some,
        just_set(
            run.states[k].log,
            variant_fields(shape::variants_of(shape)[index as int]),
            readings,
        ),
    ensures
        run.answers.len() == k + 2,
        a_call_failed(run, r) || (r matches Ok(Progress::Done(value)) && partial::built_from(value)
            == run.states[k].log),
{
    let start = fresh(input, source, shape);
    let top = Instruction::Pop(PopReason::TopLevel);
    let next = Instruction::ObjectKeyOrObjectClose;
    let log = run.states[k].log;
    lemma_read(run, start, k);
    let last = run.answers[k]->Read_0->Ok_0;
    operation_laws::the_end_of_an_object(
        run.states[k],
        last.span,
        run.defaults[k],
        run.states[k + 1].log,
    );
    lemma_made(run.step(k), log, Seq::empty());
    assert(run.states[k + 1].log =~= log);
    assert(seq![top, next].drop_last() =~= seq![top]);
    reading_laws::lemma_goes_on(run, start, r, k);
    laws::a_run_keeps_the_input(run, start, k + 1);
    laws::a_complete_value_is_left_alone(
        log,
        PopReason::TopLevel,
        run.defaults[k + 1],
        run.states[k + 2].log,
    );
    lemma_built(run, start, r, k + 1);
}

/// An object whose one key is the name of a variant, and whose value is an object of scalars, is read
/// into that variant: the value is built from the variant selected, and from each field that a key
/// names taking the scalar that was read for that key, unless a call fails.
pub proof fn an_object_of_scalars_is_read_into_a_variant<'input, 'facet>(
    run: Run<'input>,
    input: Seq<u8>,
    source: Seq<char>,
    shape: &'static Shape,
    name: Seq<char>,
    index: usize,
    keys: Seq<Seq<char>>,
    scalars: Seq<Scalar<'input>>,
    readings: Seq<Reading>,
    r: Result<Progress<'input, 'facet>, DeserError<'input>>,
)
    requires
        is_allocated(shape),
        run.carried_out_from(fresh(input, source, shape)),
        run.comes_to(r),
        fits_variant(shape, name, index, scalars, readings),
        names_fields(shape, index, keys, readings),
        ({
            let data = shape::data_of(shape::variants_of(shape)[index as int]);
            !(shape::kind_of(data) is Tuple && shape::fields_of(data)@.len() == 1)
        }),
        answers_with_variant(
            run,
            input,
            name,
            Outcome::ObjectStarted,
            Outcome::ObjectEnded,
            3 + 3 * readings.len() as int,
        ),
        reading_laws::answers_with_pairs(run, 3, keys, scalars),
        all_parsed(run.states.last().log),
    ensures
        a_call_failed(run, r) || {
            &&& r matches Ok(Progress::Done(value)) && partial::built_from(value) == all_done(
                seq![Op::AllocShape(shape), Op::SelectNthVariant(index)],
            ) + reading_laws::reading_calls(readings)
            &&& run.answers.len() == 3 * readings.len() + 6
        },
{
    let start = fresh(input, source, shape);
    let top = Instruction::Pop(PopReason::TopLevel);
    let next = Instruction::ObjectKeyOrObjectClose;
    let due = Instruction::Value(ValueReason::ObjectVal);
    let variant = shape::variants_of(shape)[index as int];
    let n = readings.len() as int;
    lemma_selected(run, input, source, shape, name, index, scalars, readings, r);
    if !a_call_failed(run, r) {
        lemma_read(run, start, 2);
        let read = run.answers[2]->Read_0->Ok_0;
        operation_laws::the_start_of_an_object(
            run.states[2],
            read.span,
            run.defaults[2],
            run.states[3].log,
        );
        lemma_made(run.step(2), run.states[2].log, Seq::empty());
        assert(run.states[3].log =~= run.states[2].log);
        assert(seq![top, next, due].drop_last() =~= seq![top, next]);
        reading_laws::lemma_goes_on(run, start, r, 2);
        lemma_variant_pairs(run, start, r, shape, name, index, keys, scalars, readings, n);
        if !a_call_failed(run, r) {
            let k = 3 + 3 * n;
            assert(readings.take(n) =~= readings);
            lemma_read(run, start, k);
            let last = run.answers[k]->Read_0->Ok_0;
            operation_laws::the_end_of_an_object(
                run.states[k],
                last.span,
                run.defaults[k],
                run.states[k + 1].log,
            );
            lemma_made(run.step(k), run.states[k].log, Seq::empty());
            assert(run.states[k + 1].log =~= run.states[k].log);
            assert(seq![top, next].push(next).drop_last() =~= seq![top, next]);
            reading_laws::lemma_goes_on(run, start, r, k);
            lemma_variant_finished(
                run,
                input,
                source,
                shape,
                name,
                index,
                scalars,
                readings,
                k + 1,
                r,
            );
        }
    }
}

/// A scalar that is read where an item is due, for which field or element `index` is begun, goes
/// there, unless a call fails.
proof fn lemma_item_in_place<'input, 'facet>(
    run: Run<'input>,
    start: State,
    r: Result<Progress<'input, 'facet>, DeserError<'input>>,
    k: int,
    scalar: Scalar<'input>,
    reading: Reading,
)
    requires
        run.carried_out_from(start),
        run.comes_to(r),
        0 <= k < run.answers.len(),
        k + 2 < u64::MAX,
        run.states[k].runner.stack.last() is ListItemOrListClose,
        partial::frame_fields(run.states[k].log).len() <= partial::MAX_FIELDS,
        partial::depth_at(run.states[k].log) == 1,
        answers_with(run.answers[k], Outcome::Scalar(scalar)),
        begins_with(run.step(k), run.states[k].log, Op::BeginNthField(reading.index)),
        stores_here(
            run.states[k].log.push(partial::done(Op::BeginNthField(reading.index))),
            scalar,
            reading.op,
        ),
        all_parsed(run.states.last().log),
    ensures
        a_call_failed(run, r) || {
            let log = run.states[k].log;
            let before = run.states[k].runner;
            let after = run.states[k + 2];
            let shape = partial::shape_at(log);
            let array = shape::def_info(shape) is Array;
            let variant = !array && !(shape::def_info(shape) is List) && !(shape::def_info(
                shape,
            ) is Pointer) && shape::type_info(shape) is Enum;
            let filled = log.push(partial::done(Op::BeginNthField(reading.index))).push(
                partial::done(reading.op),
            );
            &&& k + 2 < run.answers.len()
            &&& after.log == filled.push(partial::done(Op::End))
            &&& after.runner.stack == before.stack
            &&& after.runner.array_indices == if array {
                before.array_indices.drop_last().push((before.array_indices.last() + 1) as usize)
            } else {
                before.array_indices
            }
            &&& after.runner.enum_tuple_field_count == before.enum_tuple_field_count
            &&& after.runner.enum_tuple_current_field == if variant {
                Some((before.enum_tuple_current_field->0 + 1) as usize)
            } else {
                before.enum_tuple_current_field
            }
            &&& partial::depth_at(after.log) == 1
            &&& partial::fills_frame(reading.op)
            &&& partial::frame_ended(filled, after.log)
        },
{
    let log = run.states[k].log;
    let n = log.len() as int;
    let before = run.states[k].runner;
    let record = run.states[k + 1].log;
    let begin = partial::done(Op::BeginNthField(reading.index));
    let below = before.stack.drop_last();
    let next = Instruction::ListItemOrListClose;
    let end = Instruction::Pop(PopReason::ListVal);
    let due = Instruction::Value(ValueReason::ObjectVal);
    assert(run.carried_out(k));
    lemma_read(run, start, k);
    let read = run.answers[k]->Read_0->Ok_0;
    if record[n].err is Some {
        reading_laws::lemma_stops(run, start, r, k);
    } else {
        operation_laws::an_item_is_read_as_if_it_was_due_in_its_place(
            run.states[k],
            read.node,
            read.span,
            run.defaults[k],
            record,
        );
        let shape = partial::shape_at(log);
        let array = shape::def_info(shape) is Array;
        let variant = !array && !(shape::def_info(shape) is List) && !(shape::def_info(
            shape,
        ) is Pointer) && shape::type_info(shape) is Enum;
        let there = State {
            runner: RunnerView {
                stack: operation_laws::then_end_then_item(below).push(due),
                array_indices: if array {
                    before.array_indices.drop_last().push(
                        (before.array_indices.last() + 1) as usize,
                    )
                } else {
                    before.array_indices
                },
                enum_tuple_current_field: if variant {
                    Some((before.enum_tuple_current_field->0 + 1) as usize)
                } else {
                    before.enum_tuple_current_field
                },
                ..before
            },
            log: log.push(record[n]),
        };
        assert(record[n] == begin);
        assert(run.step(k) == on_reading(there, read.node, read.span, run.defaults[k], record));
        reading_laws::lemma_parsed_before(run, start, k + 1);
        lemma_stored_inside(
            there,
            operation_laws::then_end_then_item(below),
            read.span,
            scalar,
            reading.op,
            run.defaults[k],
            record,
        );
        if run.step(k).effect is Fail {
            reading_laws::lemma_stops(run, start, r, k);
        } else {
            reading_laws::lemma_goes_on(run, start, r, k);
            reading_laws::lemma_effect_of_two(log, begin, partial::done(reading.op));
            assert(below.push(next).push(end).drop_last() =~= below.push(next));
            reading_laws::lemma_end_step(run, start, k + 1, PopReason::ListVal);
            if run.step(k + 1).effect is Fail {
                reading_laws::lemma_stops(run, start, r, k + 1);
                reading_laws::lemma_failed_end(run, start, k + 1, PopReason::ListVal);
            } else {
                reading_laws::lemma_goes_on(run, start, r, k + 1);
                assert(before.stack =~= below.push(next));
            }
        }
    }
}

/// Whether the format answers with the scalars `scalars`, one for each item, from instruction number
/// `from` on. Each item is ended before the next is asked for.
pub open spec fn answers_with_items(run: Run<'_>, from: int, scalars: Seq<Scalar<'_>>) -> bool {
    forall|j: int|
        0 <= j < scalars.len() && from + 2 * j < run.answers.len() ==> answers_with(
            run.answers[from + 2 * j],
            Outcome::Scalar(#[trigger] scalars[j]),
        )
}

/// Whether `readings` are of field 0, field 1 and so on, in that order.
pub open spec fn are_in_turn(readings: Seq<Reading>) -> bool {
    forall|j: int| 0 <= j < readings.len() ==> (#[trigger] readings[j]).index == j
}

/// The first `n` items of a list go to the first `n` fields of the selected variant, in that order,
/// unless a call fails.
#[verifier::spinoff_prover]
#[verifier::rlimit(60)]
proof fn lemma_variant_items<'input, 'facet>(
    run: Run<'input>,
    start: State,
    r: Result<Progress<'input, 'facet>, DeserError<'input>>,
    shape: &'static Shape,
    name: Seq<char>,
    index: usize,
    scalars: Seq<Scalar<'input>>,
    readings: Seq<Reading>,
    n: int,
)
    requires
        run.carried_out_from(start),
        run.comes_to(r),
        3 < run.answers.len(),
        fits_variant(shape, name, index, scalars, readings),
        are_in_turn(readings),
        answers_with_items(run, 3, scalars),
        0 <= n <= readings.len(),
        run.states[3].runner.stack.last() is ListItemOrListClose,
        run.states[3].runner.enum_tuple_field_count == Some(
            variant_fields(shape::variants_of(shape)[index as int]).len() as usize,
        ),
        run.states[3].runner.enum_tuple_current_field == Some(0usize),
        run.states[3].log == variant_calls(shape, index, readings, 0),
        partial::depth_at(run.states[3].log) == 1,
        just_set(
            run.states[3].log,
            variant_fields(shape::variants_of(shape)[index as int]),
            readings.take(0),
        ),
        all_parsed(run.states.last().log),
    ensures
        a_call_failed(run, r) || {
            let k = 3 + 2 * n;
            let variant = shape::variants_of(shape)[index as int];
            let log = run.states[k].log;
            &&& k < run.answers.len()
            &&& log == variant_calls(shape, index, readings, n)
            &&& run.states[k].runner.stack == run.states[3].runner.stack
            &&& run.states[k].runner.enum_tuple_field_count
                == run.states[3].runner.enum_tuple_field_count
            &&& run.states[k].runner.enum_tuple_current_field == Some(n as usize)
            &&& partial::depth_at(log) == 1
            &&& partial::shape_at(log) == shape
            &&& partial::variant_at(log) == Some(variant)
            &&& just_set(log, variant_fields(variant), readings.take(n))
        },
    decreases n,
{
    if n > 0 {
        let m = n - 1;
        lemma_variant_items(run, start, r, shape, name, index, scalars, readings, m);
        if !a_call_failed(run, r) {
            let fields = variant_fields(shape::variants_of(shape)[index as int]);
            let k = 3 + 2 * m;
            let log = run.states[k].log;
            assert(readings[m].index == m);
            assert(answers_with(run.answers[3 + 2 * m], Outcome::Scalar(scalars[m])));
            lemma_read(run, start, k);
            let read = run.answers[k]->Read_0->Ok_0;
            operation_laws::an_item_begins_the_next_place(
                run.states[k],
                read.node,
                read.span,
                run.defaults[k],
                run.states[k + 1].log,
                0,
            );
            lemma_item_in_place(run, start, r, k, scalars[m], readings[m]);
            if !a_call_failed(run, r) {
                let after = run.states[k + 2].log;
                assert(readings.take(n).drop_last() =~= readings.take(m));
                assert(after =~= variant_calls(shape, index, readings, n));
                lemma_field_done(log, after, fields, readings, m);
            }
        }
    }
}

/// An object whose one key is the name of a tuple variant, and whose value is a list of scalars, is
/// read into that variant: the value is built from the variant selected, and from field 0 taking the
/// first scalar, field 1 the second, and so on, unless a call fails.
pub proof fn a_list_of_scalars_is_read_into_a_variant<'input, 'facet>(
    run: Run<'input>,
    input: Seq<u8>,
    source: Seq<char>,
    shape: &'static Shape,
    name: Seq<char>,
    index: usize,
    scalars: Seq<Scalar<'input>>,
    readings: Seq<Reading>,
    r: Result<Progress<'input, 'facet>, DeserError<'input>>,
)
    requires
        is_allocated(shape),
        run.carried_out_from(fresh(input, source, shape)),
        run.comes_to(r),
        fits_variant(shape, name, index, scalars, readings),
        are_in_turn(readings),
        ({
            let data = shape::data_of(shape::variants_of(shape)[index as int]);
            shape::kind_of(data) is Tuple && shape::fields_of(data)@.len() != 1
        }),
        answers_with_variant(
            run,
            input,
            name,
            Outcome::ListStarted,
            Outcome::ListEnded,
            3 + 2 * readings.len() as int,
        ),
        answers_with_items(run, 3, scalars),
        all_parsed(run.states.last().log),
    ensures
        a_call_failed(run, r) || {
            &&& r matches Ok(Progress::Done(value)) && partial::built_from(value) == all_done(
                seq![Op::AllocShape(shape), Op::SelectNthVariant(index)],
            ) + reading_laws::reading_calls(readings)
            &&& run.answers.len() == 2 * readings.len() + 6
        },
{
    let start = fresh(input, source, shape);
    let top = Instruction::Pop(PopReason::TopLevel);
    let next = Instruction::ObjectKeyOrObjectClose;
    let item = Instruction::ListItemOrListClose;
    let due = Instruction::Value(ValueReason::ObjectVal);
    let n = readings.len() as int;
    lemma_selected(run, input, source, shape, name, index, scalars, readings, r);
    if !a_call_failed(run, r) {
        lemma_read(run, start, 2);
        let read = run.answers[2]->Read_0->Ok_0;
        operation_laws::the_start_of_a_list(
            run.states[2],
            read.span,
            run.defaults[2],
            run.states[3].log,
        );
        lemma_made(run.step(2), run.states[2].log, Seq::empty());
        assert(run.states[3].log =~= run.states[2].log);
        assert(seq![top, next, due].drop_last() =~= seq![top, next]);
        reading_laws::lemma_goes_on(run, start, r, 2);
        lemma_variant_items(run, start, r, shape, name, index, scalars, readings, n);
        if !a_call_failed(run, r) {
            let k = 3 + 2 * n;
            assert(readings.take(n) =~= readings);
            lemma_read(run, start, k);
            let last = run.answers[k]->Read_0->Ok_0;
            operation_laws::the_end_of_a_list(
                run.states[k],
                last.span,
                run.defaults[k],
                run.states[k + 1].log,
            );
            lemma_made(run.step(k), run.states[k].log, Seq::empty());
            assert(run.states[k + 1].log =~= run.states[k].log);
            assert(seq![top, next].push(item).drop_last() =~= seq![top, next]);
            reading_laws::lemma_goes_on(run, start, r, k);
            lemma_variant_finished(
                run,
                input,
                source,
                shape,
                name,
                index,
                scalars,
                readings,
                k + 1,
                r,
            );
        }
    }
}

/// An object whose one key is the name of a variant that is a tuple of one field, and whose value is a
/// scalar, is read into that variant: the value is built from the variant selected, and its field
/// taking the scalar, unless a call fails.
pub proof fn a_scalar_is_read_into_a_variant<'input, 'facet>(
    run: Run<'input>,
    input: Seq<u8>,
    source: Seq<char>,
    shape: &'static Shape,
    name: Seq<char>,
    index: usize,
    scalar: Scalar<'input>,
    op: Op,
    r: Result<Progress<'input, 'facet>, DeserError<'input>>,
)
    requires
        is_allocated(shape),
        run.carried_out_from(fresh(input, source, shape)),
        run.comes_to(r),
        fits_variant(shape, name, index, seq![scalar], seq![Reading { index: 0, op }]),
        ({
            let data = shape::data_of(shape::variants_of(shape)[index as int]);
            shape::kind_of(data) is Tuple && shape::fields_of(data)@.len() == 1
        }),
        answers_with(run.answers[0], Outcome::ObjectStarted),
        1 < run.answers.len() ==> answers_with_key(run.answers[1], name),
        2 < run.answers.len() ==> answers_with(run.answers[2], Outcome::Scalar(scalar)),
        3 < run.answers.len() ==> answers_with(run.answers[3], Outcome::ObjectEnded) && reaches(
            run.answers[3],
            input.len(),
        ),
        all_parsed(run.states.last().log),
    ensures
        a_call_failed(run, r) || {
            &&& r matches Ok(Progress::Done(value)) && partial::built_from(value) == all_done(
                seq![
                    Op::AllocShape(shape),
                    Op::SelectNthVariant(index),
                    Op::BeginNthField(0),
                    op,
                    Op::End,
                ],
            )
            &&& run.answers.len() == 6
        },
{
    let start = fresh(input, source, shape);
    let log = start.log;
    let top = Instruction::Pop(PopReason::TopLevel);
    let next = Instruction::ObjectKeyOrObjectClose;
    let end = Instruction::Pop(PopReason::ObjectVal);
    let due = Instruction::Value(ValueReason::ObjectVal);
    let select = Op::SelectNthVariant(index);
    let readings = seq![Reading { index: 0, op }];
    let variant = shape::variants_of(shape)[index as int];
    let fields = variant_fields(variant);
    let selected = variant_calls(shape, index, readings, 0);
    let begin = Op::BeginNthField(0);
    let begun = selected.push(partial::done(begin));
    assert(readings.take(0) =~= Seq::empty());
    assert(selected =~= log.push(partial::done(select)));
    assert(readings[0].index == 0);
    assert(run.carried_out(0));
    assert(start.runner.stack.drop_last() =~= seq![top]);
    lemma_read(run, start, 0);
    let read = run.answers[0]->Read_0->Ok_0;
    operation_laws::the_start_of_an_object(start, read.span, run.defaults[0], run.states[1].log);
    lemma_made(run.step(0), log, Seq::empty());
    assert(run.states[1].log =~= log);
    reading_laws::lemma_goes_on(run, start, r, 0);
    assert(seq![top].push(next).drop_last() =~= seq![top]);
    lemma_read(run, start, 1);
    let second = run.answers[1]->Read_0->Ok_0;
    let text = second.node->Scalar_0->String_0;
    assert(second.node == operation_laws::key(text));
    operation_laws::a_key_of_an_enum_selects_its_variant(
        run.states[1],
        text,
        second.span,
        index as int,
        run.defaults[1],
        run.states[2].log,
    );
    lemma_made(run.step(1), log, seq![select, begin]);
    if run.step(1).effect is Fail {
        reading_laws::lemma_stops(run, start, r, 1);
    } else {
        assert(run.states[2].log =~= begun);
        reading_laws::lemma_effect_of_two(log, partial::done(select), partial::done(begin));
        reading_laws::lemma_goes_on(run, start, r, 1);
        let stack = seq![top].push(end).push(next).push(due);
        assert(stack.drop_last() =~= seq![top].push(end).push(next));
        assert(seq![top].push(end).push(next).drop_last() =~= seq![top].push(end));
        assert(seq![top].push(end).drop_last() =~= seq![top]);
        reading_laws::lemma_parsed_before(run, start, 3);
        reading_laws::lemma_value_step(run, start, 2, scalar, op);
        if run.step(2).effect is Fail {
            reading_laws::lemma_stops(run, start, r, 2);
        } else {
            reading_laws::lemma_goes_on(run, start, r, 2);
            let filled = begun.push(partial::done(op));
            lemma_read(run, start, 3);
            let last = run.answers[3]->Read_0->Ok_0;
            operation_laws::the_end_of_an_object(
                run.states[3],
                last.span,
                run.defaults[3],
                run.states[4].log,
            );
            lemma_made(run.step(3), filled, Seq::empty());
            assert(run.states[4].log =~= filled);
            reading_laws::lemma_goes_on(run, start, r, 3);
            reading_laws::lemma_end_step(run, start, 4, PopReason::ObjectVal);
            if run.step(4).effect is Fail {
                reading_laws::lemma_stops(run, start, r, 4);
                reading_laws::lemma_failed_end(run, start, 4, PopReason::ObjectVal);
            } else {
                reading_laws::lemma_goes_on(run, start, r, 4);
                let after = run.states[5].log;
                assert forall|i: usize| i < fields.len() implies (
                #[trigger] partial::field_set_at(selected, i)) == Ok::<bool, ReflectError>(
                    reading_laws::is_read(readings.take(0), i),
                ) by {}
                lemma_field_done(selected, after, fields, readings, 0);
                assert(readings.take(1) =~= readings);
                laws::a_run_keeps_the_input(run, start, 5);
                laws::a_complete_value_is_left_alone(
                    after,
                    PopReason::TopLevel,
                    run.defaults[5],
                    run.states[6].log,
                );
                lemma_built(run, start, r, 5);
                assert(after =~= all_done(
                    seq![Op::AllocShape(shape), select, begin, op, Op::End],
                ));
            }
        }
    }
}

// ---------------------------------------------------------------------------------------------
// Tuples and arrays

/// The calls by which fields or elements of a value of the type `shape` take what the first `n` of
/// `readings` say.
pub open spec fn place_calls(shape: &'static Shape, readings: Seq<Reading>, n: int) -> Seq<Call> {
    all_done(seq![Op::AllocShape(shape)]) + reading_laws::reading_calls(readings.take(n))
}

/// The first `n` items of a list go to the first `n` fields of a tuple, in that order, unless a call
/// fails.
#[verifier::spinoff_prover]
#[verifier::rlimit(60)]
proof fn lemma_tuple_items<'input, 'facet>(
    run: Run<'input>,
    start: State,
    r: Result<Progress<'input, 'facet>, DeserError<'input>>,
    shape: &'static Shape,
    scalars: Seq<Scalar<'input>>,
    readings: Seq<Reading>,
    n: int,
)
    requires
        run.carried_out_from(start),
        run.comes_to(r),
        1 < run.answers.len(),
        fits_tuple(shape, scalars, readings),
        answers_with_items(run, 1, scalars),
        0 <= n <= readings.len(),
        run.states[1].runner.stack.last() is ListItemOrListClose,
        run.states[1].log == place_calls(shape, readings, 0),
        partial::depth_at(run.states[1].log) == 1,
        partial::shape_at(run.states[1].log) == shape,
        just_set(run.states[1].log, reading_laws::struct_fields(shape), readings.take(0)),
        all_parsed(run.states.last().log),
    ensures
        a_call_failed(run, r) || {
            let k = 1 + 2 * n;
            let log = run.states[k].log;
            &&& k < run.answers.len()
            &&& log == place_calls(shape, readings, n)
            &&& run.states[k].runner.stack == run.states[1].runner.stack
            &&& partial::depth_at(log) == 1
            &&& partial::shape_at(log) == shape
            &&& just_set(log, reading_laws::struct_fields(shape), readings.take(n))
        },
    decreases n,
{
    if n > 0 {
        let m = n - 1;
        lemma_tuple_items(run, start, r, shape, scalars, readings, m);
        if !a_call_failed(run, r) {
            let fields = reading_laws::struct_fields(shape);
            let k = 1 + 2 * m;
            let log = run.states[k].log;
            let record = run.states[k + 1].log;
            let index = m as usize;
            let at = log.len() as int;
            assert(readings[m].index == m);
            assert(answers_with(run.answers[1 + 2 * m], Outcome::Scalar(scalars[m])));
            assert(operation_laws::is_first_unset(log, index)) by {
                assert(!reading_laws::is_read(readings.take(m), index)) by {
                    if reading_laws::is_read(readings.take(m), index) {
                        let j = choose|j: int|
                            0 <= j < m && (#[trigger] readings.take(m)[j]).index == index;
                        assert(readings[j].index == j);
                    }
                }
                assert forall|i: usize| i < index implies (#[trigger] partial::field_set_at(log, i))
                    == Ok::<bool, ReflectError>(true) by {
                    assert(readings[i as int].index == i);
                    assert(readings.take(m)[i as int].index == i);
                }
            }
            lemma_read(run, start, k);
            let read = run.answers[k]->Read_0->Ok_0;
            operation_laws::an_item_begins_the_next_place(
                run.states[k],
                read.node,
                read.span,
                run.defaults[k],
                record,
                index,
            );
            if record[at].err is Some {
                reading_laws::lemma_stops(run, start, r, k);
            } else {
                reading_laws::lemma_effect_of_first(log, record);
                assert(record[at] == partial::done(Op::BeginNthField(index)));
                lemma_active(shape, readings, m);
                assert(stores_here(log.push(record[at]), scalars[m], readings[m].op));
                lemma_item_in_place(run, start, r, k, scalars[m], readings[m]);
                if !a_call_failed(run, r) {
                    let after = run.states[k + 2].log;
                    assert(readings.take(n).drop_last() =~= readings.take(m));
                    assert(after =~= place_calls(shape, readings, n));
                    lemma_field_done(log, after, fields, readings, m);
                }
            }
        }
    }
}

/// Between two items the value is under construction.
proof fn lemma_active(shape: &'static Shape, readings: Seq<Reading>, n: int)
    requires
        0 <= n <= readings.len(),
    ensures
        partial::active(place_calls(shape, readings, n)),
{
    let taken = readings.take(n);
    if n > 0 {
        let last = taken.last();
        assert(place_calls(shape, readings, n).last() == reading_laws::field_calls(
            last.index,
            last.op,
        ).last());
    } else {
        assert(taken =~= Seq::empty());
        assert(place_calls(shape, readings, n) =~= all_done(seq![Op::AllocShape(shape)]));
    }
}

/// Whether `scalars` are stored as `readings` say in the fields of the tuple `shape`, one for each, in
/// their order.
pub open spec fn fits_tuple(
    shape: &'static Shape,
    scalars: Seq<Scalar<'_>>,
    readings: Seq<Reading>,
) -> bool {
    let fields = reading_laws::struct_fields(shape);
    &&& shape::type_info(shape) matches TypeInfo::Struct(st) && shape::kind_of(st) is Tuple
    &&& shape::def_info(shape) is Other || shape::def_info(shape) is Scalar
    &&& reading_laws::is_unwrapped(shape)
    &&& fields.len() <= partial::MAX_FIELDS
    &&& scalars.len() == readings.len()
    &&& readings.len() == fields.len()
    &&& are_in_turn(readings)
    &&& forall|j: int|
        0 <= j < readings.len() ==> reading_laws::is_bare_field(fields[j]) && stored(
            shape::shape_of_field(fields[j]),
            scalars[j],
        ) == Some((#[trigger] readings[j]).op)
}

/// Readings in turn are apart.
proof fn lemma_in_turn(readings: Seq<Reading>, fields: Seq<Field>)
    requires
        are_in_turn(readings),
        readings.len() <= fields.len(),
    ensures
        are_apart(readings, fields),
{
}

/// A list of as many scalars as a tuple has fields is read into the tuple: the value is built from
/// field 0 taking the first scalar, field 1 the second, and so on, unless a call fails.
pub proof fn a_list_of_scalars_is_read_into_a_tuple<'input, 'facet>(
    run: Run<'input>,
    input: Seq<u8>,
    source: Seq<char>,
    shape: &'static Shape,
    scalars: Seq<Scalar<'input>>,
    readings: Seq<Reading>,
    r: Result<Progress<'input, 'facet>, DeserError<'input>>,
)
    requires
        is_allocated(shape),
        run.carried_out_from(fresh(input, source, shape)),
        run.comes_to(r),
        fits_tuple(shape, scalars, readings),
        reading_laws::answers_with_list(run, input, scalars),
        all_parsed(run.states.last().log),
    ensures
        a_call_failed(run, r) || {
            &&& r matches Ok(Progress::Done(value)) && partial::built_from(value) == all_done(
                seq![Op::AllocShape(shape)],
            ) + reading_laws::reading_calls(readings)
            &&& run.answers.len() == 2 * readings.len() + 3
        },
{
    let start = fresh(input, source, shape);
    let log = start.log;
    let top = Instruction::Pop(PopReason::TopLevel);
    let item = Instruction::ListItemOrListClose;
    let fields = reading_laws::struct_fields(shape);
    let n = readings.len() as int;
    assert(run.carried_out(0));
    assert(start.runner.stack.drop_last() =~= seq![top]);
    assert(readings.take(0) =~= Seq::empty());
    assert(readings.take(n) =~= readings);
    assert(log =~= place_calls(shape, readings, 0));
    lemma_in_turn(readings, fields);
    lemma_read(run, start, 0);
    let read = run.answers[0]->Read_0->Ok_0;
    operation_laws::the_start_of_a_list(start, read.span, run.defaults[0], run.states[1].log);
    lemma_made(run.step(0), log, Seq::empty());
    assert(run.states[1].log =~= log);
    reading_laws::lemma_goes_on(run, start, r, 0);
    assert forall|i: usize| i < fields.len() implies (#[trigger] partial::field_set_at(log, i))
        == Ok::<bool, ReflectError>(reading_laws::is_read(readings.take(0), i)) by {}
    lemma_tuple_items(run, start, r, shape, scalars, readings, n);
    if !a_call_failed(run, r) {
        let k = 1 + 2 * n;
        let full = run.states[k].log;
        lemma_read(run, start, k);
        let last = run.answers[k]->Read_0->Ok_0;
        operation_laws::the_end_of_a_list(
            run.states[k],
            last.span,
            run.defaults[k],
            run.states[k + 1].log,
        );
        lemma_made(run.step(k), full, Seq::empty());
        assert(run.states[k + 1].log =~= full);
        assert(seq![top].push(item).drop_last() =~= seq![top]);
        reading_laws::lemma_goes_on(run, start, r, k);
        laws::a_run_keeps_the_input(run, start, k + 1);
        assert forall|i: usize| i < fields.len() implies (#[trigger] partial::field_set_at(full, i))
            == Ok::<bool, ReflectError>(true) by {
            assert(readings[i as int].index == i);
        }
        laws::a_complete_value_is_left_alone(
            full,
            PopReason::TopLevel,
            run.defaults[k + 1],
            run.states[k + 2].log,
        );
        lemma_built(run, start, r, k + 1);
    }
}

/// Whether `scalars` are stored as `readings` say in the elements of the array `shape`, one for each,
/// in their order.
pub open spec fn fits_array(
    shape: &'static Shape,
    scalars: Seq<Scalar<'_>>,
    readings: Seq<Reading>,
) -> bool {
    &&& is_bare(shape)
    &&& shape::def_info(shape) matches DefInfo::Array { len, item } && {
        &&& scalars.len() == len
        &&& readings.len() == len
        &&& len < 0x1000_0000_0000_0000
        &&& is_bare(item)
        &&& forall|j: int|
            0 <= j < readings.len() ==> stored(item, scalars[j]) == Some((#[trigger] readings[j]).op)
    }
    &&& are_in_turn(readings)
}

/// The first `n` items of a list go to the first `n` elements of an array, in that order, unless a
/// call fails.
#[verifier::spinoff_prover]
#[verifier::rlimit(60)]
proof fn lemma_array_items<'input, 'facet>(
    run: Run<'input>,
    start: State,
    r: Result<Progress<'input, 'facet>, DeserError<'input>>,
    shape: &'static Shape,
    scalars: Seq<Scalar<'input>>,
    readings: Seq<Reading>,
    n: int,
)
    requires
        run.carried_out_from(start),
        run.comes_to(r),
        1 < run.answers.len(),
        fits_array(shape, scalars, readings),
        answers_with_items(run, 1, scalars),
        0 <= n <= readings.len(),
        run.states[1].runner.stack.last() is ListItemOrListClose,
        run.states[1].runner.array_indices == seq![0usize],
        run.states[1].log == place_calls(shape, readings, 0),
        partial::depth_at(run.states[1].log) == 1,
        partial::shape_at(run.states[1].log) == shape,
        all_parsed(run.states.last().log),
    ensures
        a_call_failed(run, r) || {
            let k = 1 + 2 * n;
            let log = run.states[k].log;
            &&& k < run.answers.len()
            &&& log == place_calls(shape, readings, n)
            &&& run.states[k].runner.stack == run.states[1].runner.stack
            &&& run.states[k].runner.array_indices == seq![n as usize]
            &&& partial::depth_at(log) == 1
            &&& partial::shape_at(log) == shape
        },
    decreases n,
{
    if n > 0 {
        let m = n - 1;
        lemma_array_items(run, start, r, shape, scalars, readings, m);
        if !a_call_failed(run, r) {
            let k = 1 + 2 * m;
            let log = run.states[k].log;
            let record = run.states[k + 1].log;
            let index = m as usize;
            let at = log.len() as int;
            assert(readings[m].index == m);
            assert(answers_with(run.answers[1 + 2 * m], Outcome::Scalar(scalars[m])));
            lemma_read(run, start, k);
            let read = run.answers[k]->Read_0->Ok_0;
            operation_laws::an_item_begins_the_next_place(
                run.states[k],
                read.node,
                read.span,
                run.defaults[k],
                record,
                index,
            );
            if record[at].err is Some {
                reading_laws::lemma_stops(run, start, r, k);
            } else {
                reading_laws::lemma_effect_of_first(log, record);
                assert(record[at] == partial::done(Op::BeginNthField(index)));
                assert(stores_here(log.push(record[at]), scalars[m], readings[m].op));
                lemma_item_in_place(run, start, r, k, scalars[m], readings[m]);
                if !a_call_failed(run, r) {
                    let after = run.states[k + 2].log;
                    let begun = log.push(partial::done(Op::BeginNthField(index)));
                    let filled = begun.push(partial::done(readings[m].op));
                    assert(readings.take(n).drop_last() =~= readings.take(m));
                    assert(after =~= place_calls(shape, readings, n));
                    assert(filled.drop_last() =~= begun);
                    assert(partial::field_filled(log, index, filled));
                    assert(seq![index].drop_last().push((index + 1) as usize) =~= seq![n as usize]);
                }
            }
        }
    }
}

/// A list of as many scalars as an array has elements is read into the array: the value is built from
/// element 0 taking the first scalar, element 1 the second, and so on, unless a call fails.
pub proof fn a_list_of_scalars_is_read_into_an_array<'input, 'facet>(
    run: Run<'input>,
    input: Seq<u8>,
    source: Seq<char>,
    shape: &'static Shape,
    scalars: Seq<Scalar<'input>>,
    readings: Seq<Reading>,
    r: Result<Progress<'input, 'facet>, DeserError<'input>>,
)
    requires
        is_allocated(shape),
        run.carried_out_from(fresh(input, source, shape)),
        run.comes_to(r),
        fits_array(shape, scalars, readings),
        reading_laws::answers_with_list(run, input, scalars),
        all_parsed(run.states.last().log),
    ensures
        a_call_failed(run, r) || {
            &&& r matches Ok(Progress::Done(value)) && partial::built_from(value) == all_done(
                seq![Op::AllocShape(shape)],
            ) + reading_laws::reading_calls(readings)
            &&& run.answers.len() == 2 * readings.len() + 3
        },
{
    let start = fresh(input, source, shape);
    let log = start.log;
    let top = Instruction::Pop(PopReason::TopLevel);
    let item = Instruction::ListItemOrListClose;
    let n = readings.len() as int;
    assert(run.carried_out(0));
    assert(start.runner.stack.drop_last() =~= seq![top]);
    assert(readings.take(0) =~= Seq::empty());
    assert(readings.take(n) =~= readings);
    assert(log =~= place_calls(shape, readings, 0));
    assert(Seq::<usize>::empty().push(0) =~= seq![0usize]);
    lemma_read(run, start, 0);
    let read = run.answers[0]->Read_0->Ok_0;
    operation_laws::the_start_of_a_list(start, read.span, run.defaults[0], run.states[1].log);
    lemma_made(run.step(0), log, Seq::empty());
    assert(run.states[1].log =~= log);
    reading_laws::lemma_goes_on(run, start, r, 0);
    lemma_array_items(run, start, r, shape, scalars, readings, n);
    if !a_call_failed(run, r) {
        let k = 1 + 2 * n;
        let full = run.states[k].log;
        lemma_read(run, start, k);
        let last = run.answers[k]->Read_0->Ok_0;
        operation_laws::the_end_of_a_list(
            run.states[k],
            last.span,
            run.defaults[k],
            run.states[k + 1].log,
        );
        lemma_made(run.step(k), full, Seq::empty());
        assert(run.states[k + 1].log =~= full);
        assert(seq![top].push(item).drop_last() =~= seq![top]);
        reading_laws::lemma_goes_on(run, start, r, k);
        laws::a_run_keeps_the_input(run, start, k + 1);
        lemma_built(run, start, r, k + 1);
    }
}

} // verus!
