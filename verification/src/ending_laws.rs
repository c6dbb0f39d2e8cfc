//! What the end of a value leads to.
use crate::driver::{self, Answer, Effect, State, Step};
use crate::error::ErrorView;
use crate::instruction::{Instruction, PopReason};
use crate::laws;
use crate::operation_laws::{makes, refuses};
use crate::partial::{self, Call, Fault, Op, VariantFailure};
use crate::pop::{self, DefaultView};
use crate::reading_laws;
use crate::runner::{self, Attempt, RunnerView};
use crate::shape::{self, FieldFlag};
use facet_core::{Field, Shape, Variant};
use facet_reflect::{HeapValue, ReflectError};
use vstd::prelude::*;

verus! {

/// What comes of the next instruction of `state`, where that ends a value.
pub open spec fn on_ending(state: State, default: DefaultView, record: Seq<Call>) -> Step {
    driver::step(state, Answer::Silent, default, record)
}

/// Whether, unless `step` is an error, what is below the next instruction of `before` is due, and
/// nothing else has changed.
pub open spec fn leaves_the_rest(step: Step, before: RunnerView) -> bool {
    &&& !(step.effect is Fail) ==> step.effect is Continue
    &&& step.state.runner == (RunnerView { stack: before.stack.drop_last(), ..before })
}

/// A value without fields, or with all of them set, is ended by one call, and so is any value that a
/// function of its field makes another from, or an enum without a variant and without a default.
pub proof fn a_complete_value_is_ended(
    state: State,
    reason: PopReason,
    default: DefaultView,
    record: Seq<Call>,
)
    requires
        state.runner.stack.len() > 0,
        state.runner.stack.last() == Instruction::Pop(reason),
        !(reason is TopLevel),
        partial::frame_fields(state.log).len() <= usize::MAX,
        ({
            let shape = partial::shape_at(state.log);
            ||| reason is CustomDeserialization
            ||| !(shape::type_info(shape) is Struct) && !(shape::type_info(shape) is Enum)
            ||| shape::type_info(shape) is Struct && partial::all_set(state.log)
            ||| shape::type_info(shape) is Enum && partial::variant_at(state.log) is Some
                && partial::all_set(state.log)
            ||| shape::type_info(shape) is Enum && partial::variant_at(state.log) is None
                && !shape::default_attr(shape)
        }),
    ensures
        makes(on_ending(state, default, record), state.log, seq![Op::End]),
        leaves_the_rest(on_ending(state, default, record), state.runner),
{
    reveal(driver::step);
    if pop::has_fields(state.log) && partial::all_set(state.log) {
        laws::a_complete_value_is_left_alone(state.log, reason, default, record);
    }
}

/// An enum without a variant selected, of a type with a default, is set to that, and ended.
pub proof fn an_enum_without_a_variant_takes_its_default(
    state: State,
    reason: PopReason,
    default: DefaultView,
    record: Seq<Call>,
)
    requires
        state.runner.stack.len() > 0,
        state.runner.stack.last() == Instruction::Pop(reason),
        !(reason is TopLevel),
        !(reason is CustomDeserialization),
        shape::type_info(partial::shape_at(state.log)) is Enum,
        partial::variant_at(state.log) is None,
        shape::default_attr(partial::shape_at(state.log)),
    ensures
        makes(on_ending(state, default, record), state.log, seq![Op::SetDefault, Op::End]),
        leaves_the_rest(on_ending(state, default, record), state.runner),
{
    reveal(driver::step);
}

/// Whether field `index` is not set after the calls `log`.
pub open spec fn is_unset(log: Seq<Call>, index: usize) -> bool {
    partial::field_set_at(log, index) == Ok::<bool, ReflectError>(false)
}

/// A field of a struct or of a selected variant that was not read and has no default is an error,
/// unless its type has a default as a whole: the error names the type, the variant, and the first
/// such field, if no field before it is missing either.
pub proof fn the_missing_field_is_named(
    state: State,
    reason: PopReason,
    index: usize,
    default: DefaultView,
    record: Seq<Call>,
)
    requires
        state.runner.stack.len() > 0,
        state.runner.stack.last() == Instruction::Pop(reason),
        !(reason is CustomDeserialization),
        pop::has_fields(state.log),
        partial::frame_fields(state.log).len() <= usize::MAX,
        !shape::default_attr(partial::shape_at(state.log)),
        index < partial::frame_fields(state.log).len(),
        is_unset(state.log, index),
        forall|i: usize|
            i < index ==> (#[trigger] partial::field_set_at(state.log, i)) == Ok::<
                bool,
                ReflectError,
            >(true),
        forall|i: usize|
            i < partial::frame_fields(state.log).len() ==> (#[trigger] partial::field_set_at(
                state.log,
                i,
            )) is Ok,
        forall|i: int|
            0 <= i < partial::frame_fields(state.log).len() ==> !shape::flagged(
                #[trigger] partial::frame_fields(state.log)[i],
                FieldFlag::Default,
            ),
    ensures
        ({
            let shape = partial::shape_at(state.log);
            let field_name = shape::field_name(partial::frame_fields(state.log)[index as int]);
            let fault = if shape::type_info(shape) is Struct {
                Fault::UninitializedField { shape, field_name }
            } else {
                Fault::UninitializedEnumField {
                    shape,
                    field_name,
                    variant_name: shape::variant_name(partial::variant_at(state.log)->0),
                }
            };
            refuses(
                on_ending(state, default, record),
                state.log,
                ErrorView::ReflectError(partial::fault_error(fault)),
            )
        }),
{
    reveal(driver::step);
    let log = state.log;
    let shape = partial::shape_at(log);
    let fields = partial::frame_fields(log);
    let in_variant = shape::type_info(shape) is Enum;
    let variant = if in_variant {
        partial::variant_at(log)
    } else {
        None
    };
    lemma_none_filled(fields, in_variant, 0, log, false, record);
    assert(is_unset(log, index));
    laws::the_first_missing_field_is_reported(fields, shape, variant, 0, index, log);
}

/// Without defaults none is filled in.
proof fn lemma_none_filled(
    fields: Seq<Field>,
    in_variant: bool,
    index: int,
    log: Seq<Call>,
    missing: bool,
    record: Seq<Call>,
)
    requires
        0 <= index,
        fields.len() <= usize::MAX,
        forall|i: usize|
            i < fields.len() ==> (#[trigger] partial::field_set_at(log, i)) is Ok,
        forall|i: int|
            0 <= i < fields.len() ==> !shape::flagged(#[trigger] fields[i], FieldFlag::Default),
    ensures
        ({
            let filling = pop::defaults_filled(fields, in_variant, index, log, missing, record);
            &&& filling.attempt == Attempt::begin(log)
            &&& filling.missing <==> missing || exists|i: usize|
                index <= i < fields.len() && #[trigger] is_unset(log, i)
        }),
    decreases fields.len() - index,
{
    if index < fields.len() {
        let i = index as usize;
        assert(partial::field_set_at(log, i) is Ok);
        assert(!shape::flagged(fields[index], FieldFlag::Default));
        let now = missing || is_unset(log, i);
        lemma_none_filled(fields, in_variant, index + 1, log, now, record);
        let filling = pop::defaults_filled(fields, in_variant, index, log, missing, record);
        if filling.missing && !missing {
            if !is_unset(log, i) {
                let j = choose|j: usize| index + 1 <= j < fields.len() && #[trigger] is_unset(log, j);
                assert(index <= j < fields.len() && is_unset(log, j));
            }
        }
        if exists|j: usize| index <= j < fields.len() && #[trigger] is_unset(log, j) {
            let j = choose|j: usize| index <= j < fields.len() && #[trigger] is_unset(log, j);
            if j != i {
                assert(index + 1 <= j < fields.len() && is_unset(log, j));
            }
        }
    }
}

/// Whether call number `k` of `made` gives field `index` its default: that one call does in a struct,
/// and in a variant it begins the field, which the next two calls set to its default and end.
pub open spec fn defaults_at(made: Seq<Call>, k: int, index: usize, in_variant: bool) -> bool {
    if in_variant {
        &&& 0 <= k && k + 2 < made.len()
        &&& made[k] == partial::done(Op::BeginNthField(index))
        &&& made[k + 1] == partial::done(Op::SetDefault)
        &&& made[k + 2] == partial::done(Op::End)
    } else {
        &&& 0 <= k < made.len()
        &&& made[k] == partial::done(Op::SetNthFieldToDefault(index))
    }
}

/// Whether the calls `made` from number `from` on give field `index` its default.
pub open spec fn gives_default(made: Seq<Call>, from: int, index: usize, in_variant: bool) -> bool {
    exists|k: int| from <= k && #[trigger] defaults_at(made, k, index, in_variant)
}

/// Every field of a struct, or of a selected variant, that was not read and has a default takes it
/// when the value ends, unless something fails. `record` are the calls that were made.
pub proof fn every_field_with_a_default_takes_it(
    fields: Seq<Field>,
    in_variant: bool,
    index: int,
    log: Seq<Call>,
    missing: bool,
    record: Seq<Call>,
    base: Seq<Call>,
    field: usize,
)
    requires
        0 <= index <= field < fields.len() <= usize::MAX,
        partial::frame_fields(log) == fields,
        is_unset(log, field),
        shape::flagged(fields[field as int], FieldFlag::Default),
        partial::effective(record, base),
        base.len() <= log.len(),
        ({
            let attempt = pop::defaults_filled(
                fields,
                in_variant,
                index,
                log,
                missing,
                record,
            ).attempt;
            attempt.err is None && runner::extends(record, attempt.log)
        }),
    ensures
        gives_default(
            pop::defaults_filled(fields, in_variant, index, log, missing, record).attempt.log,
            log.len() as int,
            field,
            in_variant,
        ),
    decreases fields.len() - index,
{
    let made = pop::defaults_filled(fields, in_variant, index, log, missing, record).attempt.log;
    let i = index as usize;
    match partial::field_set_at(log, i) {
        Err(_) => {},
        Ok(true) => {
            every_field_with_a_default_takes_it(
                fields,
                in_variant,
                index + 1,
                log,
                missing,
                record,
                base,
                field,
            );
        },
        Ok(false) => {
            if !shape::flagged(fields[index], FieldFlag::Default) {
                every_field_with_a_default_takes_it(
                    fields,
                    in_variant,
                    index + 1,
                    log,
                    true,
                    record,
                    base,
                    field,
                );
            } else {
                let given = if in_variant {
                    pop::variant_field_default(log, i, fields[index], record)
                } else {
                    pop::struct_field_default(log, i, record)
                };
                let n = log.len() as int;
                lemma_filling_extends(
                    fields,
                    in_variant,
                    index + 1,
                    given.log,
                    missing,
                    record,
                );
                assert(runner::extends(made, given.log));
                assert(runner::extends(record, given.log)) by {
                    assert forall|j: int| 0 <= j < given.log.len() implies record[j]
                        == given.log[j] by {
                        assert(made[j] == given.log[j]);
                    }
                }
                lemma_given(log, i, fields[index], in_variant, record, base);
                if field == i {
                    assert(made[n] == given.log[n]);
                    if in_variant {
                        assert(made[n + 1] == given.log[n + 1]);
                        assert(made[n + 2] == given.log[n + 2]);
                    }
                    assert(defaults_at(made, n, i, in_variant));
                } else {
                    assert(partial::field_set_at(given.log, field) == partial::field_set_at(
                        log,
                        field,
                    ));
                    every_field_with_a_default_takes_it(
                        fields,
                        in_variant,
                        index + 1,
                        given.log,
                        missing,
                        record,
                        base,
                        field,
                    );
                    let k = choose|k: int|
                        given.log.len() <= k && #[trigger] defaults_at(made, k, field, in_variant);
                    assert(n <= k);
                }
            }
        },
    }
}

/// A field that takes its default is set, and no other.
proof fn lemma_given(
    log: Seq<Call>,
    index: usize,
    field: Field,
    in_variant: bool,
    record: Seq<Call>,
    base: Seq<Call>,
)
    requires
        index < partial::frame_fields(log).len(),
        is_unset(log, index),
        partial::effective(record, base),
        base.len() <= log.len(),
        ({
            let given = if in_variant {
                pop::variant_field_default(log, index, field, record)
            } else {
                pop::struct_field_default(log, index, record)
            };
            given.err is None && runner::extends(record, given.log)
        }),
    ensures
        ({
            let given = if in_variant {
                pop::variant_field_default(log, index, field, record)
            } else {
                pop::struct_field_default(log, index, record)
            };
            &&& partial::only_field_set(log, given.log, index)
            &&& given.log.len() > log.len()
            &&& defaults_at(given.log, log.len() as int, index, in_variant)
        }),
{
    reveal(partial::effective);
    let n = log.len() as int;
    if in_variant {
        let begun = log.push(partial::done(Op::BeginNthField(index)));
        let filled = begun.push(partial::done(Op::SetDefault));
        let given = filled.push(partial::done(Op::End));
        assert(pop::variant_field_default(log, index, field, record).log == given);
        assert(partial::effect(record.take(n + 2), record[n + 2], record.take(n + 3)));
        assert(record.take(n + 2) =~= filled);
        assert(record.take(n + 3) =~= given);
        assert(record[n + 2] == given[n + 2]);
        assert(filled.drop_last() =~= begun);
        assert(partial::field_filled(log, index, filled));
    } else {
        let given = log.push(partial::done(Op::SetNthFieldToDefault(index)));
        assert(pop::struct_field_default(log, index, record).log == given);
        assert(partial::effect(record.take(n), record[n], record.take(n + 1)));
        assert(record.take(n) =~= log);
        assert(record.take(n + 1) =~= given);
        assert(record[n] == given[n]);
    }
}

/// Filling in defaults adds to the calls.
proof fn lemma_filling_extends(
    fields: Seq<Field>,
    in_variant: bool,
    index: int,
    log: Seq<Call>,
    missing: bool,
    record: Seq<Call>,
)
    ensures
        runner::extends(
            pop::defaults_filled(fields, in_variant, index, log, missing, record).attempt.log,
            log,
        ),
    decreases fields.len() - index,
{
    if 0 <= index < fields.len() {
        match partial::field_set_at(log, index as usize) {
            Err(_) => {},
            Ok(true) => {
                lemma_filling_extends(fields, in_variant, index + 1, log, missing, record);
            },
            Ok(false) => {
                let given = if in_variant {
                    pop::variant_field_default(log, index as usize, fields[index], record)
                } else {
                    pop::struct_field_default(log, index as usize, record)
                };
                assert(runner::extends(given.log, log));
                lemma_filling_extends(fields, in_variant, index + 1, given.log, missing, record);
                lemma_filling_extends(fields, in_variant, index + 1, log, true, record);
            },
        }
    }
}

/// The fields of a variant that take a default are those that were not read and have one: a field is
/// begun only where it was not set, and then takes the default of its type. One whose type has none,
/// and that has no default function, is an error.
pub proof fn a_default_of_a_variant_is_for_a_field_that_was_not_read(
    log: Seq<Call>,
    index: usize,
    field: Field,
    record: Seq<Call>,
)
    requires
        partial::frame_fields(log).len() <= partial::MAX_FIELDS,
    ensures
        ({
            let attempt = pop::variant_field_default(log, index, field, record);
            let made = attempt.log;
            let n = log.len() as int;
            &&& runner::extends(made, log)
            &&& made.len() > n
            &&& made[n].op == Op::BeginNthField(index)
            &&& made.len() > n + 1 ==> made[n].err is None && made[n + 1].op is SetDefault
            &&& made.len() > n + 2 ==> made[n + 1].err is None && made[n + 2].op is End
            &&& made.len() <= n + 3
            &&& attempt.err is None ==> made.len() == n + 3 && made[n + 2].err is None
            &&& made[n].err is None && !shape::has_default_fn(field) && !shape::implements_default(
                shape::shape_of_field(field),
            ) ==> made.len() == n + 1 && attempt.err == Some(
                ErrorView::ReflectError(
                    partial::fault_error(
                        Fault::NoDefault { shape: shape::shape_of_field(field) },
                    ),
                ),
            )
            &&& made[n].err is None && (shape::has_default_fn(field) || shape::implements_default(
                shape::shape_of_field(field),
            )) ==> made.len() > n + 1
        }),
{
}

/// Of the fields of a variant only those that were not read and are said to have a default take one.
pub proof fn only_fields_with_a_default_take_one(
    fields: Seq<Field>,
    in_variant: bool,
    index: int,
    log: Seq<Call>,
    missing: bool,
    record: Seq<Call>,
)
    requires
        0 <= index,
        fields.len() <= usize::MAX,
        forall|i: usize|
            index <= i < fields.len() ==> (#[trigger] partial::field_set_at(log, i)) == Ok::<
                bool,
                ReflectError,
            >(true) || (is_unset(log, i) && !shape::flagged(fields[i as int], FieldFlag::Default)),
    ensures
        pop::defaults_filled(fields, in_variant, index, log, missing, record).attempt
            == Attempt::begin(log),
    decreases fields.len() - index,
{
    if index < fields.len() {
        assert(partial::field_set_at(log, index as usize) is Ok);
        let now = missing || is_unset(log, index as usize);
        only_fields_with_a_default_take_one(fields, in_variant, index + 1, log, now, record);
    }
}

/// Every field that is still not set is taken from a default value of the type, unless something
/// fails: from one that is a struct, or of the variant that is selected. One of another variant gives
/// nothing.
pub proof fn every_field_that_is_left_is_taken(
    fields: Seq<Field>,
    index: int,
    log: Seq<Call>,
    source: Seq<Call>,
    record: Seq<Call>,
    base: Seq<Call>,
    field: usize,
)
    requires
        0 <= index <= field < fields.len() <= usize::MAX,
        partial::frame_fields(log) == fields,
        is_unset(log, field),
        partial::effective(record, base),
        base.len() <= log.len(),
        ({
            let attempt = pop::fields_taken(fields, index, log, source, record);
            attempt.err is None && runner::extends(record, attempt.log)
        }),
    ensures
        exists|k: int|
            log.len() <= k < pop::fields_taken(fields, index, log, source, record).log.len() && (
            #[trigger] pop::fields_taken(fields, index, log, source, record).log[k].op matches
                Op::StealNthField(i, _) && i == field),
    decreases fields.len() - index,
{
    let made = pop::fields_taken(fields, index, log, source, record).log;
    let i = index as usize;
    match partial::field_set_at(log, i) {
        Err(_) => {},
        Ok(true) => {
            every_field_that_is_left_is_taken(
                fields,
                index + 1,
                log,
                source,
                record,
                base,
                field,
            );
        },
        Ok(false) => {
            let taken = Attempt::begin(log).call(Op::StealNthField(i, source), record);
            let left = source.push(partial::done(Op::LoseNthField(i)));
            let n = log.len() as int;
            laws::what_is_left_comes_from_the_default_of_the_type(
                fields,
                index + 1,
                taken.log,
                left,
                record,
            );
            assert(runner::extends(made, taken.log));
            assert(made[n] == taken.log[n]);
            assert(record[n] == made[n]);
            if field != i {
                assert(partial::effect(log, taken.log[n], taken.log)) by {
                    reveal(partial::effective);
                    assert forall|j: int| 0 <= j < n implies record[j] == log[j] by {
                        assert(made[j] == taken.log[j]);
                    }
                    assert(partial::effect(record.take(n), record[n], record.take(n + 1)));
                    assert(record.take(n) =~= log);
                    assert(record.take(n + 1) =~= taken.log);
                }
                assert(partial::field_set_at(taken.log, field) == partial::field_set_at(
                    log,
                    field,
                ));
                every_field_that_is_left_is_taken(
                    fields,
                    index + 1,
                    taken.log,
                    left,
                    record,
                    base,
                    field,
                );
                let k = choose|k: int|
                    taken.log.len() <= k < made.len() && (#[trigger] made[k].op matches
                        Op::StealNthField(j, _) && j == field);
                assert(n <= k < made.len() && made[k].op is StealNthField);
            } else {
                assert(made[n].op is StealNthField);
            }
        },
    }
}

/// Whether fields are taken from a default value goes by the names of the variants: they are taken
/// where the two are the same, and where the type is no enum.
pub proof fn a_default_of_another_variant_gives_nothing(
    log: Seq<Call>,
    source: Seq<Call>,
    selected: Variant,
    name: &'static str,
    record: Seq<Call>,
)
    ensures
        partial::variant_at(log) == Some(selected) && shape::variant_name(selected)@ != name@
            ==> pop::default_taken(log, source, Some(name), record) == Attempt::begin(log),
        partial::variant_at(log) == Some(selected) && shape::variant_name(selected)@ == name@
            ==> pop::default_taken(log, source, Some(name), record) == pop::fields_taken(
            partial::frame_fields(log),
            0,
            log,
            source,
            record,
        ),
        pop::default_taken(log, source, None, record) == pop::fields_taken(
            partial::frame_fields(log),
            0,
            log,
            source,
            record,
        ),
{
}

/// A default value of an enum tells its variant by its name. Where it cannot, that is the error.
pub proof fn a_default_value_tells_its_variant(value: HeapValue<'static>, shape: &'static Shape)
    ensures
        !(shape::type_info(shape) is Enum) ==> pop::default_told(value, shape)
            == DefaultView::Ready(None),
        shape::type_info(shape) is Enum && partial::tells_variant(value, shape) ==> match (
            partial::variant_held(value)
        ) {
            Ok(variant) => pop::default_told(value, shape) == DefaultView::Ready(
                Some(shape::variant_name(variant)),
            ),
            Err(VariantFailure::NotAnEnum(e)) => pop::default_told(value, shape)
                == DefaultView::Failed(ErrorView::ReflectError(e)),
            Err(VariantFailure::Unreadable(e)) => pop::default_told(value, shape)
                == DefaultView::Failed(ErrorView::VariantError(e)),
        },
        shape::type_info(shape) is Enum && !partial::tells_variant(value, shape)
            ==> pop::default_told(value, shape) is Failed,
{
}

/// The frames above the first are ended one after the other, by nothing but calls that end one, until
/// one is left or a call fails.
pub proof fn all_frames_but_the_first_are_ended(log: Seq<Call>, record: Seq<Call>)
    ensures
        ({
            let ended = driver::frames_ended(log, record);
            let made = ended.log;
            &&& runner::extends(made, log)
            &&& forall|k: int| log.len() <= k < made.len() ==> (#[trigger] made[k]).op is End
            &&& forall|k: int|
                log.len() <= k < made.len() - 1 ==> (#[trigger] made[k]).err is None
            &&& ended.err is None && made.len() < record.len() ==> partial::depth_at(made) <= 1
            &&& ended.err matches Some(kind) ==> made.len() > log.len() && made.last().err is Some
                && kind == ErrorView::ReflectError(made.last().err->0)
            &&& partial::depth_at(log) <= 1 ==> made == log
        }),
    decreases record.len() - log.len(),
{
    if partial::depth_at(log) > 1 && log.len() < record.len() {
        let ended = Attempt::begin(log).call(Op::End, record);
        if ended.err is None {
            all_frames_but_the_first_are_ended(ended.log, record);
            let made = driver::frames_ended(log, record).log;
            assert(made[log.len() as int] == ended.log[log.len() as int]);
        }
    }
}

/// At the end of the value as a whole, where one frame is left and all its fields are set, or it has
/// none, the value is built by one call, and that is the end, unless there is input left: that is an
/// error.
pub proof fn a_complete_value_is_built(
    state: State,
    default: DefaultView,
    record: Seq<Call>,
)
    requires
        state.runner.stack.len() > 0,
        state.runner.stack.last() == Instruction::Pop(PopReason::TopLevel),
        partial::frame_fields(state.log).len() <= usize::MAX,
        partial::depth_at(state.log) == 1,
        ({
            let shape = partial::shape_at(state.log);
            ||| !(shape::type_info(shape) is Struct) && !(shape::type_info(shape) is Enum)
            ||| pop::has_fields(state.log) && partial::all_set(state.log)
        }),
    ensures
        ({
            let step = on_ending(state, default, record);
            let last = state.runner.last_span;
            if last.start + last.len < state.runner.input.len() {
                refuses(step, state.log, ErrorView::InputLeft)
            } else {
                &&& makes(step, state.log, seq![Op::Build])
                &&& step.effect is Finish || step.effect is Fail
            }
        }),
{
    reveal(driver::step);
    if pop::has_fields(state.log) && partial::all_set(state.log) {
        laws::a_complete_value_is_left_alone(
            state.log,
            PopReason::TopLevel,
            default,
            record,
        );
    }
}

/// Whether field `index` of `fields`, after the calls `log`, has to come from a default value of the
/// whole type: it was not read, and is not said to have a default of its own.
pub open spec fn is_owed(log: Seq<Call>, fields: Seq<Field>, index: usize) -> bool {
    is_unset(log, index) && !shape::flagged(fields[index as int], FieldFlag::Default)
}

/// Whether it can be told of each of `fields` whether it is set.
pub open spec fn all_told(log: Seq<Call>, fields: Seq<Field>) -> bool {
    forall|i: usize| i < fields.len() ==> (#[trigger] partial::field_set_at(log, i)) is Ok
}

/// Filling in defaults sets the fields that have one, and no other, unless a call fails.
proof fn lemma_filled(
    fields: Seq<Field>,
    in_variant: bool,
    index: int,
    log: Seq<Call>,
    missing: bool,
    record: Seq<Call>,
    base: Seq<Call>,
)
    requires
        0 <= index <= fields.len() <= partial::MAX_FIELDS,
        partial::frame_fields(log) == fields,
        all_told(log, fields),
        forall|i: int|
            0 <= i < fields.len() && shape::flagged(#[trigger] fields[i], FieldFlag::Default) ==> (
            shape::has_default_fn(fields[i]) || shape::implements_default(
                shape::shape_of_field(fields[i]),
            )),
        partial::effective(record, base),
        base.len() <= log.len(),
        runner::extends(
            record,
            pop::defaults_filled(fields, in_variant, index, log, missing, record).attempt.log,
        ),
    ensures
        ({
            let filling = pop::defaults_filled(fields, in_variant, index, log, missing, record);
            let made = filling.attempt.log;
            if filling.attempt.err is Some {
                made.len() > log.len() && made.last().err is Some && filling.attempt.err == Some(
                    ErrorView::ReflectError(made.last().err->0),
                )
            } else {
                &&& made == log || made.last().err is None
                &&& partial::frame_fields(made) == fields
                &&& partial::shape_at(made) == partial::shape_at(log)
                &&& partial::variant_at(made) == partial::variant_at(log)
                &&& all_told(made, fields)
                &&& forall|i: usize|
                    i < fields.len() ==> (#[trigger] is_unset(made, i)) == (is_unset(log, i) && (i
                        < index || is_owed(log, fields, i)))
                &&& filling.missing <==> missing || exists|i: usize|
                    index <= i < fields.len() && #[trigger] is_owed(log, fields, i)
            }
        }),
    decreases fields.len() - index,
{
    if index < fields.len() {
        let i = index as usize;
        assert(partial::field_set_at(log, i) is Ok);
        let filling = pop::defaults_filled(fields, in_variant, index, log, missing, record);
        let made = filling.attempt.log;
        if is_unset(log, i) && shape::flagged(fields[index], FieldFlag::Default) {
            let given = if in_variant {
                pop::variant_field_default(log, i, fields[index], record)
            } else {
                pop::struct_field_default(log, i, record)
            };
            if given.err is None {
                lemma_filling_extends(fields, in_variant, index + 1, given.log, missing, record);
                assert(runner::extends(made, given.log));
                assert(runner::extends(record, given.log)) by {
                    assert forall|j: int| 0 <= j < given.log.len() implies record[j]
                        == given.log[j] by {
                        assert(made[j] == given.log[j]);
                    }
                }
                lemma_given(log, i, fields[index], in_variant, record, base);
                assert(all_told(given.log, fields)) by {
                    assert forall|j: usize| j < fields.len() implies (
                    #[trigger] partial::field_set_at(given.log, j)) is Ok by {
                        assert(partial::field_set_at(log, j) is Ok);
                    }
                }
                lemma_filled(fields, in_variant, index + 1, given.log, missing, record, base);
                assert forall|j: usize| j < fields.len() implies is_unset(given.log, j) == (is_unset(
                    log,
                    j,
                ) && j != i) by {
                    if j != i {
                        assert(partial::field_set_at(given.log, j) == partial::field_set_at(log, j));
                    }
                }
                if filling.attempt.err is None {
                    assert forall|j: usize| j < fields.len() implies (#[trigger] is_unset(made, j))
                        == (is_unset(log, j) && (j < index || is_owed(log, fields, j))) by {
                        assert(is_unset(made, j) == (is_unset(given.log, j) && (j < index + 1
                            || is_owed(given.log, fields, j))));
                    }
                    lemma_owed_alike(log, given.log, fields, index, index + 1);
                }
            }
        } else {
            let now = missing || is_unset(log, i);
            assert(filling == pop::defaults_filled(
                fields,
                in_variant,
                index + 1,
                log,
                now,
                record,
            ));
            lemma_filled(fields, in_variant, index + 1, log, now, record, base);
            if filling.attempt.err is None {
                assert forall|j: usize| j < fields.len() implies (#[trigger] is_unset(made, j)) == (
                is_unset(log, j) && (j < index || is_owed(log, fields, j))) by {
                    assert(is_unset(made, j) == (is_unset(log, j) && (j < index + 1 || is_owed(
                        log,
                        fields,
                        j,
                    ))));
                }
                lemma_owed_from(log, fields, index);
            }
        }
    }
}

/// The fields that are owed from an index on are those from the next on, and perhaps that one.
proof fn lemma_owed_from(log: Seq<Call>, fields: Seq<Field>, index: int)
    requires
        0 <= index < fields.len() <= usize::MAX,
    ensures
        (exists|i: usize| index <= i < fields.len() && #[trigger] is_owed(log, fields, i)) <==> (
        is_owed(log, fields, index as usize) || exists|i: usize|
            index + 1 <= i < fields.len() && #[trigger] is_owed(log, fields, i)),
{
    if exists|i: usize| index <= i < fields.len() && #[trigger] is_owed(log, fields, i) {
        let i = choose|i: usize| index <= i < fields.len() && #[trigger] is_owed(log, fields, i);
        if i != index {
            assert(index + 1 <= i < fields.len() && is_owed(log, fields, i));
        }
    }
    if is_owed(log, fields, index as usize) {
        let i = index as usize;
        assert(index <= i < fields.len() && is_owed(log, fields, i));
    }
    if exists|i: usize| index + 1 <= i < fields.len() && #[trigger] is_owed(log, fields, i) {
        let i = choose|i: usize|
            index + 1 <= i < fields.len() && #[trigger] is_owed(log, fields, i);
        assert(index <= i < fields.len() && is_owed(log, fields, i));
    }
}

/// A field that takes its default changes nothing about which others are owed.
proof fn lemma_owed_alike(
    log: Seq<Call>,
    given: Seq<Call>,
    fields: Seq<Field>,
    index: int,
    next: int,
)
    requires
        0 <= index < fields.len() <= usize::MAX,
        next == index + 1,
        shape::flagged(fields[index], FieldFlag::Default),
        forall|j: usize|
            j < fields.len() ==> #[trigger] is_unset(given, j) == (is_unset(log, j) && j != index),
    ensures
        (exists|i: usize| next <= i < fields.len() && #[trigger] is_owed(given, fields, i)) <==> (
        exists|i: usize| index <= i < fields.len() && #[trigger] is_owed(log, fields, i)),
{
    if exists|i: usize| next <= i < fields.len() && #[trigger] is_owed(given, fields, i) {
        let i = choose|i: usize| next <= i < fields.len() && #[trigger] is_owed(given, fields, i);
        assert(is_unset(given, i));
        assert(index <= i < fields.len() && is_owed(log, fields, i));
    }
    if exists|i: usize| index <= i < fields.len() && #[trigger] is_owed(log, fields, i) {
        let i = choose|i: usize| index <= i < fields.len() && #[trigger] is_owed(log, fields, i);
        assert(is_unset(given, i) == (is_unset(log, i) && i != index));
        assert(next <= i < fields.len() && is_owed(given, fields, i));
    }
}

/// Taking fields from a default value fails only where a call does.
proof fn lemma_taken(
    fields: Seq<Field>,
    index: int,
    log: Seq<Call>,
    source: Seq<Call>,
    record: Seq<Call>,
    base: Seq<Call>,
)
    requires
        0 <= index <= fields.len() <= partial::MAX_FIELDS,
        partial::frame_fields(log) == fields,
        all_told(log, fields),
        partial::effective(record, base),
        base.len() <= log.len(),
        runner::extends(record, pop::fields_taken(fields, index, log, source, record).log),
    ensures
        ({
            let taken = pop::fields_taken(fields, index, log, source, record);
            taken.err is Some ==> taken.log.len() > log.len() && taken.log.last().err is Some
        }),
    decreases fields.len() - index,
{
    if index < fields.len() {
        let i = index as usize;
        assert(partial::field_set_at(log, i) is Ok);
        if is_unset(log, i) {
            let call = Attempt::begin(log).call(Op::StealNthField(i, source), record);
            let left = source.push(partial::done(Op::LoseNthField(i)));
            if call.err is None {
                let made = pop::fields_taken(fields, index, log, source, record).log;
                let n = log.len() as int;
                laws::what_is_left_comes_from_the_default_of_the_type(
                    fields,
                    index + 1,
                    call.log,
                    left,
                    record,
                );
                assert(made[n] == call.log[n]);
                assert(record[n] == made[n]);
                assert(runner::extends(record, log)) by {
                    assert forall|j: int| 0 <= j < log.len() implies record[j] == log[j] by {
                        assert(made[j] == call.log[j]);
                    }
                }
                reading_laws::lemma_effect_at(log, record, base);
                assert(log.push(record[n]) =~= call.log);
                assert(all_told(call.log, fields)) by {
                    assert forall|j: usize| j < fields.len() implies (
                    #[trigger] partial::field_set_at(call.log, j)) is Ok by {
                        assert(partial::field_set_at(log, j) is Ok);
                    }
                }
                lemma_taken(fields, index + 1, call.log, left, record, base);
            }
        } else {
            lemma_taken(fields, index + 1, log, source, record, base);
        }
    }
}

/// Whether the last call of `record`, after the calls `log`, failed.
pub open spec fn ends_in_a_failed_call(record: Seq<Call>, log: Seq<Call>) -> bool {
    record.len() > log.len() && record.last().err is Some
}

/// What the end of a struct, or of a selected variant, comes to, unless a call fails. Where each field
/// was read or has a default, it is no error. Where one is missing, its type has to have a default as
/// a whole: if it has none, the error names the first field that is missing; if there is an error on
/// the way to a default value, that is the error; if there is a default value, it is no error. (At the
/// end of the value as a whole, input that is left is an error too.)
pub proof fn what_the_end_of_a_value_comes_to(
    state: State,
    reason: PopReason,
    index: usize,
    default: DefaultView,
    record: Seq<Call>,
)
    requires
        state.runner.stack.len() > 0,
        state.runner.stack.last() == Instruction::Pop(reason),
        !(reason is CustomDeserialization),
        pop::has_fields(state.log),
        partial::frame_fields(state.log).len() <= partial::MAX_FIELDS,
        all_told(state.log, partial::frame_fields(state.log)),
        forall|i: int|
            0 <= i < partial::frame_fields(state.log).len() && shape::flagged(
                #[trigger] partial::frame_fields(state.log)[i],
                FieldFlag::Default,
            ) ==> (shape::has_default_fn(partial::frame_fields(state.log)[i])
                || shape::implements_default(
                shape::shape_of_field(partial::frame_fields(state.log)[i]),
            )),
        on_ending(state, default, record).state.log == record,
        partial::effective(record, state.log),
    ensures
        ({
            let step = on_ending(state, default, record);
            let fields = partial::frame_fields(state.log);
            let shape = partial::shape_at(state.log);
            let owed = exists|i: usize| i < fields.len() && #[trigger] is_owed(state.log, fields, i);
            let first = index < fields.len() && is_owed(state.log, fields, index) && forall|
                i: usize,
            | i < index ==> !#[trigger] is_owed(state.log, fields, i);
            let field_name = shape::field_name(fields[index as int]);
            ends_in_a_failed_call(record, state.log) || {
                &&& first && !shape::default_attr(shape) ==> step.effect == Effect::Fail(
                    ErrorView::ReflectError(
                        partial::fault_error(
                            if shape::type_info(shape) is Struct {
                                Fault::UninitializedField { shape, field_name }
                            } else {
                                Fault::UninitializedEnumField {
                                    shape,
                                    field_name,
                                    variant_name: shape::variant_name(
                                        partial::variant_at(state.log)->0,
                                    ),
                                }
                            },
                        ),
                    ),
                )
                &&& owed && shape::default_attr(shape) ==> (default matches DefaultView::Failed(
                    kind,
                ) ==> step.effect == Effect::Fail(kind))
                &&& !owed || (shape::default_attr(shape) && default is Ready) ==> {
                    ||| !(step.effect is Fail)
                    ||| reason is TopLevel && step.effect == Effect::Fail(ErrorView::InputLeft)
                }
            }
        }),
{
    reveal(driver::step);
    let log = state.log;
    let shape = partial::shape_at(log);
    let fields = partial::frame_fields(log);
    let in_variant = shape::type_info(shape) is Enum;
    let variant = if in_variant {
        partial::variant_at(log)
    } else {
        None
    };
    let filling = pop::defaults_filled(fields, in_variant, 0, log, false, record);
    let made = filling.attempt.log;
    let settled = pop::pop_attempt(log, reason, default, record);
    let source = partial::default_calls(shape);
    let step = on_ending(state, default, record);
    assert(pop::completed(log, reason, record) == pop::fields_completed(
        fields,
        variant,
        log,
        record,
    ));
    reading_laws::lemma_fields_taken_extend(
        partial::frame_fields(made),
        0,
        made,
        source,
        record,
    );
    lemma_filling_extends(fields, in_variant, 0, log, false, record);
    assert(runner::extends(settled.log, made));
    all_frames_but_the_first_are_ended(settled.log, record);
    assert(runner::extends(record, settled.log));
    assert(runner::extends(record, made)) by {
        assert forall|j: int| 0 <= j < made.len() implies record[j] == made[j] by {
            assert(settled.log[j] == made[j]);
        }
    }
    lemma_filled(fields, in_variant, 0, log, false, record, log);
    if filling.attempt.err is None {
        if filling.missing && shape::default_attr(shape) && default is Ready {
            if pop::same_variant(made, default->Ready_0) {
                lemma_taken(fields, 0, made, source, record, log);
            }
        }
        if filling.missing && !shape::default_attr(shape) {
            lemma_first_owed(log, made, fields, shape, variant, index);
        }
    }
}

/// The first field that is owed is the one that is reported as missing.
proof fn lemma_first_owed(
    log: Seq<Call>,
    made: Seq<Call>,
    fields: Seq<Field>,
    shape: &'static Shape,
    variant: Option<Variant>,
    index: usize,
)
    requires
        fields.len() <= usize::MAX,
        all_told(made, fields),
        forall|i: usize|
            i < fields.len() ==> (#[trigger] is_unset(made, i)) == (is_unset(log, i) && is_owed(
                log,
                fields,
                i,
            )),
    ensures
        index < fields.len() && is_owed(log, fields, index) && (forall|i: usize|
            i < index ==> !#[trigger] is_owed(log, fields, i)) ==> pop::first_missing(
            fields,
            shape,
            variant,
            0,
            made,
        ) == Some(
            ErrorView::ReflectError(
                partial::fault_error(pop::missing_field(fields[index as int], shape, variant)),
            ),
        ),
{
    if index < fields.len() && is_owed(log, fields, index) && (forall|i: usize|
        i < index ==> !#[trigger] is_owed(log, fields, i)) {
        assert(is_unset(made, index));
        assert forall|i: usize| 0 <= i < index implies (#[trigger] partial::field_set_at(made, i))
            == Ok::<bool, ReflectError>(true) by {
            assert(!is_owed(log, fields, i));
            assert(!is_unset(made, i));
            match partial::field_set_at(made, i) {
                Ok(set) => {
                    assert(set);
                },
                Err(_) => {
                    assert(partial::field_set_at(made, i) is Ok);
                },
            }
        }
        laws::the_first_missing_field_is_reported(fields, shape, variant, 0, index, made);
    }
}

/// What comes of making a default value of a type. It is the error with which the type is not
/// allocated, or that it has no default. If the type has no invariants and is no enum, it is a value
/// without a variant. If not, the value is built from nothing but its default: if that is refused,
/// that is the error, and if it is an enum, its variant is told.
pub proof fn a_default_value_is_made_from_the_default(default: DefaultView, shape: &'static Shape)
    requires
        pop::default_possible(default, shape),
    ensures
        partial::alloc_refusal(shape) matches Some(e) ==> default == DefaultView::Failed(
            ErrorView::ReflectError(e),
        ),
        partial::alloc_refusal(shape) is None && !shape::implements_default(shape) ==> default
            == DefaultView::Failed(
            ErrorView::ReflectError(
                partial::fault_error(
                    Fault::OperationFailed { shape, operation: "type does not implement Default" },
                ),
            ),
        ),
        partial::alloc_refusal(shape) is None && shape::implements_default(shape)
            && !shape::has_invariants(shape) && !(shape::type_info(shape) is Enum) ==> default
            == DefaultView::Ready(None),
        default is Ready && (shape::has_invariants(shape) || shape::type_info(shape) is Enum)
            ==> exists|value: HeapValue<'static>|
            {
                &&& #[trigger] partial::built_from(value) == seq![
                    partial::done(Op::AllocShape(shape)),
                    partial::done(Op::SetDefault),
                ]
                &&& !(shape::type_info(shape) is Enum) ==> default == DefaultView::Ready(None)
                &&& shape::type_info(shape) is Enum ==> (partial::variant_held(value) matches Ok(
                    variant,
                ) && default == DefaultView::Ready(Some(shape::variant_name(variant))))
            },
{
    if default is Ready && (shape::has_invariants(shape) || shape::type_info(shape) is Enum) {
        let value = choose|value: HeapValue<'static>| #[trigger]
            pop::is_default_value(value, shape) && default == pop::default_told(value, shape);
        assert(partial::built_from(value) == seq![
            partial::done(Op::AllocShape(shape)),
            partial::done(Op::SetDefault),
        ]);
    }
}

/// A default value is taken from as it was made: each field that is left is moved out of it, one after
/// the other.
pub proof fn a_field_is_taken_from_what_is_left_of_the_default(
    fields: Seq<Field>,
    index: int,
    log: Seq<Call>,
    source: Seq<Call>,
    record: Seq<Call>,
)
    requires
        0 <= index < fields.len() <= usize::MAX,
        partial::frame_fields(log).len() <= 63,
        is_unset(log, index as usize),
    ensures
        ({
            let made = pop::fields_taken(fields, index, log, source, record).log;
            let n = log.len() as int;
            &&& made.len() > n
            &&& made[n].op == Op::StealNthField(index as usize, source)
            &&& made.len() > n + 1 ==> (made[n + 1].op matches Op::StealNthField(_, from) && from
                == source.push(partial::done(Op::LoseNthField(index as usize))))
        }),
{
    let taken = Attempt::begin(log).call(Op::StealNthField(index as usize, source), record);
    let left = source.push(partial::done(Op::LoseNthField(index as usize)));
    laws::what_is_left_comes_from_the_default_of_the_type(
        fields,
        index + 1,
        taken.log,
        left,
        record,
    );
    lemma_taken_first(fields, index + 1, taken.log, left, record);
    let made = pop::fields_taken(fields, index, log, source, record).log;
    if taken.err is None {
        assert(made[log.len() as int] == taken.log[log.len() as int]);
    }
}

/// The first field that is taken is taken from the value as it is.
proof fn lemma_taken_first(
    fields: Seq<Field>,
    index: int,
    log: Seq<Call>,
    source: Seq<Call>,
    record: Seq<Call>,
)
    requires
        0 <= index,
        fields.len() <= usize::MAX,
    ensures
        ({
            let made = pop::fields_taken(fields, index, log, source, record).log;
            made.len() > log.len() ==> (made[log.len() as int].op matches Op::StealNthField(_, from)
                && from == source)
        }),
    decreases fields.len() - index,
{
    if index < fields.len() {
        if is_unset(log, index as usize) {
            let taken = Attempt::begin(log).call(
                Op::StealNthField(index as usize, source),
                record,
            );
            let left = source.push(partial::done(Op::LoseNthField(index as usize)));
            laws::what_is_left_comes_from_the_default_of_the_type(
                fields,
                index + 1,
                taken.log,
                left,
                record,
            );
            let made = pop::fields_taken(fields, index, log, source, record).log;
            if made.len() > log.len() {
                assert(made[log.len() as int] == taken.log[log.len() as int]);
            }
        } else {
            lemma_taken_first(fields, index + 1, log, source, record);
        }
    }
}

} // verus!
