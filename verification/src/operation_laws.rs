//! What each thing that is read leads to, one instruction at a time: which calls are made on the
//! value, and what is due next.
use crate::driver::{self, Answer, Effect, State, Step};
use crate::error::ErrorView;
use crate::instruction::{Instruction, PopReason, ValueReason};
use crate::laws;
use crate::list;
use crate::object;
use crate::partial::{self, Call, Fault, Op, TextView};
use crate::pop::{self, DefaultView};
use crate::runner::{self, Attempt, RunnerView};
use crate::scalar::{Outcome, Scalar};
use crate::scalar_value;
use crate::shape::{self, DefInfo, FieldFlag, KnownType, TypeInfo};
use crate::span::{Span, Spanned};
use crate::stack_laws;
use crate::value;
use facet_core::{Field, Shape, Variant};
use facet_reflect::ReflectError;
use std::borrow::Cow;
use vstd::prelude::*;

verus! {

/// What comes of the next instruction of `state` where the format reads `outcome` at `span`.
pub open spec fn on_reading(
    state: State,
    outcome: Outcome<'_>,
    span: Span,
    default: DefaultView,
    record: Seq<Call>,
) -> Step {
    driver::step(state, Answer::Read(Ok(Spanned { node: outcome, span })), default, record)
}

/// Whether the calls of `step`, after the calls `log`, are `ops`, one after the other, up to the
/// first that fails: that is then the error.
pub open spec fn makes(step: Step, log: Seq<Call>, ops: Seq<Op>) -> bool {
    let made = step.state.log;
    let n = made.len() - log.len();
    &&& runner::extends(made, log)
    &&& 0 <= n <= ops.len()
    &&& forall|i: int| 0 <= i < n ==> (#[trigger] made[log.len() + i]).op == ops[i]
    &&& forall|i: int| 0 <= i < n - 1 ==> (#[trigger] made[log.len() + i]).err is None
    &&& match step.effect {
        Effect::Fail(kind) => n > 0 && made.last().err is Some && kind == ErrorView::ReflectError(
            made.last().err->0,
        ),
        _ => n == ops.len() && (n > 0 ==> made.last().err is None),
    }
}

/// Whether `step` makes no call, and is the error `kind`.
pub open spec fn refuses(step: Step, log: Seq<Call>, kind: ErrorView) -> bool {
    step.state.log == log && step.effect == Effect::Fail(kind)
}

/// Whether, unless `step` is an error, `stack` is due next, at the place `span`, and nothing else of
/// `before` has changed.
pub open spec fn is_followed_by(
    step: Step,
    before: RunnerView,
    span: Span,
    stack: Seq<Instruction>,
) -> bool {
    !(step.effect is Fail) ==> step.effect is Continue && step.state.runner == (RunnerView {
        stack,
        last_span: span,
        ..before
    })
}

/// Whether field `index` is the first of `fields` with the name `name`.
pub open spec fn first_named(fields: Seq<Field>, name: Seq<char>, index: int) -> bool {
    &&& 0 <= index < fields.len()
    &&& shape::field_name(fields[index])@ == name
    &&& forall|i: int| 0 <= i < index ==> shape::field_name(#[trigger] fields[i])@ != name
}

/// Whether none of `fields` has the name `name`.
pub open spec fn none_named(fields: Seq<Field>, name: Seq<char>) -> bool {
    forall|i: int| 0 <= i < fields.len() ==> shape::field_name(#[trigger] fields[i])@ != name
}

/// Whether variant `index` is the first of `variants` with the name `name`.
pub open spec fn first_variant_named(variants: Seq<Variant>, name: Seq<char>, index: int) -> bool {
    &&& 0 <= index < variants.len()
    &&& shape::variant_name(variants[index])@ == name
    &&& forall|i: int| 0 <= i < index ==> shape::variant_name(#[trigger] variants[i])@ != name
}

/// Whether none of `variants` has the name `name`.
pub open spec fn no_variant_named(variants: Seq<Variant>, name: Seq<char>) -> bool {
    forall|i: int| 0 <= i < variants.len() ==> shape::variant_name(#[trigger] variants[i])@ != name
}

/// A field is found by its name just where it is the first of that name.
pub proof fn a_field_is_found_by_its_name(fields: Seq<Field>, name: Seq<char>, index: int)
    requires
        fields.len() <= usize::MAX,
    ensures
        first_named(fields, name, index) ==> partial::field_named(fields, name, 0) == Some(
            index as usize,
        ),
        none_named(fields, name) <==> partial::field_named(fields, name, 0) is None,
        partial::field_named(fields, name, 0) matches Some(found) ==> first_named(
            fields,
            name,
            found as int,
        ),
{
    lemma_field_from(fields, name, 0);
}

/// A field is found from an index on just where it is the first of that name from there on.
proof fn lemma_field_from(fields: Seq<Field>, name: Seq<char>, from: int)
    requires
        0 <= from <= fields.len() <= usize::MAX,
    ensures
        match partial::field_named(fields, name, from) {
            Some(found) => {
                &&& from <= found < fields.len()
                &&& shape::field_name(fields[found as int])@ == name
                &&& forall|i: int|
                    from <= i < found ==> shape::field_name(#[trigger] fields[i])@ != name
            },
            None => forall|i: int|
                from <= i < fields.len() ==> shape::field_name(#[trigger] fields[i])@ != name,
        },
    decreases fields.len() - from,
{
    if from < fields.len() && shape::field_name(fields[from])@ != name {
        lemma_field_from(fields, name, from + 1);
    }
}

/// A variant is found by its name just where it is the first of that name.
pub proof fn a_variant_is_found_by_its_name(variants: Seq<Variant>, name: Seq<char>, index: int)
    requires
        variants.len() <= usize::MAX,
    ensures
        first_variant_named(variants, name, index) ==> partial::variant_named(variants, name, 0)
            == Some((index as usize, variants[index])),
        no_variant_named(variants, name) <==> partial::variant_named(variants, name, 0) is None,
{
    lemma_variant_from(variants, name, 0);
}

/// A variant is found from an index on just where it is the first of that name from there on.
proof fn lemma_variant_from(variants: Seq<Variant>, name: Seq<char>, from: int)
    requires
        0 <= from <= variants.len() <= usize::MAX,
    ensures
        match partial::variant_named(variants, name, from) {
            Some((found, variant)) => {
                &&& from <= found < variants.len()
                &&& variant == variants[found as int]
                &&& shape::variant_name(variants[found as int])@ == name
                &&& forall|i: int|
                    from <= i < found ==> shape::variant_name(#[trigger] variants[i])@ != name
            },
            None => forall|i: int|
                from <= i < variants.len() ==> shape::variant_name(#[trigger] variants[i])@ != name,
        },
    decreases variants.len() - from,
{
    if from < variants.len() && shape::variant_name(variants[from])@ != name {
        lemma_variant_from(variants, name, from + 1);
    }
}

/// The outcome that is the key `key`.
pub open spec fn key(key: Cow<'_, str>) -> Outcome<'_> {
    Outcome::Scalar(Scalar::String(key))
}

/// The instructions after a key whose value goes into a frame of its own: the value is read, its
/// frame is ended, and the next key is due.
pub open spec fn then_value_then_end(below: Seq<Instruction>) -> Seq<Instruction> {
    below.push(Instruction::ObjectKeyOrObjectClose).push(
        Instruction::Pop(PopReason::ObjectVal),
    ).push(Instruction::Value(ValueReason::ObjectVal))
}

/// A key that is the name of a field of a struct begins that field, and nothing else, and its value
/// goes there.
pub proof fn a_key_of_a_struct_begins_its_field(
    state: State,
    name: Cow<'_, str>,
    span: Span,
    index: int,
    default: DefaultView,
    record: Seq<Call>,
)
    requires
        state.runner.stack.len() > 0,
        state.runner.stack.last() is ObjectKeyOrObjectClose,
        shape::type_info(partial::shape_at(state.log)) matches TypeInfo::Struct(st) && {
            &&& shape::fields_of(st)@.len() <= partial::MAX_FIELDS
            &&& first_named(shape::fields_of(st)@, name@, index)
        },
    ensures
        ({
            let step = on_reading(state, key(name), span, default, record);
            &&& makes(step, state.log, seq![Op::BeginNthField(index as usize)])
            &&& is_followed_by(
                step,
                state.runner,
                span,
                then_value_then_end(state.runner.stack.drop_last()),
            )
        }),
{
    reveal(driver::step);
    a_field_is_found_by_its_name(partial::frame_fields(state.log), name@, index);
}

/// A key that is the name of a field of the selected variant of an enum, and not of a variant, begins
/// that field, and nothing else, and its value goes there.
pub proof fn a_key_of_the_selected_variant_begins_its_field(
    state: State,
    name: Cow<'_, str>,
    span: Span,
    variant: Variant,
    index: int,
    default: DefaultView,
    record: Seq<Call>,
)
    requires
        state.runner.stack.len() > 0,
        state.runner.stack.last() is ObjectKeyOrObjectClose,
        shape::type_info(partial::shape_at(state.log)) is Enum,
        shape::variants_of(partial::shape_at(state.log)).len() <= usize::MAX,
        no_variant_named(shape::variants_of(partial::shape_at(state.log)), name@),
        partial::variant_at(state.log) == Some(variant),
        shape::fields_of(shape::data_of(variant))@.len() <= partial::MAX_FIELDS,
        first_named(shape::fields_of(shape::data_of(variant))@, name@, index),
    ensures
        ({
            let step = on_reading(state, key(name), span, default, record);
            &&& makes(step, state.log, seq![Op::BeginNthField(index as usize)])
            &&& is_followed_by(
                step,
                state.runner,
                span,
                then_value_then_end(state.runner.stack.drop_last()),
            )
        }),
{
    reveal(driver::step);
    a_field_is_found_by_its_name(partial::frame_fields(state.log), name@, index);
    a_variant_is_found_by_its_name(
        shape::variants_of(partial::shape_at(state.log)),
        name@,
        index,
    );
}

/// A key that is the name of a variant selects that variant. If the variant is a tuple of one field,
/// that field is begun, and the value goes there; if not, the value goes into the enum itself.
pub proof fn a_key_of_an_enum_selects_its_variant(
    state: State,
    name: Cow<'_, str>,
    span: Span,
    index: int,
    default: DefaultView,
    record: Seq<Call>,
)
    requires
        state.runner.stack.len() > 0,
        state.runner.stack.last() is ObjectKeyOrObjectClose,
        shape::type_info(partial::shape_at(state.log)) is Enum,
        shape::variants_of(partial::shape_at(state.log)).len() <= usize::MAX,
        first_variant_named(shape::variants_of(partial::shape_at(state.log)), name@, index),
        shape::fields_of(
            shape::data_of(shape::variants_of(partial::shape_at(state.log))[index]),
        )@.len() <= partial::MAX_FIELDS,
        partial::frame_fields(
            state.log.push(partial::done(Op::SelectNthVariant(index as usize))),
        ).len() <= partial::MAX_FIELDS,
    ensures
        ({
            let step = on_reading(state, key(name), span, default, record);
            let data = shape::data_of(shape::variants_of(partial::shape_at(state.log))[index]);
            let below = state.runner.stack.drop_last();
            let select = Op::SelectNthVariant(index as usize);
            if shape::kind_of(data) is Tuple && shape::fields_of(data)@.len() == 1 {
                &&& makes(step, state.log, seq![select, Op::BeginNthField(0)])
                &&& is_followed_by(
                    step,
                    state.runner,
                    span,
                    below.push(Instruction::Pop(PopReason::ObjectVal)).push(
                        Instruction::ObjectKeyOrObjectClose,
                    ).push(Instruction::Value(ValueReason::ObjectVal)),
                )
            } else {
                &&& makes(step, state.log, seq![select])
                &&& is_followed_by(
                    step,
                    state.runner,
                    span,
                    below.push(Instruction::ObjectKeyOrObjectClose).push(
                        Instruction::Value(ValueReason::ObjectVal),
                    ),
                )
            }
        }),
{
    reveal(driver::step);
    a_variant_is_found_by_its_name(
        shape::variants_of(partial::shape_at(state.log)),
        name@,
        index,
    );
    let start = Attempt::begin(state.log);
    let selected = start.call(Op::SelectNthVariant(index as usize), record);
    if selected.err is None {
        assert(selected.log == state.log.push(
            partial::done(Op::SelectNthVariant(index as usize)),
        ));
    }
}

/// A key that is the name neither of a variant nor of a field of the selected one is an error if no
/// variant is selected, or if the type denies such keys; if not, its value is skipped.
pub proof fn a_key_that_an_enum_does_not_know(
    state: State,
    name: Cow<'_, str>,
    span: Span,
    default: DefaultView,
    record: Seq<Call>,
)
    requires
        state.runner.stack.len() > 0,
        state.runner.stack.last() is ObjectKeyOrObjectClose,
        shape::type_info(partial::shape_at(state.log)) is Enum,
        shape::variants_of(partial::shape_at(state.log)).len() <= usize::MAX,
        no_variant_named(shape::variants_of(partial::shape_at(state.log)), name@),
        partial::variant_at(state.log) matches Some(variant) ==> {
            &&& shape::fields_of(shape::data_of(variant))@.len() <= usize::MAX
            &&& none_named(shape::fields_of(shape::data_of(variant))@, name@)
        },
    ensures
        ({
            let step = on_reading(state, key(name), span, default, record);
            let shape = partial::shape_at(state.log);
            if partial::variant_at(state.log) is None {
                refuses(
                    step,
                    state.log,
                    ErrorView::NoSuchVariant { name: name@, enum_shape: shape },
                )
            } else if shape::denies_unknown(shape) {
                refuses(step, state.log, ErrorView::UnknownField { field_name: name@, shape })
            } else {
                &&& makes(step, state.log, Seq::empty())
                &&& is_followed_by(
                    step,
                    state.runner,
                    span,
                    state.runner.stack.drop_last().push(Instruction::ObjectKeyOrObjectClose).push(
                        Instruction::SkipValue,
                    ),
                )
            }
        }),
{
    reveal(driver::step);
    a_variant_is_found_by_its_name(shape::variants_of(partial::shape_at(state.log)), name@, 0);
    a_field_is_found_by_its_name(partial::frame_fields(state.log), name@, 0);
}

/// A key that is read for a map is stored as it was read, and its value is begun: in the key itself,
/// or in the value inside if the key is a wrapper.
#[verifier::spinoff_prover]
pub proof fn a_key_of_a_map_is_stored_as_it_is(
    state: State,
    name: Cow<'_, str>,
    span: Span,
    default: DefaultView,
    record: Seq<Call>,
)
    requires
        state.runner.stack.len() > 0,
        state.runner.stack.last() is ObjectKeyOrObjectClose,
        !(shape::type_info(partial::shape_at(state.log)) is Struct),
        !(shape::type_info(partial::shape_at(state.log)) is Enum),
        shape::def_info(partial::shape_at(state.log)) matches DefInfo::Mapping { key } && (
        shape::inner_shape(key) is Some ==> value::obstacle(
            state.log.push(partial::done(Op::BeginKey)),
            value::Wrap::Inner,
        ) is None),
    ensures
        ({
            let step = on_reading(state, key(name), span, default, record);
            let stored = Op::SetText(TextView::Owned(name@));
            let wrapped = shape::def_info(partial::shape_at(state.log)) matches DefInfo::Mapping {
                key,
            } && shape::inner_shape(key) is Some;
            &&& makes(
                step,
                state.log,
                if wrapped {
                    seq![Op::BeginKey, Op::BeginInner, stored, Op::End, Op::End, Op::BeginValue]
                } else {
                    seq![Op::BeginKey, stored, Op::End, Op::BeginValue]
                },
            )
            &&& is_followed_by(
                step,
                state.runner,
                span,
                then_value_then_end(state.runner.stack.drop_last()),
            )
        }),
{
    reveal(driver::step);
    let begun = Attempt::begin(state.log).call(Op::BeginKey, record);
    if begun.err is None {
        assert(begun.log == state.log.push(partial::done(Op::BeginKey)));
    }
}

/// A key that a struct without flattened fields does not know is an error if the type denies such
/// keys; if not, its value is skipped. No call is made either way.
pub proof fn a_key_that_a_struct_does_not_know(
    state: State,
    name: Cow<'_, str>,
    span: Span,
    fields: Seq<Field>,
    default: DefaultView,
    record: Seq<Call>,
)
    requires
        state.runner.stack.len() > 0,
        state.runner.stack.last() is ObjectKeyOrObjectClose,
        shape::type_info(partial::shape_at(state.log)) matches TypeInfo::Struct(st)
            && shape::fields_of(st)@ == fields,
        fields.len() <= usize::MAX,
        none_named(fields, name@),
        forall|i: int|
            0 <= i < fields.len() ==> !shape::flagged(#[trigger] fields[i], FieldFlag::Flatten),
    ensures
        ({
            let step = on_reading(state, key(name), span, default, record);
            let shape = partial::shape_at(state.log);
            if shape::denies_unknown(shape) {
                refuses(step, state.log, ErrorView::UnknownField { field_name: name@, shape })
            } else {
                &&& makes(step, state.log, Seq::empty())
                &&& is_followed_by(
                    step,
                    state.runner,
                    span,
                    state.runner.stack.drop_last().push(Instruction::ObjectKeyOrObjectClose).push(
                        Instruction::SkipValue,
                    ),
                )
            }
        }),
{
    reveal(driver::step);
    a_field_is_found_by_its_name(fields, name@, 0);
    assert forall|i: int| 0 <= i < fields.len() implies !(#[trigger] shape::flagged(
        fields[i],
        FieldFlag::Flatten,
    )) by {}
    laws::lemma_no_flattened_field(fields, 0, state.log, name@, record);
}

/// A key that is no field of a struct itself is looked for in its flattened fields. If the first of
/// them, field `outer`, has a field of that name, that is begun inside it, and the value goes there.
/// If it is an enum with a variant of that name, that is selected. If it has neither, it is begun and
/// ended again.
#[verifier::spinoff_prover]
pub proof fn a_key_is_looked_for_in_the_flattened_fields(
    state: State,
    name: Cow<'_, str>,
    span: Span,
    fields: Seq<Field>,
    outer: int,
    inner: int,
    default: DefaultView,
    record: Seq<Call>,
)
    requires
        state.runner.stack.len() > 0,
        state.runner.stack.last() is ObjectKeyOrObjectClose,
        shape::type_info(partial::shape_at(state.log)) matches TypeInfo::Struct(st)
            && shape::fields_of(st)@ == fields,
        fields.len() <= partial::MAX_FIELDS,
        none_named(fields, name@),
        0 <= outer < fields.len(),
        shape::flagged(fields[outer], FieldFlag::Flatten),
        forall|i: int|
            0 <= i < outer ==> !shape::flagged(#[trigger] fields[i], FieldFlag::Flatten),
        partial::frame_fields(
            state.log.push(partial::done(Op::BeginNthField(outer as usize))),
        ).len() <= partial::MAX_FIELDS,
        shape::variants_of(
            partial::shape_at(state.log.push(partial::done(Op::BeginNthField(outer as usize)))),
        ).len() <= usize::MAX,
    ensures
        ({
            let step = on_reading(state, key(name), span, default, record);
            let enter = Op::BeginNthField(outer as usize);
            let begun = state.log.push(partial::done(enter));
            let due = then_value_then_end(state.runner.stack.drop_last());
            let variants = shape::variants_of(partial::shape_at(begun));
            &&& first_named(partial::frame_fields(begun), name@, inner) ==> {
                &&& makes(step, state.log, seq![enter, Op::BeginNthField(inner as usize)])
                &&& is_followed_by(step, state.runner, span, due)
            }
            &&& none_named(partial::frame_fields(begun), name@) && first_variant_named(
                variants,
                name@,
                inner,
            ) && partial::trackable(variants[inner]) ==> {
                &&& makes(step, state.log, seq![enter, Op::SelectVariantNamed(name@)])
                &&& is_followed_by(step, state.runner, span, due)
            }
            &&& none_named(partial::frame_fields(begun), name@) && no_variant_named(variants, name@)
                ==> {
                let made = step.state.log;
                &&& runner::extends(made, state.log)
                &&& made.len() > state.log.len()
                &&& made[state.log.len() as int].op == enter
                &&& made[state.log.len() as int].err is None ==> made.len() > state.log.len() + 1
                    && made[state.log.len() as int + 1].op is End
            }
        }),
{
    reveal(driver::step);
    let enter = Op::BeginNthField(outer as usize);
    let begun = state.log.push(partial::done(enter));
    a_field_is_found_by_its_name(fields, name@, 0);
    a_field_is_found_by_its_name(partial::frame_fields(begun), name@, inner);
    a_variant_is_found_by_its_name(
        shape::variants_of(partial::shape_at(begun)),
        name@,
        inner,
    );
    lemma_flattened_from(fields, 0, outer, state.log, name@, record);
    let entered = Attempt::begin(state.log).field(outer as usize, record);
    assert(entered == Attempt::begin(state.log).call(enter, record));
    if entered.err is None {
        assert(entered.log == begun);
        let left = entered.call(Op::End, record);
        if left.err is None {
            lemma_flattened_extends(fields, outer + 1, left.log, name@, record);
        }
    }
}

/// Where the first flattened field, field `outer`, knows a key neither as a field nor as a variant, it
/// is begun and ended again, and the next one, field `after`, is begun. If there is none, the key is
/// an error where the type denies keys that it does not know, and its value is skipped where it does
/// not.
#[verifier::spinoff_prover]
pub proof fn a_key_goes_on_to_the_next_flattened_field(
    state: State,
    name: Cow<'_, str>,
    span: Span,
    fields: Seq<Field>,
    outer: int,
    after: int,
    default: DefaultView,
    record: Seq<Call>,
)
    requires
        state.runner.stack.len() > 0,
        state.runner.stack.last() is ObjectKeyOrObjectClose,
        shape::type_info(partial::shape_at(state.log)) matches TypeInfo::Struct(st)
            && shape::fields_of(st)@ == fields,
        fields.len() <= partial::MAX_FIELDS,
        none_named(fields, name@),
        0 <= outer < fields.len(),
        shape::flagged(fields[outer], FieldFlag::Flatten),
        forall|i: int|
            0 <= i < outer ==> !shape::flagged(#[trigger] fields[i], FieldFlag::Flatten),
        outer < after <= fields.len(),
        forall|i: int|
            outer < i < after ==> !shape::flagged(#[trigger] fields[i], FieldFlag::Flatten),
        after < fields.len() ==> shape::flagged(fields[after], FieldFlag::Flatten),
        ({
            let begun = state.log.push(partial::done(Op::BeginNthField(outer as usize)));
            let left = begun.push(partial::done(Op::End));
            &&& partial::frame_fields(begun).len() <= usize::MAX
            &&& none_named(partial::frame_fields(begun), name@)
            &&& shape::variants_of(partial::shape_at(begun)).len() <= usize::MAX
            &&& no_variant_named(shape::variants_of(partial::shape_at(begun)), name@)
            &&& partial::shape_at(left) == partial::shape_at(state.log)
        }),
    ensures
        ({
            let step = on_reading(state, key(name), span, default, record);
            let made = step.state.log;
            let n = state.log.len() as int;
            let left = state.log.push(partial::done(Op::BeginNthField(outer as usize))).push(
                partial::done(Op::End),
            );
            let shape = partial::shape_at(state.log);
            runner::extends(made, left) ==> {
                if after < fields.len() {
                    made.len() > n + 2 && made[n + 2].op == Op::BeginNthField(after as usize)
                } else if shape::denies_unknown(shape) {
                    made == left && step.effect == Effect::Fail(
                        ErrorView::UnknownField { field_name: name@, shape },
                    )
                } else {
                    &&& made == left
                    &&& step.effect is Continue
                    &&& is_followed_by(
                        step,
                        state.runner,
                        span,
                        state.runner.stack.drop_last().push(
                            Instruction::ObjectKeyOrObjectClose,
                        ).push(Instruction::SkipValue),
                    )
                }
            }
        }),
{
    reveal(driver::step);
    let enter = Op::BeginNthField(outer as usize);
    let begun = state.log.push(partial::done(enter));
    let left = begun.push(partial::done(Op::End));
    let n = state.log.len() as int;
    a_field_is_found_by_its_name(fields, name@, 0);
    a_field_is_found_by_its_name(partial::frame_fields(begun), name@, 0);
    a_variant_is_found_by_its_name(shape::variants_of(partial::shape_at(begun)), name@, 0);
    lemma_flattened_from(fields, 0, outer, state.log, name@, record);
    let made = on_reading(state, key(name), span, default, record).state.log;
    let entered = Attempt::begin(state.log).field(outer as usize, record);
    assert(entered == Attempt::begin(state.log).call(enter, record));
    if runner::extends(made, left) {
        assert(made[n] == left[n] && made[n + 1] == left[n + 1]);
        if entered.err is None {
            assert(entered.log == begun);
            let ended = entered.call(Op::End, record);
            if ended.err is None {
                assert(ended.log == left);
                lemma_passed_over(fields, outer + 1, after, left, name@, record);
                if after < fields.len() {
                    lemma_flattened_begins(fields, after, left, name@, record);
                }
            }
        }
    }
}

/// Fields that are not flattened are passed over, wherever they are.
proof fn lemma_passed_over(
    fields: Seq<Field>,
    from: int,
    to: int,
    log: Seq<Call>,
    name: Seq<char>,
    record: Seq<Call>,
)
    requires
        0 <= from <= to <= fields.len(),
        forall|i: int|
            from <= i < to ==> !shape::flagged(#[trigger] fields[i], FieldFlag::Flatten),
    ensures
        object::flattened_entry(fields, from, log, name, record) == object::flattened_entry(
            fields,
            to,
            log,
            name,
            record,
        ),
    decreases to - from,
{
    if from < to {
        assert(!shape::flagged(fields[from], FieldFlag::Flatten));
        lemma_passed_over(fields, from + 1, to, log, name, record);
    }
}

/// A flattened field is begun.
proof fn lemma_flattened_begins(
    fields: Seq<Field>,
    at: int,
    log: Seq<Call>,
    name: Seq<char>,
    record: Seq<Call>,
)
    requires
        0 <= at < fields.len(),
        shape::flagged(fields[at], FieldFlag::Flatten),
        partial::frame_fields(log).len() <= partial::MAX_FIELDS,
    ensures
        ({
            let made = object::flattened_entry(fields, at, log, name, record).attempt.log;
            &&& made.len() > log.len()
            &&& made[log.len() as int].op == Op::BeginNthField(at as usize)
        }),
{
    let begun = Attempt::begin(log).field(at as usize, record);
    if begun.err is None {
        let left = begun.call(Op::End, record);
        if left.err is None {
            lemma_flattened_extends(fields, at + 1, left.log, name, record);
            let made = object::flattened_entry(fields, at + 1, left.log, name, record).attempt.log;
            assert(made[log.len() as int] == left.log[log.len() as int]);
        }
    }
}

/// Fields that are not flattened are passed over.
proof fn lemma_flattened_from(
    fields: Seq<Field>,
    from: int,
    outer: int,
    log: Seq<Call>,
    name: Seq<char>,
    record: Seq<Call>,
)
    requires
        0 <= from <= outer < fields.len(),
        forall|i: int|
            0 <= i < outer ==> !shape::flagged(#[trigger] fields[i], FieldFlag::Flatten),
    ensures
        object::flattened_entry(fields, from, log, name, record) == object::flattened_entry(
            fields,
            outer,
            log,
            name,
            record,
        ),
    decreases outer - from,
{
    if from < outer {
        assert(!shape::flagged(fields[from], FieldFlag::Flatten));
        lemma_flattened_from(fields, from + 1, outer, log, name, record);
    }
}

/// Looking for a key in flattened fields adds to the calls.
proof fn lemma_flattened_extends(
    fields: Seq<Field>,
    from: int,
    log: Seq<Call>,
    name: Seq<char>,
    record: Seq<Call>,
)
    ensures
        runner::extends(
            object::flattened_entry(fields, from, log, name, record).attempt.log,
            log,
        ),
    decreases fields.len() - from,
{
    if 0 <= from < fields.len() {
        if !shape::flagged(fields[from], FieldFlag::Flatten) {
            lemma_flattened_extends(fields, from + 1, log, name, record);
        } else {
            let begun = Attempt::begin(log).field(from as usize, record);
            if begun.err is None {
                let left = begun.call(Op::End, record);
                if left.err is None {
                    lemma_flattened_extends(fields, from + 1, left.log, name, record);
                }
            }
        }
    }
}

/// The end of an object makes no call, and what is below it is due.
pub proof fn the_end_of_an_object(
    state: State,
    span: Span,
    default: DefaultView,
    record: Seq<Call>,
)
    requires
        state.runner.stack.len() > 0,
        state.runner.stack.last() is ObjectKeyOrObjectClose,
    ensures
        ({
            let step = on_reading(state, Outcome::ObjectEnded, span, default, record);
            &&& makes(step, state.log, Seq::empty())
            &&& step.effect is Continue
            &&& is_followed_by(step, state.runner, span, state.runner.stack.drop_last())
        }),
{
    reveal(driver::step);
}

/// What is neither a text nor the end of the object is no key, and a type that is neither a struct,
/// an enum nor a map takes no key.
pub proof fn what_is_no_key_is_refused(
    state: State,
    outcome: Outcome<'_>,
    span: Span,
    default: DefaultView,
    record: Seq<Call>,
)
    requires
        state.runner.stack.len() > 0,
        state.runner.stack.last() is ObjectKeyOrObjectClose,
        !(outcome is ObjectEnded),
    ensures
        ({
            let step = on_reading(state, outcome, span, default, record);
            let shape = partial::shape_at(state.log);
            if !(outcome matches Outcome::Scalar(Scalar::String(_))) {
                refuses(
                    step,
                    state.log,
                    ErrorView::UnexpectedOutcome {
                        got: outcome@,
                        wanted: "scalar or object close"@,
                    },
                )
            } else {
                !(shape::type_info(shape) is Struct) && !(shape::type_info(shape) is Enum) && !(
                shape::def_info(shape) is Mapping) ==> refuses(
                    step,
                    state.log,
                    ErrorView::Unimplemented("object key for non-struct/map"@),
                )
            }
        }),
{
    reveal(driver::step);
}

// ---------------------------------------------------------------------------------------------
// Values

/// Whether the field that the last frame is makes its value from one of another type.
pub open spec fn is_custom(log: Seq<Call>) -> bool {
    partial::parent_field_at(log) matches Some(field) && shape::has_custom(field)
}

/// Whether nothing stands round the value of the last frame.
pub open spec fn is_plain(log: Seq<Call>) -> bool {
    let shape = partial::shape_at(log);
    &&& !is_custom(log)
    &&& !(shape::def_info(shape) is Optional)
    &&& !(shape::def_info(shape) matches DefInfo::Pointer(def) && shape::from_pointee(def))
    &&& shape::inner_shape(shape) is None
}

/// A null is the default of whatever it is read for, and adds no instruction.
pub proof fn a_null_sets_the_default(
    state: State,
    span: Span,
    default: DefaultView,
    record: Seq<Call>,
)
    requires
        state.runner.stack.len() > 0,
        state.runner.stack.last() is Value,
    ensures
        ({
            let step = on_reading(state, Outcome::Scalar(Scalar::Null), span, default, record);
            &&& makes(step, state.log, seq![Op::SetDefault])
            &&& is_followed_by(step, state.runner, span, state.runner.stack.drop_last())
        }),
{
    reveal(driver::step);
}

/// What stands round a value is entered first, whatever is read for it, unless that is a null: the
/// function of a field that makes its value from another, then an option, then a smart pointer, then
/// a wrapper. One instruction is added that ends it.
#[verifier::spinoff_prover]
pub proof fn what_stands_round_a_value_is_entered(
    state: State,
    outcome: Outcome<'_>,
    span: Span,
    default: DefaultView,
    record: Seq<Call>,
)
    requires
        state.runner.stack.len() > 0,
        state.runner.stack.last() is Value,
        !(outcome matches Outcome::Scalar(Scalar::Null)),
        on_reading(state, outcome, span, default, record).state.log == record,
        !is_plain(state.log),
    ensures
        ({
            let step = on_reading(state, outcome, span, default, record);
            let below = state.runner.stack.drop_last();
            let shape = partial::shape_at(state.log);
            let n = state.log.len() as int;
            let (op, reason, obstacle) = if is_custom(state.log) {
                (
                    Op::BeginCustomDeserialization,
                    PopReason::CustomDeserialization,
                    if shape::names_source(partial::parent_field_at(state.log)->0) {
                        None
                    } else {
                        Some("custom deserialization from an unnamed type"@)
                    },
                )
            } else if shape::def_info(shape) is Optional {
                (
                    Op::BeginSome,
                    PopReason::OptionSome,
                    if partial::field_set_at(state.log, 1) == Ok::<bool, ReflectError>(true) {
                        Some("option set more than once"@)
                    } else {
                        None
                    },
                )
            } else if shape::def_info(shape) matches DefInfo::Pointer(def) && shape::from_pointee(
                def,
            ) {
                (Op::BeginSmartPtr, PopReason::SmartPointer, None)
            } else {
                (
                    Op::BeginInner,
                    PopReason::Wrapper,
                    if shape::converts(shape) {
                        if partial::may_be_whole(state.log) {
                            Some("wrapper set more than once"@)
                        } else {
                            None
                        }
                    } else if partial::frame_fields(state.log).len() > 63 {
                        Some("more than 63 fields in one struct or variant"@)
                    } else {
                        None
                    },
                )
            };
            if obstacle is Some {
                refuses(step, state.log, ErrorView::Unimplemented(obstacle->0))
            } else {
                &&& runner::extends(record, state.log)
                &&& record.len() > n
                &&& record[n].op == op
                &&& record[n].err matches Some(e) ==> record.len() == n + 1 && step.effect
                    == Effect::Fail(ErrorView::ReflectError(e))
                &&& record[n].err is None ==> stack_laws::only_adds(
                    below.push(Instruction::Pop(reason)),
                    step.state.runner.stack,
                )
            }
        }),
{
    reveal(driver::step);
    let below = state.runner.stack.drop_last();
    let log = state.log;
    let seen = RunnerView { stack: below, last_span: span, ..state.runner };
    let turn = value::value_turn(seen, log, outcome, record);
    assert(turn.log == record);
    let wrap = value::next_wrap(log, false);
    assert(wrap is Some);
    let attempt = value::entered(log, wrap->0, record);
    let resolution = value::resolved(below, log, false, record);
    laws::lemma_resolved_extends(below, log, false, record);
    lemma_inner_extends(
        RunnerView { stack: resolution.stack, ..seen },
        resolution.attempt.log,
        resolution.pointer_begun,
        outcome,
        record,
    );
    if attempt.err is None {
        assert(attempt.log.len() == log.len() + 1);
        if log.len() < record.len() {
            let pushed = below.push(Instruction::Pop(wrap->0.reason()));
            let begun = wrap->0 is Pointer;
            stack_laws::unwrapping_only_adds(pushed, attempt.log, begun, record);
            laws::lemma_resolved_extends(pushed, attempt.log, begun, record);
            let inside = RunnerView { stack: resolution.stack, ..seen };
            lemma_inner_stack(
                inside,
                resolution.attempt.log,
                resolution.pointer_begun,
                outcome,
                record,
            );
            assert(record[log.len() as int] == attempt.log[log.len() as int]);
        } else {
            assert(resolution.attempt == attempt);
        }
    }
}

/// What is read for the innermost value adds to the calls.
proof fn lemma_inner_extends(
    runner: RunnerView,
    log: Seq<Call>,
    pointer_begun: bool,
    outcome: Outcome<'_>,
    record: Seq<Call>,
)
    ensures
        runner::extends(value::inner_turn(runner, log, pointer_begun, outcome, record).log, log),
{
    match outcome {
        Outcome::Scalar(scalar) => {
            assert(runner::extends(
                scalar_value::scalar_placement(log, scalar, record).attempt.log,
                log,
            ));
        },
        Outcome::ListStarted => {
            assert(runner::extends(
                value::list_start_turn(runner, log, pointer_begun, record).log,
                log,
            ));
        },
        Outcome::ListEnded => {},
        Outcome::ObjectStarted => {},
        Outcome::ObjectEnded => {},
    }
}

/// What is read for the innermost value only adds instructions.
proof fn lemma_inner_stack(
    runner: RunnerView,
    log: Seq<Call>,
    pointer_begun: bool,
    outcome: Outcome<'_>,
    record: Seq<Call>,
)
    ensures
        stack_laws::only_adds(
            runner.stack,
            value::inner_turn(runner, log, pointer_begun, outcome, record).runner.stack,
        ),
{
}

/// What is read for an option, for a wrapper, or for a field that makes its value from another, is
/// read for the value inside, once that is begun: it comes to the same as if it was due there. (What
/// is inside a smart pointer is no smart pointer that is entered again.)
#[verifier::spinoff_prover]
pub proof fn what_is_inside_is_read_as_if_it_was_due_there(
    state: State,
    outcome: Outcome<'_>,
    span: Span,
    default: DefaultView,
    record: Seq<Call>,
    op: Op,
    reason: PopReason,
)
    requires
        state.runner.stack.len() > 0,
        state.runner.stack.last() is Value,
        !(outcome matches Outcome::Scalar(Scalar::Null)),
        on_reading(state, outcome, span, default, record).state.log == record,
        !is_plain(state.log),
        record.len() > state.log.len(),
        record[state.log.len() as int] == partial::done(op),
        op is BeginCustomDeserialization && reason is CustomDeserialization || op is BeginSome
            && reason is OptionSome || op is BeginInner && reason is Wrapper,
    ensures
        ({
            let below = state.runner.stack.drop_last();
            let inside = State {
                runner: RunnerView {
                    stack: below.push(Instruction::Pop(reason)).push(
                        Instruction::Value(ValueReason::ObjectVal),
                    ),
                    ..state.runner
                },
                log: state.log.push(partial::done(op)),
            };
            on_reading(inside, outcome, span, default, record) == on_reading(
                state,
                outcome,
                span,
                default,
                record,
            )
        }),
{
    what_stands_round_a_value_is_entered(state, outcome, span, default, record);
    reveal(driver::step);
    let below = state.runner.stack.drop_last();
    let log = state.log;
    let wrap = value::next_wrap(log, false)->0;
    let attempt = value::entered(log, wrap, record);
    assert(attempt.log[log.len() as int].op == op);
    assert(attempt.log == log.push(partial::done(op)));
    let pushed = below.push(Instruction::Pop(reason));
    let due = Instruction::Value(ValueReason::ObjectVal);
    assert(pushed.push(due).drop_last() =~= pushed);
    assert(value::resolved(below, log, false, record) == value::resolved(
        pushed,
        attempt.log,
        false,
        record,
    ));
}

/// A `bool` is stored as it was read.
pub proof fn a_bool_is_stored_as_it_is(
    state: State,
    v: bool,
    span: Span,
    default: DefaultView,
    record: Seq<Call>,
)
    requires
        state.runner.stack.len() > 0,
        state.runner.stack.last() is Value,
        is_plain(state.log),
    ensures
        ({
            let step = on_reading(state, Outcome::Scalar(Scalar::Bool(v)), span, default, record);
            &&& makes(step, state.log, seq![Op::SetBool(v)])
            &&& is_followed_by(step, state.runner, span, state.runner.stack.drop_last())
        }),
{
    reveal(driver::step);
    assert(value::next_wrap(state.log, false) is None);
}

/// A text that is read for an enum names its variant: that is selected, and it is an error if there
/// is none of that name. If a variant is selected already, the text is set as it was read.
pub proof fn a_text_for_an_enum_names_its_variant(
    state: State,
    text: Cow<'_, str>,
    span: Span,
    index: int,
    default: DefaultView,
    record: Seq<Call>,
)
    requires
        state.runner.stack.len() > 0,
        state.runner.stack.last() is Value,
        is_plain(state.log),
        shape::type_info(partial::shape_at(state.log)) is Enum,
        shape::variants_of(partial::shape_at(state.log)).len() <= usize::MAX,
    ensures
        ({
            let step = on_reading(
                state,
                Outcome::Scalar(Scalar::String(text)),
                span,
                default,
                record,
            );
            let shape = partial::shape_at(state.log);
            let variants = shape::variants_of(shape);
            &&& is_followed_by(step, state.runner, span, state.runner.stack.drop_last())
            &&& partial::variant_at(state.log) is Some ==> makes(
                step,
                state.log,
                seq![Op::SetText(TextView::Either(text@))],
            )
            &&& partial::variant_at(state.log) is None && first_variant_named(
                variants,
                text@,
                index,
            ) && shape::fields_of(shape::data_of(variants[index]))@.len() <= partial::MAX_FIELDS
                ==> makes(step, state.log, seq![Op::SelectNthVariant(index as usize)])
            &&& partial::variant_at(state.log) is None && no_variant_named(variants, text@)
                ==> refuses(
                step,
                state.log,
                ErrorView::NoSuchVariant { name: text@, enum_shape: shape },
            )
        }),
{
    reveal(driver::step);
    assert(value::next_wrap(state.log, false) is None);
    a_variant_is_found_by_its_name(
        shape::variants_of(partial::shape_at(state.log)),
        text@,
        index,
    );
}

/// A text is stored as it was read: parsed where the type is a scalar, and set where it is not. A
/// scalar type that cannot parse at all has the text set, and one that does not take this text is an
/// error.
pub proof fn a_text_is_stored_as_it_is(
    state: State,
    text: Cow<'_, str>,
    span: Span,
    default: DefaultView,
    record: Seq<Call>,
)
    requires
        state.runner.stack.len() > 0,
        state.runner.stack.last() is Value,
        is_plain(state.log),
        !(shape::type_info(partial::shape_at(state.log)) is Enum),
    ensures
        ({
            let step = on_reading(
                state,
                Outcome::Scalar(Scalar::String(text)),
                span,
                default,
                record,
            );
            let shape = partial::shape_at(state.log);
            let n = state.log.len() as int;
            &&& is_followed_by(step, state.runner, span, state.runner.stack.drop_last())
            &&& if shape::type_info(shape) is Reference && shape::describes(
                shape,
                KnownType::StrRef,
            ) {
                makes(
                    step,
                    state.log,
                    seq![
                        Op::SetText(
                            if text is Borrowed {
                                TextView::Borrowed(text@)
                            } else {
                                TextView::Owned(text@)
                            },
                        ),
                    ],
                )
            } else if !(shape::def_info(shape) is Scalar) {
                makes(step, state.log, seq![Op::SetText(TextView::Owned(text@))])
            } else {
                match record[n].err {
                    None => makes(step, state.log, seq![Op::ParseFromStr(text@)]),
                    Some(e) => if partial::failed_operation(e) matches Some(operation)
                        && scalar_value::contains_text(
                        operation@,
                        "does not support parsing"@,
                    ) {
                        makes(
                            step,
                            state.log.push(
                                Call { op: Op::ParseFromStr(text@), err: Some(e) },
                            ),
                            seq![Op::SetText(TextView::Owned(text@))],
                        )
                    } else {
                        &&& step.state.log == state.log.push(
                            Call { op: Op::ParseFromStr(text@), err: Some(e) },
                        )
                        &&& step.effect == Effect::Fail(
                            ErrorView::ReflectError(
                                partial::fault_error(
                                    Fault::OperationFailed {
                                        shape,
                                        operation: "Failed to parse string value",
                                    },
                                ),
                            ),
                        )
                    },
                }
            }
        }),
{
    reveal(driver::step);
    assert(value::next_wrap(state.log, false) is None);
}

/// The start of a list for a list empties it and begins it. For a tuple, an array, a slice, or a
/// selected tuple variant it makes no call, but the items are counted from 0 on. Each item, and the
/// end, is due next.
#[verifier::spinoff_prover]
pub proof fn the_start_of_a_list(
    state: State,
    span: Span,
    default: DefaultView,
    record: Seq<Call>,
)
    requires
        state.runner.stack.len() > 0,
        state.runner.stack.last() is Value,
        is_plain(state.log),
    ensures
        ({
            let step = on_reading(state, Outcome::ListStarted, span, default, record);
            let shape = partial::shape_at(state.log);
            let tuple = shape::type_info(shape) matches TypeInfo::Struct(st) && shape::kind_of(
                st,
            ) is Tuple;
            let due = state.runner.stack.drop_last().push(Instruction::ListItemOrListClose);
            let before = state.runner;
            if tuple || shape::def_info(shape) is Slice {
                makes(step, state.log, Seq::empty()) && is_followed_by(step, before, span, due)
            } else if shape::def_info(shape) is List {
                &&& makes(step, state.log, seq![Op::SetDefault, Op::BeginList])
                &&& is_followed_by(step, before, span, due)
            } else if shape::def_info(shape) is Array {
                &&& makes(step, state.log, Seq::empty())
                &&& is_followed_by(
                    step,
                    RunnerView { array_indices: before.array_indices.push(0), ..before },
                    span,
                    due,
                )
            } else if shape::type_info(shape) is Enum {
                match partial::variant_at(state.log) {
                    Some(variant) => if shape::kind_of(shape::data_of(variant)) is Tuple {
                        &&& makes(step, state.log, Seq::empty())
                        &&& is_followed_by(
                            step,
                            RunnerView {
                                enum_tuple_field_count: Some(
                                    shape::fields_of(shape::data_of(variant))@.len() as usize,
                                ),
                                enum_tuple_current_field: Some(0),
                                ..before
                            },
                            span,
                            due,
                        )
                    } else {
                        refuses(
                            step,
                            state.log,
                            ErrorView::UnsupportedType {
                                got: shape,
                                wanted: "tuple variant for array deserialization"@,
                            },
                        )
                    },
                    None => refuses(
                        step,
                        state.log,
                        ErrorView::UnsupportedType {
                            got: shape,
                            wanted: "enum with variant selected"@,
                        },
                    ),
                }
            } else {
                refuses(
                    step,
                    state.log,
                    ErrorView::UnsupportedType {
                        got: shape,
                        wanted: "array, list, tuple, or slice"@,
                    },
                )
            }
        }),
{
    reveal(driver::step);
    assert(value::next_wrap(state.log, false) is None);
}

/// The start of an object for a map begins it, and for a struct or an enum makes no call. A key, or
/// the end, is due next. Other types do not take an object.
pub proof fn the_start_of_an_object(
    state: State,
    span: Span,
    default: DefaultView,
    record: Seq<Call>,
)
    requires
        state.runner.stack.len() > 0,
        state.runner.stack.last() is Value,
        is_plain(state.log),
    ensures
        ({
            let step = on_reading(state, Outcome::ObjectStarted, span, default, record);
            let shape = partial::shape_at(state.log);
            let due = state.runner.stack.drop_last().push(Instruction::ObjectKeyOrObjectClose);
            if shape::def_info(shape) is Mapping {
                &&& makes(step, state.log, seq![Op::BeginMap])
                &&& is_followed_by(step, state.runner, span, due)
            } else if shape::type_info(shape) is Struct || shape::type_info(shape) is Enum {
                &&& makes(step, state.log, Seq::empty())
                &&& is_followed_by(step, state.runner, span, due)
            } else {
                refuses(
                    step,
                    state.log,
                    ErrorView::UnsupportedType {
                        got: shape,
                        wanted: if shape::type_info(shape) is OtherUser {
                            "map, enum, or struct"@
                        } else {
                            "map, enum, struct, or tuple"@
                        },
                    },
                )
            }
        }),
{
    reveal(driver::step);
    assert(value::next_wrap(state.log, false) is None);
}

/// The end of an object in place of a value is an error, and the end of a list ends the frame.
pub proof fn an_end_in_place_of_a_value(
    state: State,
    span: Span,
    default: DefaultView,
    record: Seq<Call>,
)
    requires
        state.runner.stack.len() > 0,
        state.runner.stack.last() is Value,
        is_plain(state.log),
    ensures
        refuses(
            on_reading(state, Outcome::ObjectEnded, span, default, record),
            state.log,
            ErrorView::UnexpectedOutcome {
                got: Outcome::<'static>::ObjectEnded@,
                wanted: "value"@,
            },
        ),
        makes(
            on_reading(state, Outcome::ListEnded, span, default, record),
            state.log,
            seq![Op::End],
        ),
        ({
            let before = state.runner;
            let array = shape::def_info(partial::shape_at(state.log)) is Array;
            is_followed_by(
                on_reading(state, Outcome::ListEnded, span, default, record),
                if array && before.array_indices.len() > 0 {
                    RunnerView { array_indices: before.array_indices.drop_last(), ..before }
                } else {
                    before
                },
                span,
                before.stack.drop_last(),
            )
        }),
{
    reveal(driver::step);
    assert(value::next_wrap(state.log, false) is None);
}

/// What is read for a smart pointer is read for what it points to, once that is begun, where nothing
/// stands round that: it comes to the same as if it was due there.
#[verifier::spinoff_prover]
pub proof fn what_a_smart_pointer_points_to_is_read_as_if_it_was_due_there(
    state: State,
    outcome: Outcome<'_>,
    span: Span,
    default: DefaultView,
    record: Seq<Call>,
)
    requires
        state.runner.stack.len() > 0,
        state.runner.stack.last() is Value,
        !(outcome matches Outcome::Scalar(Scalar::Null)),
        on_reading(state, outcome, span, default, record).state.log == record,
        !is_plain(state.log),
        record.len() > state.log.len(),
        record[state.log.len() as int] == partial::done(Op::BeginSmartPtr),
        is_plain(state.log.push(partial::done(Op::BeginSmartPtr))),
        !(shape::def_info(
            partial::shape_at(state.log.push(partial::done(Op::BeginSmartPtr))),
        ) is Pointer),
    ensures
        ({
            let below = state.runner.stack.drop_last();
            let inside = State {
                runner: RunnerView {
                    stack: below.push(Instruction::Pop(PopReason::SmartPointer)).push(
                        Instruction::Value(ValueReason::ObjectVal),
                    ),
                    ..state.runner
                },
                log: state.log.push(partial::done(Op::BeginSmartPtr)),
            };
            on_reading(inside, outcome, span, default, record) == on_reading(
                state,
                outcome,
                span,
                default,
                record,
            )
        }),
{
    what_stands_round_a_value_is_entered(state, outcome, span, default, record);
    reveal(driver::step);
    let below = state.runner.stack.drop_last();
    let log = state.log;
    let wrap = value::next_wrap(log, false)->0;
    let attempt = value::entered(log, wrap, record);
    assert(attempt.log[log.len() as int].op is BeginSmartPtr);
    assert(attempt.log == log.push(partial::done(Op::BeginSmartPtr)));
    let pushed = below.push(Instruction::Pop(PopReason::SmartPointer));
    let due = Instruction::Value(ValueReason::ObjectVal);
    assert(pushed.push(due).drop_last() =~= pushed);
    assert(value::next_wrap(attempt.log, true) is None);
    assert(value::next_wrap(attempt.log, false) is None);
    let begun = attempt.log;
    let seen = RunnerView { stack: pushed, last_span: span, ..state.runner };
    assert(value::resolved(below, log, false, record) == value::resolved(
        pushed,
        begun,
        true,
        record,
    ));
    lemma_no_pointer_inside(seen, begun, outcome, record);
}

/// Whether a smart pointer was begun matters to one alone.
proof fn lemma_no_pointer_inside(
    runner: RunnerView,
    log: Seq<Call>,
    outcome: Outcome<'_>,
    record: Seq<Call>,
)
    requires
        !(shape::def_info(partial::shape_at(log)) is Pointer),
    ensures
        value::inner_turn(runner, log, true, outcome, record) == value::inner_turn(
            runner,
            log,
            false,
            outcome,
            record,
        ),
{
    assert(value::list_start_turn(runner, log, true, record) == value::list_start_turn(
        runner,
        log,
        false,
        record,
    ));
}

/// A list for a smart pointer that is still there once it is begun, which is one to a slice, is begun
/// in it, and its items are due.
#[verifier::spinoff_prover]
pub proof fn a_list_is_begun_in_a_smart_pointer_to_a_slice(
    state: State,
    span: Span,
    default: DefaultView,
    record: Seq<Call>,
)
    requires
        state.runner.stack.len() > 0,
        state.runner.stack.last() is Value,
        on_reading(state, Outcome::ListStarted, span, default, record).state.log == record,
        !is_custom(state.log),
        shape::def_info(partial::shape_at(state.log)) matches DefInfo::Pointer(def)
            && shape::from_pointee(def),
        ({
            let begun = state.log.push(partial::done(Op::BeginSmartPtr));
            let shape = partial::shape_at(begun);
            &&& !is_custom(begun)
            &&& shape::def_info(shape) matches DefInfo::Pointer(def) && shape::from_pointee(def)
            &&& !(shape::type_info(shape) is Struct)
        }),
    ensures
        ({
            let step = on_reading(state, Outcome::ListStarted, span, default, record);
            &&& makes(step, state.log, seq![Op::BeginSmartPtr, Op::BeginList])
            &&& is_followed_by(
                step,
                state.runner,
                span,
                state.runner.stack.drop_last().push(
                    Instruction::Pop(PopReason::SmartPointer),
                ).push(Instruction::ListItemOrListClose),
            )
        }),
{
    what_stands_round_a_value_is_entered(state, Outcome::ListStarted, span, default, record);
    reveal(driver::step);
    let begun = state.log.push(partial::done(Op::BeginSmartPtr));
    let attempt = value::entered(state.log, value::Wrap::Pointer, record);
    assert(value::next_wrap(state.log, false) == Some(value::Wrap::Pointer));
    if attempt.err is None {
        assert(attempt.log == begun);
        assert(value::next_wrap(begun, true) is None);
        let below = state.runner.stack.drop_last();
        let pushed = below.push(Instruction::Pop(PopReason::SmartPointer));
        assert(value::resolved(below, state.log, false, record) == value::resolved(
            pushed,
            begun,
            true,
            record,
        ));
        let inside = RunnerView { stack: pushed, last_span: span, ..state.runner };
        let turn = value::list_start_turn(inside, begun, true, record);
        assert(turn.log == record);
        assert(begun[state.log.len() as int] == partial::done(Op::BeginSmartPtr));
    }
}

// ---------------------------------------------------------------------------------------------
// Items

/// The instructions while an item is read: the item is ended, and the next one, or the end, is due.
pub open spec fn then_end_then_item(below: Seq<Instruction>) -> Seq<Instruction> {
    below.push(Instruction::ListItemOrListClose).push(Instruction::Pop(PopReason::ListVal))
}

/// Whether `step` begins with the call `op`, and is over with its error if that fails.
pub open spec fn begins_with(step: Step, log: Seq<Call>, op: Op) -> bool {
    let made = step.state.log;
    let n = log.len() as int;
    &&& runner::extends(made, log)
    &&& made.len() > n
    &&& made[n].op == op
    &&& made[n].err matches Some(e) ==> made.len() == n + 1 && step.effect == Effect::Fail(
        ErrorView::ReflectError(e),
    )
}

/// What is read where an item is due begins the next place for an item. In an array that is the next
/// element, in a tuple variant the next field, in a tuple the first field that is not set, and in a
/// list, or a slice behind a smart pointer, a new item. Where there is no place left it is an error.
#[verifier::spinoff_prover]
pub proof fn an_item_begins_the_next_place(
    state: State,
    outcome: Outcome<'_>,
    span: Span,
    default: DefaultView,
    record: Seq<Call>,
    index: usize,
)
    requires
        state.runner.stack.len() > 0,
        state.runner.stack.last() is ListItemOrListClose,
        !(outcome is ListEnded),
        on_reading(state, outcome, span, default, record).state.log == record,
        partial::frame_fields(state.log).len() <= partial::MAX_FIELDS,
    ensures
        ({
            let step = on_reading(state, outcome, span, default, record);
            let shape = partial::shape_at(state.log);
            let before = state.runner;
            let overflow = |max_len: usize| ErrorView::ArrayOverflow { shape, max_len };
            let unsupported = |wanted: Seq<char>| ErrorView::UnsupportedType { got: shape, wanted };
            match shape::def_info(shape) {
                DefInfo::Array { len, .. } => if before.array_indices.len() > 0 {
                    if before.array_indices.last() < len {
                        begins_with(
                            step,
                            state.log,
                            Op::BeginNthField(before.array_indices.last()),
                        )
                    } else {
                        refuses(step, state.log, overflow(len))
                    }
                } else {
                    refuses(
                        step,
                        state.log,
                        ErrorView::Unimplemented("Array index tracking not initialized"@),
                    )
                },
                DefInfo::List { .. } => begins_with(step, state.log, Op::BeginListItem),
                DefInfo::Pointer(_) => begins_with(step, state.log, Op::BeginListItem),
                _ => match shape::type_info(shape) {
                    TypeInfo::Enum => match (
                        before.enum_tuple_field_count,
                        before.enum_tuple_current_field,
                    ) {
                        (Some(count), Some(current)) => if current < count {
                            begins_with(step, state.log, Op::BeginNthField(current))
                        } else {
                            refuses(step, state.log, overflow(count))
                        },
                        _ => refuses(
                            step,
                            state.log,
                            unsupported("enum with tuple variant selected"@),
                        ),
                    },
                    TypeInfo::Struct(st) => if shape::kind_of(st) is Tuple {
                        let count = shape::fields_of(st)@.len();
                        &&& index < count && is_first_unset(state.log, index) ==> begins_with(
                            step,
                            state.log,
                            Op::BeginNthField(index),
                        )
                        &&& partial::all_set(state.log) ==> refuses(
                            step,
                            state.log,
                            overflow(count as usize),
                        )
                    } else {
                        refuses(step, state.log, unsupported("array, list, or tuple"@))
                    },
                    _ => refuses(step, state.log, unsupported("array, list, or tuple"@)),
                },
            }
        }),
{
    reveal(driver::step);
    let below = state.runner.stack.drop_last();
    let log = state.log;
    let seen = RunnerView { stack: below, last_span: span, ..state.runner };
    let pushed = seen.push(Instruction::ListItemOrListClose).push(
        Instruction::Pop(PopReason::ListVal),
    );
    let item = list::item_begun(pushed, log, record);
    let set = list::empty_tuple_set(item.attempt, outcome, record);
    lemma_value_extends(item.runner, set.log, outcome, record);
    let shape = partial::shape_at(log);
    match shape::type_info(shape) {
        TypeInfo::Struct(st) => {
            let count = shape::fields_of(st)@.len() as usize;
            if index < count && is_first_unset(log, index) {
                laws::a_tuple_item_goes_to_the_first_unset_field(
                    count,
                    0,
                    index,
                    log,
                    record,
                );
            }
            if partial::all_set(log) {
                laws::a_full_tuple_takes_no_item(count, 0, log, record);
            }
        },
        _ => {},
    }
}

/// Whether field `index` is the first that is not set after the calls `log`.
pub open spec fn is_first_unset(log: Seq<Call>, index: usize) -> bool {
    &&& partial::field_set_at(log, index) == Ok::<bool, ReflectError>(false)
    &&& forall|i: usize|
        i < index ==> (#[trigger] partial::field_set_at(log, i)) == Ok::<bool, ReflectError>(true)
}

/// What is read for a value adds to the calls.
proof fn lemma_value_extends(
    runner: RunnerView,
    log: Seq<Call>,
    outcome: Outcome<'_>,
    record: Seq<Call>,
)
    ensures
        runner::extends(value::value_turn(runner, log, outcome, record).log, log),
{
    let resolution = value::resolved(runner.stack, log, false, record);
    laws::lemma_resolved_extends(runner.stack, log, false, record);
    lemma_inner_extends(
        RunnerView { stack: resolution.stack, ..runner },
        resolution.attempt.log,
        resolution.pointer_begun,
        outcome,
        record,
    );
}

/// An item is read for the place that was begun for it: it comes to the same as if it was due there.
/// The next item of an array, or of a tuple variant, goes to the place after that. (A list for the
/// empty tuple sets it first.)
#[verifier::spinoff_prover]
pub proof fn an_item_is_read_as_if_it_was_due_in_its_place(
    state: State,
    outcome: Outcome<'_>,
    span: Span,
    default: DefaultView,
    record: Seq<Call>,
)
    requires
        state.runner.stack.len() > 0,
        state.runner.stack.last() is ListItemOrListClose,
        !(outcome is ListEnded),
        on_reading(state, outcome, span, default, record).state.log == record,
        partial::frame_fields(state.log).len() <= partial::MAX_FIELDS,
        record.len() > state.log.len(),
        record[state.log.len() as int].err is None,
        !(outcome is ListStarted && (shape::type_info(
            partial::shape_at(state.log.push(record[state.log.len() as int])),
        ) matches TypeInfo::Struct(st) && shape::kind_of(st) is Tuple && shape::fields_of(st)@.len()
            == 0)),
    ensures
        ({
            let before = state.runner;
            let due = then_end_then_item(before.stack.drop_last()).push(
                Instruction::Value(ValueReason::ObjectVal),
            );
            let shape = partial::shape_at(state.log);
            let array = shape::def_info(shape) is Array;
            let variant = !array && !(shape::def_info(shape) is List) && !(shape::def_info(
                shape,
            ) is Pointer) && shape::type_info(shape) is Enum;
            let there = State {
                runner: RunnerView {
                    stack: due,
                    array_indices: if array {
                        before.array_indices.drop_last().push(
                            (before.array_indices.last() + 1) as usize,
                        )
                    } else {
                        before.array_indices
                    },
                    enum_tuple_current_field: if variant {
                        Some((before.enum_tuple_current_field->0 + 1) as usize)
                    } else {
                        before.enum_tuple_current_field
                    },
                    ..before
                },
                log: state.log.push(record[state.log.len() as int]),
            };
            on_reading(there, outcome, span, default, record) == on_reading(
                state,
                outcome,
                span,
                default,
                record,
            )
        }),
{
    reveal(driver::step);
    let below = state.runner.stack.drop_last();
    let log = state.log;
    let n = log.len() as int;
    let seen = RunnerView { stack: below, last_span: span, ..state.runner };
    let pushed = seen.push(Instruction::ListItemOrListClose).push(
        Instruction::Pop(PopReason::ListVal),
    );
    let item = list::item_begun(pushed, log, record);
    let set = list::empty_tuple_set(item.attempt, outcome, record);
    let turn = list::list_turn(seen, log, outcome, record);
    assert(turn.log == record);
    lemma_item_calls(pushed, log, record);
    if item.attempt.err is None {
        lemma_value_extends(item.runner, set.log, outcome, record);
        assert(item.attempt.log[n] == record[n]);
        assert(item.attempt.log =~= log.push(record[n]));
        let due = then_end_then_item(below);
        assert(due.push(Instruction::Value(ValueReason::ObjectVal)).drop_last() =~= due);
        let indices = state.runner.array_indices;
        if shape::def_info(partial::shape_at(log)) is Array {
            assert(list::advanced(indices) =~= indices.drop_last().push(
                (indices.last() + 1) as usize,
            ));
        }
    } else {
        assert(record == item.attempt.log);
        assert(record[n].err is Some);
    }
}

/// A place for an item is begun by one call, or none is made.
proof fn lemma_item_calls(runner: RunnerView, log: Seq<Call>, record: Seq<Call>)
    ensures
        ({
            let attempt = list::item_begun(runner, log, record).attempt;
            &&& runner::extends(attempt.log, log)
            &&& attempt.err is None ==> attempt.log.len() == log.len() + 1
            &&& attempt.log.len() <= log.len() + 1
            &&& attempt.err is Some ==> attempt.log == log || attempt.log.last().err is Some
        }),
{
    let shape = partial::shape_at(log);
    match shape::type_info(shape) {
        TypeInfo::Struct(st) => {
            lemma_tuple_calls(shape::fields_of(st)@.len() as usize, 0, log, record);
        },
        _ => {},
    }
}

/// A place for an item of a tuple is begun by one call, or none is made.
proof fn lemma_tuple_calls(count: usize, index: int, log: Seq<Call>, record: Seq<Call>)
    ensures
        ({
            let attempt = list::tuple_item(count, index, log, record);
            &&& runner::extends(attempt.log, log)
            &&& attempt.err is None ==> attempt.log.len() == log.len() + 1
            &&& attempt.log.len() <= log.len() + 1
            &&& attempt.err is Some ==> attempt.log == log || attempt.log.last().err is Some
        }),
    decreases count - index,
{
    if 0 <= index < count {
        lemma_tuple_calls(count, index + 1, log, record);
    }
}

/// The end of a list makes no call. The index of an array, and the count of a tuple variant, are
/// gone, and what is below the list is due.
#[verifier::spinoff_prover]
pub proof fn the_end_of_a_list(state: State, span: Span, default: DefaultView, record: Seq<Call>)
    requires
        state.runner.stack.len() > 0,
        state.runner.stack.last() is ListItemOrListClose,
    ensures
        ({
            let step = on_reading(state, Outcome::ListEnded, span, default, record);
            let shape = partial::shape_at(state.log);
            let before = state.runner;
            let after = step.state.runner;
            &&& makes(step, state.log, Seq::empty())
            &&& step.effect is Continue
            &&& after.stack == before.stack.drop_last()
            &&& after.last_span == span
            &&& shape::def_info(shape) is Array && before.array_indices.len() > 0
                ==> after.array_indices == before.array_indices.drop_last()
            &&& !(shape::def_info(shape) is Array) ==> after.array_indices == before.array_indices
            &&& shape::type_info(shape) is Enum && before.enum_tuple_field_count is Some
                ==> after.enum_tuple_field_count is None && after.enum_tuple_current_field is None
            &&& shape::def_info(shape) is Array && before.array_indices.len() == 0
                ==> after.array_indices.len() == 0
            &&& !(shape::type_info(shape) is Enum) || before.enum_tuple_field_count is None
                ==> after.enum_tuple_field_count == before.enum_tuple_field_count
                && after.enum_tuple_current_field == before.enum_tuple_current_field
        }),
{
    reveal(driver::step);
}

/// The items of a tuple variant go to fields 0, 1, 2 and so on, one after the other: where `n` items
/// are begun from the start of its list, and the count at each is as the one before left it, item
/// number `i` is begun as field `i`, and there are no more of them than the variant has fields.
pub proof fn variant_items_go_to_the_fields_in_turn(
    runners: Seq<RunnerView>,
    logs: Seq<Seq<Call>>,
    records: Seq<Seq<Call>>,
    count: usize,
    n: nat,
)
    requires
        runners.len() == n + 1,
        logs.len() == n,
        records.len() == n,
        runners[0].enum_tuple_field_count == Some(count),
        runners[0].enum_tuple_current_field == Some(0usize),
        forall|i: int|
            0 <= i < n ==> {
                let log = #[trigger] logs[i];
                let item = list::item_begun(runners[i], log, records[i]);
                let shape = partial::shape_at(log);
                &&& shape::type_info(shape) is Enum
                &&& !(shape::def_info(shape) is Array) && !(shape::def_info(shape) is List) && !(
                shape::def_info(shape) is Pointer)
                &&& partial::frame_fields(log).len() <= partial::MAX_FIELDS
                &&& item.attempt.err is None
                &&& item.runner.enum_tuple_field_count == runners[i + 1].enum_tuple_field_count
                &&& item.runner.enum_tuple_current_field == runners[i + 1].enum_tuple_current_field
            },
    ensures
        n <= count,
        runners[n as int].enum_tuple_field_count == Some(count),
        runners[n as int].enum_tuple_current_field == Some(n as usize),
        forall|i: int|
            0 <= i < n ==> list::item_begun(
                runners[i],
                #[trigger] logs[i],
                records[i],
            ).attempt.log == logs[i].push(partial::done(Op::BeginNthField(i as usize))),
    decreases n,
{
    if n > 0 {
        let m = (n - 1) as nat;
        variant_items_go_to_the_fields_in_turn(
            runners.drop_last(),
            logs.drop_last(),
            records.drop_last(),
            count,
            m,
        );
        let last = m as int;
        assert(logs.drop_last().len() == m);
        assert(runners[last].enum_tuple_current_field == Some(m as usize));
        let item = list::item_begun(runners[last], logs[last], records[last]);
        assert(item.attempt.err is None);
        assert forall|i: int| 0 <= i < n implies list::item_begun(
            runners[i],
            #[trigger] logs[i],
            records[i],
        ).attempt.log == logs[i].push(partial::done(Op::BeginNthField(i as usize))) by {
            if i < last {
                assert(logs.drop_last()[i] == logs[i]);
            }
        }
    }
}

/// A list that is read for an item that is the empty tuple sets it first: there is no item that would.
#[verifier::spinoff_prover]
pub proof fn a_list_for_the_empty_tuple_sets_it(
    state: State,
    span: Span,
    default: DefaultView,
    record: Seq<Call>,
)
    requires
        state.runner.stack.len() > 0,
        state.runner.stack.last() is ListItemOrListClose,
        on_reading(state, Outcome::ListStarted, span, default, record).state.log == record,
        record.len() > state.log.len(),
        record[state.log.len() as int].err is None,
        shape::type_info(
            partial::shape_at(state.log.push(record[state.log.len() as int])),
        ) matches TypeInfo::Struct(st) && shape::kind_of(st) is Tuple && shape::fields_of(st)@.len()
            == 0,
    ensures
        record.len() > state.log.len() + 1,
        record[state.log.len() as int + 1].op is SetDefault,
{
    reveal(driver::step);
    let below = state.runner.stack.drop_last();
    let log = state.log;
    let n = log.len() as int;
    let seen = RunnerView { stack: below, last_span: span, ..state.runner };
    let pushed = seen.push(Instruction::ListItemOrListClose).push(
        Instruction::Pop(PopReason::ListVal),
    );
    let item = list::item_begun(pushed, log, record);
    let set = list::empty_tuple_set(item.attempt, Outcome::ListStarted, record);
    let turn = list::list_turn(seen, log, Outcome::ListStarted, record);
    assert(turn.log == record);
    lemma_item_calls(pushed, log, record);
    if item.attempt.err is None {
        lemma_value_extends(item.runner, set.log, Outcome::ListStarted, record);
        assert(runner::extends(record, set.log));
        assert(set.log[n] == item.attempt.log[n]);
        assert(item.attempt.log =~= log.push(record[n]));
        assert(record[n + 1] == set.log[n + 1]);
    } else {
        assert(record == item.attempt.log);
        assert(record[n].err is Some);
    }
}

/// A struct or a variant of up to 63 fields has them begun, and one of more has none begun.
pub proof fn up_to_63_fields_are_kept_track_of(
    log: Seq<Call>,
    index: usize,
    variant: Variant,
    record: Seq<Call>,
)
    ensures
        ({
            let begun = Attempt::begin(log).field(index, record);
            if partial::frame_fields(log).len() <= 63 {
                begun.log.len() == log.len() + 1 && begun.log.last().op == Op::BeginNthField(index)
            } else {
                &&& begun.log == log
                &&& begun.err == Some(
                    ErrorView::Unimplemented("more than 63 fields in one struct or variant"@),
                )
            }
        }),
        partial::trackable(variant) <==> shape::fields_of(shape::data_of(variant))@.len() <= 63,
{
}

// ---------------------------------------------------------------------------------------------
// What a format is asked for

/// A format is asked for a value where one is due, for a key or the end of an object, or for an item
/// or the end of a list. It is told a value as a whole from one in an object, and is not asked for
/// anything where a value is skipped or ended. So what it is asked for tells what is due.
pub proof fn what_is_asked_for_tells_what_is_due(one: Instruction, other: Instruction)
    ensures
        driver::expected(one) is None <==> one is SkipValue || one is Pop,
        driver::expected(one) is Some && driver::expected(one) == driver::expected(other) ==> one
            == other,
        driver::expected(one) matches Some(expectation) ==> {
            &&& expectation is Value || expectation is ObjectVal <==> one is Value
            &&& expectation is Value ==> one == Instruction::Value(ValueReason::TopLevel)
            &&& expectation is ObjectVal ==> one == Instruction::Value(ValueReason::ObjectVal)
            &&& expectation is ObjectKeyOrObjectClose ==> one is ObjectKeyOrObjectClose
            &&& expectation is ListItemOrListClose ==> one is ListItemOrListClose
        },
{
}

/// A deserialization starts with the value as a whole: that is read first, from the start of the input,
/// and then ended. Nothing is counted yet, and no call is made but those that were.
pub proof fn the_value_as_a_whole_is_read_first(input: Seq<u8>, source: Seq<char>, log: Seq<Call>)
    ensures
        ({
            let state = driver::initial(input, source, log);
            let stack = state.runner.stack;
            &&& state.log == log
            &&& stack.last() == Instruction::Value(ValueReason::TopLevel)
            &&& stack.drop_last() == seq![Instruction::Pop(PopReason::TopLevel)]
            &&& state.runner.last_span.start == 0 && state.runner.last_span.len == 0
            &&& state.runner.input == input && state.runner.original_input == input
            &&& state.runner.format_source == source
            &&& state.runner.array_indices.len() == 0
            &&& state.runner.enum_tuple_field_count is None
            &&& state.runner.enum_tuple_current_field is None
        }),
{
    let stack = driver::initial(input, source, log).runner.stack;
    assert(stack.drop_last() =~= seq![Instruction::Pop(PopReason::TopLevel)]);
}

/// Where there is no offset to read from, nothing is read, and that is the error.
pub proof fn nothing_is_read_past_the_largest_offset(
    state: State,
    default: DefaultView,
    record: Seq<Call>,
)
    requires
        state.runner.stack.len() > 0,
        !(state.runner.stack.last() is Pop),
    ensures
        refuses(
            driver::step(state, Answer::Silent, default, record),
            state.log,
            ErrorView::Unimplemented("input past the largest offset"@),
        ),
        driver::answers(state, Answer::Silent) <==> state.runner.last_span.start
            + state.runner.last_span.len > usize::MAX,
{
    reveal(driver::step);
}

// ---------------------------------------------------------------------------------------------
// What is read from a type

/// The fields of a frame are those of its struct, or of the variant that is selected in it. No other
/// frame has fields.
pub proof fn the_fields_of_a_frame(log: Seq<Call>)
    ensures
        shape::type_info(partial::shape_at(log)) matches TypeInfo::Struct(st)
            ==> partial::frame_fields(log) == shape::fields_of(st)@,
        shape::type_info(partial::shape_at(log)) is Enum ==> (partial::variant_at(log) matches Some(
            variant,
        ) ==> partial::frame_fields(log) == shape::fields_of(shape::data_of(variant))@),
        shape::type_info(partial::shape_at(log)) is Enum && partial::variant_at(log) is None
            ==> partial::frame_fields(log).len() == 0,
        !(shape::type_info(partial::shape_at(log)) is Struct) && !(shape::type_info(
            partial::shape_at(log),
        ) is Enum) ==> partial::frame_fields(log).len() == 0,
{
}

/// A frame may be set as a whole just where no variant is selected, and all that is said to be set or
/// not is set.
pub proof fn a_frame_that_may_be_whole(log: Seq<Call>, index: usize)
    ensures
        partial::may_be_whole(log) ==> partial::variant_at(log) is None && partial::field_set_at(
            log,
            0,
        ) == Ok::<bool, ReflectError>(true) && (index < partial::frame_fields(log).len()
            ==> partial::field_set_at(log, index) == Ok::<bool, ReflectError>(true)),
        partial::variant_at(log) is None && partial::field_set_at(log, 0) == Ok::<
            bool,
            ReflectError,
        >(true) && (forall|i: usize|
            i < partial::frame_fields(log).len() ==> (#[trigger] partial::field_set_at(log, i))
                == Ok::<bool, ReflectError>(true)) ==> partial::may_be_whole(log),
{
}

/// A smart pointer is a pointer that can be made from the value that it points to.
pub proof fn a_smart_pointer_is_made_from_what_it_points_to(shape: &'static Shape)
    ensures
        match shape::def_info(shape) {
            DefInfo::Pointer(def) => shape::smart_pointer(shape) == if shape::from_pointee(def) {
                Some(def)
            } else {
                None
            },
            _ => shape::smart_pointer(shape) is None,
        },
{
}

/// Any attribute of a field can name the type that its value is made from, and any variant of an enum
/// can have a discriminant.
pub proof fn any_attribute_and_any_variant_counts(
    field: Field,
    shape: &'static Shape,
    discriminant: i64,
    i: int,
)
    ensures
        0 <= i < shape::attributes_of(field)@.len() && shape::source_of(
            shape::attributes_of(field)@[i],
        ) is Some ==> shape::names_source(field),
        (forall|j: int|
            0 <= j < shape::attributes_of(field)@.len() ==> shape::source_of(
                #[trigger] shape::attributes_of(field)@[j],
            ) is None) ==> !shape::names_source(field),
        0 <= i < shape::variants_of(shape).len() && shape::discriminant_of(
            shape::variants_of(shape)[i],
        ) == Some(discriminant) ==> shape::has_discriminant(shape, discriminant),
        (forall|j: int|
            0 <= j < shape::variants_of(shape).len() ==> shape::discriminant_of(
                #[trigger] shape::variants_of(shape)[j],
            ) != Some(discriminant)) ==> !shape::has_discriminant(shape, discriminant),
{
}

/// A variant of more than 63 fields is selected neither by a key nor by a text.
pub proof fn a_variant_of_too_many_fields_is_not_selected(
    state: State,
    name: Cow<'_, str>,
    span: Span,
    index: int,
    default: DefaultView,
    record: Seq<Call>,
)
    requires
        state.runner.stack.len() > 0,
        shape::type_info(partial::shape_at(state.log)) is Enum,
        shape::variants_of(partial::shape_at(state.log)).len() <= usize::MAX,
        first_variant_named(shape::variants_of(partial::shape_at(state.log)), name@, index),
        shape::fields_of(
            shape::data_of(shape::variants_of(partial::shape_at(state.log))[index]),
        )@.len() > 63,
    ensures
        ({
            let step = on_reading(state, key(name), span, default, record);
            let error = ErrorView::Unimplemented("more than 63 fields in one struct or variant"@);
            &&& state.runner.stack.last() is ObjectKeyOrObjectClose ==> refuses(
                step,
                state.log,
                error,
            )
            &&& state.runner.stack.last() is Value && is_plain(state.log) && partial::variant_at(
                state.log,
            ) is None ==> refuses(step, state.log, error)
        }),
{
    reveal(driver::step);
    a_variant_is_found_by_its_name(
        shape::variants_of(partial::shape_at(state.log)),
        name@,
        index,
    );
    if is_plain(state.log) {
        assert(value::next_wrap(state.log, false) is None);
    }
}

/// Where it cannot be told whether a field is set, that is the error: for an item of a tuple, for the
/// defaults of fields, for the field that is missing, and for fields that are taken from a default
/// value.
pub proof fn a_field_that_cannot_be_told_is_the_error(
    fields: Seq<Field>,
    from: int,
    index: usize,
    e: ReflectError,
    in_variant: bool,
    missing: bool,
    variant: Option<Variant>,
    log: Seq<Call>,
    source: Seq<Call>,
    record: Seq<Call>,
)
    requires
        0 <= from <= index < fields.len() <= usize::MAX,
        forall|i: usize|
            from <= i < index ==> (#[trigger] partial::field_set_at(log, i)) == Ok::<
                bool,
                ReflectError,
            >(true),
        partial::field_set_at(log, index) == Err::<bool, ReflectError>(e),
    ensures
        ({
            let failed = Attempt::begin(log).fail(ErrorView::ReflectError(e));
            &&& list::tuple_item(fields.len() as usize, from, log, record) == failed
            &&& pop::defaults_filled(fields, in_variant, from, log, missing, record).attempt
                == failed
            &&& pop::first_missing(fields, partial::shape_at(log), variant, from, log)
                == failed.err
            &&& pop::fields_taken(fields, from, log, source, record) == failed
        }),
    decreases index - from,
{
    if from < index {
        assert(partial::field_set_at(log, from as usize) == Ok::<bool, ReflectError>(true));
        a_field_that_cannot_be_told_is_the_error(
            fields,
            from + 1,
            index,
            e,
            in_variant,
            missing,
            variant,
            log,
            source,
            record,
        );
    }
}

} // verus!
