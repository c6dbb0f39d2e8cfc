//! Ending a value: fields that were not read take their defaults.
use crate::error::{DeserError, DeserErrorKind, ErrorView};
use crate::instruction::PopReason;
use crate::partial::{self, Call, Fault, Op, VariantFailure, MAX_FIELDS};
use crate::runner::{self, Attempt, StackRunner};
use crate::shape::{self, FieldFlag, TypeInfo};
use facet_core::{Field, Shape, Variant};
use facet_reflect::{HeapValue, Partial, ReflectError};
use vstd::prelude::*;

verus! {

broadcast use {
    partial::lemma_effective_call,
    partial::lemma_effective_none,
    partial::lemma_effective_calls,
};

/// What came of filling in defaults.
pub struct Filling {
    /// The calls.
    pub attempt: Attempt,
    /// Whether a field without a default is missing.
    pub missing: bool,
}

/// A field of a struct set to its default.
pub open spec fn struct_field_default(log: Seq<Call>, index: usize, record: Seq<Call>) -> Attempt {
    if partial::frame_fields(log).len() > MAX_FIELDS {
        Attempt::begin(log).fail(runner::too_many_fields())
    } else {
        Attempt::begin(log).call(Op::SetNthFieldToDefault(index), record)
    }
}

/// A field of a variant set to the default of its type.
pub open spec fn variant_field_default(
    log: Seq<Call>,
    index: usize,
    field: Field,
    record: Seq<Call>,
) -> Attempt {
    let begun = Attempt::begin(log).field(index, record);
    if begun.err is Some {
        begun
    } else if shape::has_default_fn(field) || shape::implements_default(
        shape::shape_of_field(field),
    ) {
        begun.call(Op::SetDefault, record).call(Op::End, record)
    } else {
        begun.fail(
            ErrorView::ReflectError(
                partial::fault_error(Fault::NoDefault { shape: shape::shape_of_field(field) }),
            ),
        )
    }
}

/// The fields from `index` on that are not set and have a default, set to it in order; whether one
/// without a default is missing.
pub open spec fn defaults_filled(
    fields: Seq<Field>,
    in_variant: bool,
    index: int,
    log: Seq<Call>,
    missing: bool,
    record: Seq<Call>,
) -> Filling
    decreases fields.len() - index,
{
    if index < 0 || index >= fields.len() {
        Filling { attempt: Attempt::begin(log), missing }
    } else {
        match partial::field_set_at(log, index as usize) {
            Err(e) => Filling {
                attempt: Attempt::begin(log).fail(ErrorView::ReflectError(e)),
                missing,
            },
            Ok(true) => defaults_filled(fields, in_variant, index + 1, log, missing, record),
            Ok(false) => if shape::flagged(fields[index], FieldFlag::Default) {
                let attempt = if in_variant {
                    variant_field_default(log, index as usize, fields[index], record)
                } else {
                    struct_field_default(log, index as usize, record)
                };
                if attempt.err is Some {
                    Filling { attempt, missing }
                } else {
                    defaults_filled(fields, in_variant, index + 1, attempt.log, missing, record)
                }
            } else {
                defaults_filled(fields, in_variant, index + 1, log, true, record)
            },
        }
    }
}

/// The error on the first field from `index` on that is not set.
pub open spec fn first_missing(
    fields: Seq<Field>,
    shape: &'static Shape,
    variant: Option<Variant>,
    index: int,
    log: Seq<Call>,
) -> Option<ErrorView>
    decreases fields.len() - index,
{
    if index < 0 || index >= fields.len() {
        None
    } else {
        match partial::field_set_at(log, index as usize) {
            Err(e) => Some(ErrorView::ReflectError(e)),
            Ok(true) => first_missing(fields, shape, variant, index + 1, log),
            Ok(false) => Some(
                ErrorView::ReflectError(
                    partial::fault_error(missing_field(fields[index], shape, variant)),
                ),
            ),
        }
    }
}

/// The fault of a missing field, of a struct or of a variant.
pub open spec fn missing_field(
    field: Field,
    shape: &'static Shape,
    variant: Option<Variant>,
) -> Fault {
    match variant {
        None => Fault::UninitializedField { shape, field_name: shape::field_name(field) },
        Some(variant) => Fault::UninitializedEnumField {
            shape,
            field_name: shape::field_name(field),
            variant_name: shape::variant_name(variant),
        },
    }
}

/// Whether the last frame is a struct, or an enum with a variant selected.
pub open spec fn has_fields(log: Seq<Call>) -> bool {
    match shape::type_info(partial::shape_at(log)) {
        TypeInfo::Struct(_) => true,
        TypeInfo::Enum => partial::variant_at(log) is Some,
        _ => false,
    }
}

/// What came of the defaults of the fields themselves.
pub struct Completion {
    /// The calls.
    pub attempt: Attempt,
    /// Whether the fields that are left are to come from a default value of the whole type.
    pub wants_default: bool,
}

/// What comes of the fields of a struct or of a variant that were not read: those with a default
/// take it. If others are missing, a default value of the whole type has to provide them where the
/// type has one, and the first of them is an error where it has not.
pub open spec fn fields_completed(
    fields: Seq<Field>,
    variant: Option<Variant>,
    log: Seq<Call>,
    record: Seq<Call>,
) -> Completion {
    let shape = partial::shape_at(log);
    let filling = defaults_filled(fields, variant is Some, 0, log, false, record);
    if filling.attempt.err is Some || !filling.missing {
        Completion { attempt: filling.attempt, wants_default: false }
    } else if shape::default_attr(shape) {
        Completion { attempt: filling.attempt, wants_default: true }
    } else {
        Completion {
            attempt: Attempt {
                log: filling.attempt.log,
                err: first_missing(fields, shape, variant, 0, filling.attempt.log),
            },
            wants_default: false,
        }
    }
}

/// What comes of the last frame when it is to end, before a default value of its type is made.
pub open spec fn completed(log: Seq<Call>, reason: PopReason, record: Seq<Call>) -> Completion {
    let start = Attempt::begin(log);
    let shape = partial::shape_at(log);
    if reason is CustomDeserialization {
        Completion { attempt: start, wants_default: false }
    } else {
        match shape::type_info(shape) {
            TypeInfo::Struct(st) => fields_completed(shape::fields_of(st)@, None, log, record),
            TypeInfo::Enum => match partial::variant_at(log) {
                Some(variant) => fields_completed(
                    shape::fields_of(shape::data_of(variant))@,
                    Some(variant),
                    log,
                    record,
                ),
                None => Completion {
                    attempt: if shape::default_attr(shape) {
                        start.call(Op::SetDefault, record)
                    } else {
                        start
                    },
                    wants_default: false,
                },
            },
            _ => Completion { attempt: start, wants_default: false },
        }
    }
}

/// The fields from `index` on that are not set, taken in order from a value on which the calls
/// `source` were made.
pub open spec fn fields_taken(
    fields: Seq<Field>,
    index: int,
    log: Seq<Call>,
    source: Seq<Call>,
    record: Seq<Call>,
) -> Attempt
    decreases fields.len() - index,
{
    if index < 0 || index >= fields.len() {
        Attempt::begin(log)
    } else {
        match partial::field_set_at(log, index as usize) {
            Err(e) => Attempt::begin(log).fail(ErrorView::ReflectError(e)),
            Ok(true) => fields_taken(fields, index + 1, log, source, record),
            Ok(false) => if partial::frame_fields(log).len() > MAX_FIELDS {
                Attempt::begin(log).fail(runner::too_many_fields())
            } else {
                let taken = Attempt::begin(log).call(
                    Op::StealNthField(index as usize, source),
                    record,
                );
                if taken.err is Some {
                    taken
                } else {
                    fields_taken(
                        fields,
                        index + 1,
                        taken.log,
                        source.push(partial::done(Op::LoseNthField(index as usize))),
                        record,
                    )
                }
            },
        }
    }
}

/// What comes of the fields that are left, with a default value of the type, on which the calls
/// `source` were made, and which is of the variant `default_variant` if the type is an enum. One of
/// another variant provides no field.
pub open spec fn default_taken(
    log: Seq<Call>,
    source: Seq<Call>,
    default_variant: Option<&'static str>,
    record: Seq<Call>,
) -> Attempt {
    if same_variant(log, default_variant) {
        fields_taken(partial::frame_fields(log), 0, log, source, record)
    } else {
        Attempt::begin(log)
    }
}

/// Whether a default value of the variant `default_variant`, if its type is an enum, is of the
/// variant that is selected in the last frame.
pub open spec fn same_variant(log: Seq<Call>, default_variant: Option<&'static str>) -> bool {
    match (partial::variant_at(log), default_variant) {
        (Some(variant), Some(name)) => shape::variant_name(variant)@ == name@,
        _ => true,
    }
}

/// A default value of a type, or the error on the way to it: what the fields that are left come
/// from.
pub enum DefaultView {
    Failed(ErrorView),
    Ready(Option<&'static str>),
}

/// What comes of telling the variant of `value`, a default value of the type `shape`, if that is an
/// enum. A discriminant that is that of no variant tells none.
pub open spec fn default_told(value: HeapValue<'_>, shape: &'static Shape) -> DefaultView {
    let untold = ErrorView::Unimplemented("default of a variant without a discriminant"@);
    match shape::type_info(shape) {
        TypeInfo::Enum => if shape::null_optimized(shape) {
            DefaultView::Failed(untold)
        } else {
            match partial::discriminant_held(value) {
                Err(e) => DefaultView::Failed(ErrorView::ReflectError(e)),
                Ok(discriminant) => if !shape::has_discriminant(shape, discriminant) {
                    DefaultView::Failed(untold)
                } else {
                    match partial::variant_held(value) {
                        Ok(variant) => DefaultView::Ready(Some(shape::variant_name(variant))),
                        Err(VariantFailure::NotAnEnum(e)) => DefaultView::Failed(
                            ErrorView::ReflectError(e),
                        ),
                        Err(VariantFailure::Unreadable(e)) => DefaultView::Failed(
                            ErrorView::VariantError(e),
                        ),
                    }
                },
            }
        },
        _ => DefaultView::Ready(None),
    }
}

/// Whether a default value of the type `shape` is also built: to be held to the invariants of the
/// type, or to tell its variant.
pub open spec fn default_is_built(shape: &'static Shape) -> bool {
    shape::has_invariants(shape) || shape::type_info(shape) is Enum
}

/// Whether `value` is a default value of the type `shape`.
pub open spec fn is_default_value(value: HeapValue<'_>, shape: &'static Shape) -> bool {
    partial::built_from(value) == partial::default_calls(shape)
}

/// Whether `wip` is a default value of the type `shape` that was refused when it was built.
pub open spec fn is_refused_default(wip: Partial<'_>, shape: &'static Shape) -> bool {
    &&& partial::calls(wip).len() == 3
    &&& partial::calls(wip).drop_last() == partial::default_calls(shape)
    &&& partial::calls(wip).last().op is Build
    &&& partial::calls(wip).last().err is Some
}

/// Whether `default` came of making a default value of the type `shape`: of a value that was built,
/// where it is built, or of the first call on the way to it that failed.
pub open spec fn default_possible(default: DefaultView, shape: &'static Shape) -> bool {
    match partial::alloc_refusal(shape) {
        Some(e) => default == DefaultView::Failed(ErrorView::ReflectError(e)),
        None => match partial::no_default(shape) {
            Some(e) => default == DefaultView::Failed(ErrorView::ReflectError(e)),
            None => if !default_is_built(shape) {
                default == DefaultView::Ready(None)
            } else {
                ||| exists|value: HeapValue<'static>| #[trigger]
                    is_default_value(value, shape) && default == default_told(value, shape)
                ||| exists|wip: Partial<'static>| #[trigger]
                    is_refused_default(wip, shape) && default == DefaultView::Failed(
                        ErrorView::ReflectError(partial::calls(wip).last().err->0),
                    )
            },
        },
    }
}

/// Whether `default` came of making a default value of the type of the last frame, if one is made
/// when that ends.
pub open spec fn default_made(
    log: Seq<Call>,
    reason: PopReason,
    default: DefaultView,
    record: Seq<Call>,
) -> bool {
    completed(log, reason, record).wants_default ==> default_possible(
        default,
        partial::shape_at(log),
    )
}

/// Whether the last frame is the same after the calls `after` as after the calls `before`: of the
/// same type, and with the same variant selected.
pub open spec fn same_frame(before: Seq<Call>, after: Seq<Call>) -> bool {
    &&& partial::depth_at(after) == partial::depth_at(before)
    &&& partial::shape_at(after) == partial::shape_at(before)
    &&& partial::variant_at(after) == partial::variant_at(before)
}

/// Whether the fields of the last frame that are set after the calls `before` are still set after
/// the calls `after`.
pub open spec fn fields_kept(before: Seq<Call>, after: Seq<Call>) -> bool {
    forall|index: usize|
        index < partial::frame_fields(before).len() && (#[trigger] partial::field_set_at(
            before,
            index,
        )) == Ok::<bool, ReflectError>(true) ==> partial::field_set_at(after, index) == Ok::<
            bool,
            ReflectError,
        >(true)
}

/// Whether all fields of the last frame are owed a value when it ends: it has fields, and if some
/// are to come from a default value, that is no enum of another variant.
pub open spec fn owed_complete(
    log: Seq<Call>,
    reason: PopReason,
    default: DefaultView,
    record: Seq<Call>,
) -> bool {
    &&& reason !is CustomDeserialization
    &&& has_fields(log)
    &&& completed(log, reason, record).wants_default ==> (default matches DefaultView::Ready(name)
        ==> same_variant(log, name))
}

/// What comes of the last frame when it is to end.
pub open spec fn pop_attempt(
    log: Seq<Call>,
    reason: PopReason,
    default: DefaultView,
    record: Seq<Call>,
) -> Attempt {
    let completion = completed(log, reason, record);
    if !completion.wants_default {
        completion.attempt
    } else {
        match default {
            DefaultView::Failed(kind) => completion.attempt.fail(kind),
            DefaultView::Ready(variant) => default_taken(
                completion.attempt.log,
                partial::default_calls(partial::shape_at(log)),
                variant,
                record,
            ),
        }
    }
}

impl<'input> StackRunner<'input> {
    /// Sets field `index` of a struct to its default.
    fn default_struct_field(&self, wip: &mut Partial<'_>, index: usize) -> (r: Result<
        (),
        DeserError<'input>,
    >)
        requires
            runner::ready(*old(wip)),
        ensures
            runner::ready(*final(wip)),
            runner::follows(partial::calls(*final(wip)), partial::calls(*old(wip))),
            r is Ok ==> runner::same_depth(*old(wip), *final(wip)),
            runner::results_in(
                struct_field_default(
                    partial::calls(*old(wip)),
                    index,
                    partial::calls(*final(wip)),
                ),
                self@,
                *final(wip),
                r,
            ),
            r is Ok ==> partial::only_field_set(
                partial::calls(*old(wip)),
                partial::calls(*final(wip)),
                index,
            ),
    {
        if partial::frame_field_count(wip) > MAX_FIELDS {
            return Err(
                self.err(
                    DeserErrorKind::Unimplemented("more than 63 fields in one struct or variant"),
                ),
            );
        }
        self.placed(partial::set_nth_field_to_default(wip, index))
    }

    /// Sets field `index` of a variant, which is `field`, to the default of its type.
    fn default_variant_field(&self, wip: &mut Partial<'_>, index: usize, field: &Field) -> (r:
        Result<(), DeserError<'input>>)
        requires
            runner::ready(*old(wip)),
            index < partial::frame_fields(partial::calls(*old(wip))).len(),
        ensures
            runner::ready(*final(wip)),
            runner::follows(partial::calls(*final(wip)), partial::calls(*old(wip))),
            r is Ok ==> runner::same_depth(*old(wip), *final(wip)),
            runner::results_in(
                variant_field_default(
                    partial::calls(*old(wip)),
                    index,
                    *field,
                    partial::calls(*final(wip)),
                ),
                self@,
                *final(wip),
                r,
            ),
            r is Ok ==> partial::only_field_set(
                partial::calls(*old(wip)),
                partial::calls(*final(wip)),
                index,
            ),
    {
        match self.begin_field(wip, index) {
            Ok(()) => {},
            Err(e) => {
                return Err(e);
            },
        }
        // With a default function of its own the field still takes the default of its type
        let shape = shape::read_field_shape(field);
        if !shape::read_default_fn(field) && !shape::is_default(shape) {
            return Err(
                self.reflect_err(partial::reflect_error(Fault::NoDefault { shape })),
            );
        }
        match partial::set_default(wip) {
            Ok(()) => {},
            Err(e) => {
                return Err(self.reflect_err(e));
            },
        }
        let ghost log = partial::calls(*old(wip));
        assert(partial::calls(*wip).drop_last() == log.push(
            partial::done(Op::BeginNthField(index)),
        ));
        assert(partial::field_filled(log, index, partial::calls(*wip)));
        self.placed(partial::end(wip))
    }

    /// Sets the fields that are not set and have a default to it, and returns whether another one
    /// is missing.
    fn fill_defaults(&self, wip: &mut Partial<'_>, fields: &'static [Field], in_variant: bool) -> (r:
        Result<bool, DeserError<'input>>)
        requires
            runner::ready(*old(wip)),
            partial::frame_fields(partial::calls(*old(wip))) == fields@,
        ensures
            runner::ready(*final(wip)),
            runner::follows(partial::calls(*final(wip)), partial::calls(*old(wip))),
            r is Ok ==> runner::same_depth(*old(wip), *final(wip)),
            r is Ok ==> partial::shape_at(partial::calls(*final(wip))) == partial::shape_at(
                partial::calls(*old(wip)),
            ),
            r is Ok ==> partial::variant_at(partial::calls(*final(wip))) == partial::variant_at(
                partial::calls(*old(wip)),
            ),
            r is Ok ==> fields_kept(partial::calls(*old(wip)), partial::calls(*final(wip))),
            r == Ok::<bool, DeserError<'input>>(false) ==> partial::all_set(
                partial::calls(*final(wip)),
            ),
            forall|record: Seq<Call>|
                runner::extends(record, partial::calls(*final(wip))) ==> {
                    let filling = #[trigger] defaults_filled(
                        fields@,
                        in_variant,
                        0,
                        partial::calls(*old(wip)),
                        false,
                        record,
                    );
                    &&& filling.attempt.log == partial::calls(*final(wip))
                    &&& r is Ok <==> filling.attempt.err is None
                    &&& r matches Ok(missing) ==> missing == filling.missing
                    &&& r matches Err(e) ==> filling.attempt.err is Some && self@.reports(
                        e,
                        filling.attempt.err->0,
                    )
                },
    {
        let mut missing = false;
        let mut index: usize = 0;
        while index < fields.len()
            invariant
                index <= fields@.len(),
                runner::ready(*wip),
                runner::follows(partial::calls(*wip), partial::calls(*old(wip))),
                runner::same_depth(*old(wip), *wip),
                partial::shape_at(partial::calls(*wip)) == partial::shape_at(
                    partial::calls(*old(wip)),
                ),
                partial::variant_at(partial::calls(*wip)) == partial::variant_at(
                    partial::calls(*old(wip)),
                ),
                partial::frame_fields(partial::calls(*old(wip))) == fields@,
                fields_kept(partial::calls(*old(wip)), partial::calls(*wip)),
                !missing ==> forall|j: usize|
                    j < index ==> (#[trigger] partial::field_set_at(partial::calls(*wip), j)) == Ok::<
                        bool,
                        ReflectError,
                    >(true),
                forall|record: Seq<Call>|
                    runner::extends(record, partial::calls(*wip)) ==> #[trigger] defaults_filled(
                        fields@,
                        in_variant,
                        0,
                        partial::calls(*old(wip)),
                        false,
                        record,
                    ) == defaults_filled(
                        fields@,
                        in_variant,
                        index as int,
                        partial::calls(*wip),
                        missing,
                        record,
                    ),
            decreases fields@.len() - index,
        {
            match partial::is_field_set(wip, index) {
                Err(e) => {
                    return Err(self.reflect_err(e));
                },
                Ok(set) => {
                    if !set {
                        let field = &fields[index];
                        if shape::has_flag(field, FieldFlag::Default) {
                            let filled = if in_variant {
                                self.default_variant_field(wip, index, field)
                            } else {
                                self.default_struct_field(wip, index)
                            };
                            match filled {
                                Ok(()) => {},
                                Err(e) => {
                                    return Err(e);
                                },
                            }
                        } else {
                            missing = true;
                        }
                    }
                },
            }
            index = index + 1;
        }
        Ok(missing)
    }

    /// Returns the error on the first field that is not set.
    fn report_missing(
        &self,
        wip: &Partial<'_>,
        fields: &'static [Field],
        shape: &'static Shape,
        variant: &Option<Variant>,
    ) -> (r: Result<(), DeserError<'input>>)
        requires
            partial::frame_fields(partial::calls(*wip)) == fields@,
        ensures
            ({
                let err = first_missing(
                    fields@,
                    shape,
                    *variant,
                    0,
                    partial::calls(*wip),
                );
                &&& r is Ok <==> err is None
                &&& r matches Err(e) ==> err is Some && self@.reports(e, err->0)
            }),
            r is Ok ==> partial::all_set(partial::calls(*wip)),
    {
        let mut index: usize = 0;
        while index < fields.len()
            invariant
                index <= fields@.len(),
                partial::frame_fields(partial::calls(*wip)) == fields@,
                forall|j: usize|
                    j < index ==> (#[trigger] partial::field_set_at(partial::calls(*wip), j)) == Ok::<
                        bool,
                        ReflectError,
                    >(true),
                first_missing(fields@, shape, *variant, 0, partial::calls(*wip)) == first_missing(
                    fields@,
                    shape,
                    *variant,
                    index as int,
                    partial::calls(*wip),
                ),
            decreases fields@.len() - index,
        {
            match partial::is_field_set(wip, index) {
                Err(e) => {
                    return Err(self.reflect_err(e));
                },
                Ok(set) => {
                    if !set {
                        let field_name = shape::read_field_name(&fields[index]);
                        let fault = match variant {
                            None => Fault::UninitializedField { shape, field_name },
                            Some(variant) => Fault::UninitializedEnumField {
                                shape,
                                field_name,
                                variant_name: shape::read_variant_name(variant),
                            },
                        };
                        return Err(self.reflect_err(partial::reflect_error(fault)));
                    }
                },
            }
            index = index + 1;
        }
        Ok(())
    }

    /// Gives the fields that were not read their defaults, and returns whether some are left for a
    /// default value of the whole type.
    fn complete_fields(
        &self,
        wip: &mut Partial<'_>,
        fields: &'static [Field],
        variant: &Option<Variant>,
    ) -> (r: Result<bool, DeserError<'input>>)
        requires
            runner::ready(*old(wip)),
            partial::frame_fields(partial::calls(*old(wip))) == fields@,
        ensures
            runner::ready(*final(wip)),
            runner::follows(partial::calls(*final(wip)), partial::calls(*old(wip))),
            r is Ok ==> runner::same_depth(*old(wip), *final(wip)),
            r is Ok ==> partial::shape_at(partial::calls(*final(wip))) == partial::shape_at(
                partial::calls(*old(wip)),
            ),
            r is Ok ==> partial::variant_at(partial::calls(*final(wip))) == partial::variant_at(
                partial::calls(*old(wip)),
            ),
            r is Ok ==> fields_kept(partial::calls(*old(wip)), partial::calls(*final(wip))),
            r == Ok::<bool, DeserError<'input>>(false) ==> partial::all_set(
                partial::calls(*final(wip)),
            ),
            forall|record: Seq<Call>|
                runner::extends(record, partial::calls(*final(wip))) ==> {
                    let completion = #[trigger] fields_completed(
                        fields@,
                        *variant,
                        partial::calls(*old(wip)),
                        record,
                    );
                    &&& completion.attempt.log == partial::calls(*final(wip))
                    &&& r is Ok <==> completion.attempt.err is None
                    &&& r matches Ok(wants) ==> wants == completion.wants_default
                    &&& r matches Err(e) ==> completion.attempt.err is Some && self@.reports(
                        e,
                        completion.attempt.err->0,
                    )
                },
    {
        let shape = partial::current_shape(wip);
        match self.fill_defaults(wip, fields, variant.is_some()) {
            Err(e) => Err(e),
            Ok(missing) => {
                if !missing {
                    Ok(false)
                } else if shape::has_default_attr(shape) {
                    Ok(true)
                } else {
                    // Find the first uninitialized field to report in the error
                    match self.report_missing(wip, fields, shape, variant) {
                        Ok(()) => Ok(false),
                        Err(e) => Err(e),
                    }
                }
            },
        }
    }

    /// Gives what was not read of the last frame its default, as far as that needs no default
    /// value of the whole type, and returns whether it does.
    pub fn complete(&self, wip: &mut Partial<'_>, reason: PopReason) -> (r: Result<
        bool,
        DeserError<'input>,
    >)
        requires
            runner::ready(*old(wip)),
        ensures
            runner::ready(*final(wip)),
            runner::follows(partial::calls(*final(wip)), partial::calls(*old(wip))),
            r is Ok ==> runner::same_depth(*old(wip), *final(wip)),
            r is Ok ==> partial::shape_at(partial::calls(*final(wip))) == partial::shape_at(
                partial::calls(*old(wip)),
            ),
            r == Ok::<bool, DeserError<'input>>(true) ==> shape::type_info(
                partial::shape_at(partial::calls(*old(wip))),
            ) is Struct || shape::type_info(partial::shape_at(partial::calls(*old(wip)))) is Enum,
            r is Ok && has_fields(partial::calls(*old(wip))) && reason !is CustomDeserialization
                ==> {
                &&& partial::variant_at(partial::calls(*final(wip))) == partial::variant_at(
                    partial::calls(*old(wip)),
                )
                &&& r == Ok::<bool, DeserError<'input>>(false) ==> partial::all_set(
                    partial::calls(*final(wip)),
                )
                &&& fields_kept(partial::calls(*old(wip)), partial::calls(*final(wip)))
            },
            reason is CustomDeserialization ==> *final(wip) == *old(wip),
            r == Ok::<bool, DeserError<'input>>(true) ==> has_fields(partial::calls(*old(wip)))
                && reason !is CustomDeserialization,
            forall|record: Seq<Call>|
                runner::extends(record, partial::calls(*final(wip))) ==> {
                    let completion = #[trigger] completed(
                        partial::calls(*old(wip)),
                        reason,
                        record,
                    );
                    &&& completion.attempt.log == partial::calls(*final(wip))
                    &&& r is Ok <==> completion.attempt.err is None
                    &&& completion.wants_default == (r == Ok::<bool, DeserError<'input>>(true))
                    &&& r matches Err(e) ==> completion.attempt.err is Some && self@.reports(
                        e,
                        completion.attempt.err->0,
                    )
                },
    {
        if reason == PopReason::CustomDeserialization {
            return Ok(false);
        }
        let shape = partial::current_shape(wip);
        match shape::read_type(shape) {
            TypeInfo::Struct(st) => self.complete_fields(wip, shape::read_fields(&st), &None),
            TypeInfo::Enum => {
                let selected = partial::selected_variant(wip);
                match &selected {
                    Some(variant) => self.complete_fields(
                        wip,
                        shape::read_fields(&shape::read_data(variant)),
                        &selected,
                    ),
                    None => {
                        if shape::has_default_attr(shape) {
                            // No variant selected, but enum has default attribute - set to default
                            match partial::set_default(wip) {
                                Ok(()) => {},
                                Err(e) => {
                                    return Err(self.reflect_err(e));
                                },
                            }
                        }
                        Ok(false)
                    },
                }
            },
            _ => Ok(false),
        }
    }

    /// Takes the fields that are not set from a default value of the same type.
    fn take_fields(&self, wip: &mut Partial<'_>, source: &mut Partial<'_>) -> (r: Result<
        (),
        DeserError<'input>,
    >)
        requires
            runner::ready(*old(wip)),
            partial::depth_at(partial::calls(*old(source))) >= 1,
            partial::default_left(
                partial::calls(*old(source)),
                partial::shape_at(partial::calls(*old(wip))),
            ),
            partial::default_is_alike(partial::calls(*old(wip))),
        ensures
            runner::ready(*final(wip)),
            runner::follows(partial::calls(*final(wip)), partial::calls(*old(wip))),
            r is Ok ==> same_frame(partial::calls(*old(wip)), partial::calls(*final(wip))),
            forall|record: Seq<Call>|
                runner::extends(record, partial::calls(*final(wip))) ==> runner::results_in(
                    #[trigger] fields_taken(
                        partial::frame_fields(partial::calls(*old(wip))),
                        0,
                        partial::calls(*old(wip)),
                        partial::calls(*old(source)),
                        record,
                    ),
                    self@,
                    *final(wip),
                    r,
                ),
            r is Ok ==> partial::all_set(partial::calls(*final(wip))),
    {
        let count: usize = partial::frame_field_count(wip);
        let ghost fields = partial::frame_fields(partial::calls(*wip));
        let mut index: usize = 0;
        while index < count
            invariant
                index <= count,
                count == fields.len(),
                fields == partial::frame_fields(partial::calls(*old(wip))),
                fields == partial::frame_fields(partial::calls(*wip)),
                runner::ready(*wip),
                runner::follows(partial::calls(*wip), partial::calls(*old(wip))),
                same_frame(partial::calls(*old(wip)), partial::calls(*wip)),
                partial::depth_at(partial::calls(*source)) >= 1,
                partial::default_left(
                    partial::calls(*source),
                    partial::shape_at(partial::calls(*wip)),
                ),
                partial::default_is_alike(partial::calls(*wip)),
                forall|j: usize|
                    j < index ==> (#[trigger] partial::field_set_at(partial::calls(*wip), j)) == Ok::<
                        bool,
                        ReflectError,
                    >(true),
                forall|record: Seq<Call>|
                    runner::extends(record, partial::calls(*wip)) ==> #[trigger] fields_taken(
                        fields,
                        0,
                        partial::calls(*old(wip)),
                        partial::calls(*old(source)),
                        record,
                    ) == fields_taken(
                        fields,
                        index as int,
                        partial::calls(*wip),
                        partial::calls(*source),
                        record,
                    ),
            decreases count - index,
        {
            match partial::is_field_set(wip, index) {
                Err(e) => {
                    return Err(self.reflect_err(e));
                },
                Ok(set) => {
                    if !set {
                        if partial::frame_field_count(wip) > MAX_FIELDS {
                            return Err(
                                self.err(
                                    DeserErrorKind::Unimplemented(
                                        "more than 63 fields in one struct or variant",
                                    ),
                                ),
                            );
                        }
                        let ghost left = partial::calls(*source);
                        let taken = partial::steal_nth_field(wip, source, index);
                        assert(partial::calls(*source).take(2) == left.take(2));
                        match taken {
                            Ok(()) => {},
                            Err(e) => {
                                return Err(self.reflect_err(e));
                            },
                        }
                    }
                },
            }
            index = index + 1;
        }
        Ok(())
    }

    /// Takes the fields that are not set from `source`, a default value of the same type, which is
    /// of the variant `default_variant` if the type is an enum.
    pub fn take_default(
        &self,
        wip: &mut Partial<'_>,
        source: &mut Partial<'_>,
        default_variant: Option<&'static str>,
    ) -> (r: Result<(), DeserError<'input>>)
        requires
            runner::ready(*old(wip)),
            partial::depth_at(partial::calls(*old(source))) >= 1,
            partial::calls(*old(source)) == partial::default_calls(
                partial::shape_at(partial::calls(*old(wip))),
            ),
            default_possible(
                DefaultView::Ready(default_variant),
                partial::shape_at(partial::calls(*old(wip))),
            ),
            partial::shape_at(partial::calls(*old(source))) == partial::shape_at(
                partial::calls(*old(wip)),
            ),
        ensures
            runner::ready(*final(wip)),
            runner::follows(partial::calls(*final(wip)), partial::calls(*old(wip))),
            r is Ok ==> same_frame(partial::calls(*old(wip)), partial::calls(*final(wip))),
            r is Ok ==> fields_kept(partial::calls(*old(wip)), partial::calls(*final(wip))),
            forall|record: Seq<Call>|
                runner::extends(record, partial::calls(*final(wip))) ==> runner::results_in(
                    #[trigger] default_taken(
                        partial::calls(*old(wip)),
                        partial::calls(*old(source)),
                        default_variant,
                        record,
                    ),
                    self@,
                    *final(wip),
                    r,
                ),
            r is Ok && same_variant(partial::calls(*old(wip)), default_variant) ==> partial::all_set(
                partial::calls(*final(wip)),
            ),
    {
        match (partial::selected_variant(wip), default_variant) {
            (Some(variant), Some(name)) => {
                if shape::read_variant_name(&variant).to_owned() != name.to_owned() {
                    return Ok(());
                }
            },
            _ => {},
        }
        assert(partial::calls(*source).take(2) == partial::calls(*source));
        self.take_fields(wip, source)
    }

    /// Makes a default value of the type `shape`, and returns it with the name of its variant if
    /// the type is an enum.
    ///
    /// If the value has to be built, to be held to the type's invariants or to tell its variant, it
    /// is made twice: a finished value cannot be taken apart, so the fields come from another.
    fn default_value(&self, shape: &'static Shape) -> (r: Result<
        (Partial<'static>, Option<&'static str>),
        DeserError<'input>,
    >)
        ensures
            default_possible(
                match r {
                    Ok((_, name)) => DefaultView::Ready(name),
                    Err(e) => DefaultView::Failed(e.kind@),
                },
                shape,
            ),
            r matches Ok((source, _)) ==> {
                &&& partial::calls(source) == partial::default_calls(shape)
                &&& partial::depth_at(partial::calls(source)) == 1
                &&& partial::shape_at(partial::calls(source)) == shape
            },
            r matches Err(e) ==> self@.reports(e, e.kind@),
    {
        let mut source: Partial<'static> = match partial::alloc_shape(shape) {
            Ok(source) => source,
            Err(e) => {
                return Err(self.reflect_err(e));
            },
        };
        match partial::set_default(&mut source) {
            Ok(()) => {},
            Err(e) => {
                return Err(self.reflect_err(e));
            },
        }
        assert(partial::calls(source) == partial::default_calls(shape));
        let told = match shape::read_type(shape) {
            TypeInfo::Enum => true,
            _ => false,
        };
        if !told && !shape::read_invariants(shape) {
            return Ok((source, None));
        }
        let mut wip: Partial<'static> = match partial::alloc_shape(shape) {
            Ok(wip) => wip,
            Err(e) => {
                return Err(self.reflect_err(e));
            },
        };
        match partial::set_default(&mut wip) {
            Ok(()) => {},
            Err(e) => {
                return Err(self.reflect_err(e));
            },
        }
        assert(partial::calls(wip) == partial::default_calls(shape));
        let value = match partial::build(&mut wip) {
            Ok(value) => value,
            Err(e) => {
                assert(partial::calls(wip).drop_last() == partial::default_calls(shape));
                assert(is_refused_default(wip, shape));
                return Err(self.reflect_err(e));
            },
        };
        assert(is_default_value(value, shape));
        if !told {
            return Ok((source, None));
        }
        if shape::is_null_optimized(shape) {
            return Err(self.untold_default());
        }
        match partial::read_discriminant_held(&value) {
            Ok(discriminant) => {
                if !shape::knows_discriminant(shape, discriminant) {
                    return Err(self.untold_default());
                }
            },
            Err(e) => {
                return Err(self.reflect_err(e));
            },
        }
        match partial::active_variant(&value) {
            Ok(variant) => Ok((source, Some(shape::read_variant_name(&variant)))),
            Err(VariantFailure::NotAnEnum(e)) => Err(self.reflect_err(e)),
            Err(VariantFailure::Unreadable(e)) => Err(self.err(DeserErrorKind::VariantError(e))),
        }
    }

    /// Returns the error on a default value that does not tell its variant.
    fn untold_default(&self) -> (r: DeserError<'input>)
        ensures
            self@.reports(
                r,
                ErrorView::Unimplemented("default of a variant without a discriminant"@),
            ),
    {
        self.err(DeserErrorKind::Unimplemented("default of a variant without a discriminant"))
    }

    /// Gives what was not read of the last frame its default.
    pub(crate) fn settle(&self, wip: &mut Partial<'_>, reason: PopReason) -> (r: Result<
        (),
        DeserError<'input>,
    >)
        requires
            runner::ready(*old(wip)),
        ensures
            runner::ready(*final(wip)),
            runner::follows(partial::calls(*final(wip)), partial::calls(*old(wip))),
            r is Ok ==> runner::same_depth(*old(wip), *final(wip)),
            r is Ok ==> partial::shape_at(partial::calls(*final(wip))) == partial::shape_at(
                partial::calls(*old(wip)),
            ),
            r is Ok && (has_fields(partial::calls(*old(wip))) || reason is CustomDeserialization)
                ==> same_frame(partial::calls(*old(wip)), partial::calls(*final(wip)))
                && fields_kept(partial::calls(*old(wip)), partial::calls(*final(wip))),
            forall|record: Seq<Call>|
                runner::extends(record, partial::calls(*final(wip))) ==> (#[trigger] completed(
                    partial::calls(*old(wip)),
                    reason,
                    record,
                )).wants_default == completed(
                    partial::calls(*old(wip)),
                    reason,
                    partial::calls(*final(wip)),
                ).wants_default,
            exists|default: DefaultView|
                {
                    &&& #[trigger] default_made(
                        partial::calls(*old(wip)),
                        reason,
                        default,
                        partial::calls(*final(wip)),
                    )
                    &&& forall|record: Seq<Call>|
                        runner::extends(record, partial::calls(*final(wip))) ==> runner::results_in(
                            #[trigger] pop_attempt(
                                partial::calls(*old(wip)),
                                reason,
                                default,
                                record,
                            ),
                            self@,
                            *final(wip),
                            r,
                        )
                    &&& forall|record: Seq<Call>|
                        runner::extends(record, partial::calls(*final(wip))) && r is Ok
                            && #[trigger] owed_complete(
                            partial::calls(*old(wip)),
                            reason,
                            default,
                            record,
                        ) ==> partial::all_set(partial::calls(*final(wip)))
                },
    {
        let shape = partial::current_shape(wip);
        let ghost before = partial::calls(*wip);
        let wants_default = self.complete(wip, reason);
        let ghost after = partial::calls(*wip);
        match wants_default {
            Ok(true) => {},
            Ok(false) => {
                assert(default_made(before, reason, DefaultView::Ready(None), after));
                return Ok(());
            },
            Err(e) => {
                assert(default_made(before, reason, DefaultView::Ready(None), after));
                return Err(e);
            },
        }
        match self.default_value(shape) {
            Err(e) => {
                assert(default_made(before, reason, DefaultView::Failed(e.kind@), after));
                Err(e)
            },
            Ok((mut source, name)) => {
                let taken = self.take_default(wip, &mut source, name);
                assert(default_made(
                    before,
                    reason,
                    DefaultView::Ready(name),
                    partial::calls(*wip),
                ));
                taken
            },
        }
    }

    /// Ends the last frame as far as its contents go: fields that were not read take their
    /// defaults.
    pub fn pop<'facet>(&mut self, wip: Partial<'facet>, reason: PopReason) -> (r: Result<
        Partial<'facet>,
        DeserError<'input>,
    >)
        requires
            runner::ready(wip),
        ensures
            *final(self) == *old(self),
            r matches Ok(ended) ==> {
                &&& runner::ready(ended)
                &&& runner::same_depth(wip, ended)
                &&& partial::shape_at(partial::calls(ended)) == partial::shape_at(
                    partial::calls(wip),
                )
                &&& has_fields(partial::calls(wip)) || reason is CustomDeserialization ==> {
                    &&& same_frame(partial::calls(wip), partial::calls(ended))
                    &&& fields_kept(partial::calls(wip), partial::calls(ended))
                }
            },
            exists|default: DefaultView, log: Seq<Call>|
                {
                    let attempt = pop_attempt(partial::calls(wip), reason, default, log);
                    &&& #[trigger] default_made(partial::calls(wip), reason, default, log)
                    &&& runner::follows(log, partial::calls(wip))
                    &&& attempt.log == log
                    &&& r is Ok <==> attempt.err is None
                    &&& r matches Ok(ended) ==> partial::calls(ended) == log
                    &&& r matches Err(e) ==> attempt.err is Some && old(self)@.reports(
                        e,
                        attempt.err->0,
                    )
                    &&& r is Ok && owed_complete(partial::calls(wip), reason, default, log)
                        ==> partial::all_set(log)
                },
    {
        let mut wip = wip;
        match self.settle(&mut wip, reason) {
            Ok(()) => Ok(wip),
            Err(e) => Err(e),
        }
    }
}

} // verus!
