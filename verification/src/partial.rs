//! Values under construction: the part of `facet_reflect` that deserialization drives.
//!
//! A `Partial` is modelled by the calls made on it, in order, each with how it came back. What can
//! be read from a `Partial` follows from those calls, so each reading is a function of them.
//!
//! The functions that make a call are believed to make it with the arguments they are given, to add
//! it to the calls with the error that came back, and to do to what can be read what such a call does
//! ([`effect`]). Where the error follows from the calls made before, or from the type, it is stated or
//! has a name here ([`refusal`]). Where it also rests on code of the type that is built (its
//! conversions, parser or invariants) or on memory, it is left open. What is claimed beyond that is
//! said at each function.
use crate::shape::{self, DefInfo, TypeInfo};
use facet_core::{Field, Shape, Variant};
use facet_reflect::{HeapValue, Partial, ReflectError, VariantError};
use std::borrow::Cow;
use vstd::prelude::*;

verus! {

/// `facet_reflect::Partial`, a value under construction.
#[verifier::external_type_specification]
#[verifier::external_body]
pub struct ExPartial<'facet>(Partial<'facet>);

/// `facet_reflect::HeapValue`, a finished value.
#[verifier::external_type_specification]
#[verifier::external_body]
pub struct ExHeapValue<'facet>(HeapValue<'facet>);

/// `facet_reflect::ReflectError`, the failure of a call on a `Partial`.
#[verifier::external_type_specification]
#[verifier::external_body]
pub struct ExReflectError(ReflectError);

/// `facet_reflect::VariantError`, the failure to tell the variant of a value.
#[verifier::external_type_specification]
#[verifier::external_body]
pub struct ExVariantError(VariantError);

/// The number of fields of one struct or variant that a `Partial` keeps track of.
pub const MAX_FIELDS: usize = 63;

/// An integer, with the type of the place that it is stored in.
#[derive(Clone, Copy, Debug, PartialEq, Eq, Structural)]
pub enum Integer {
    I8(i8),
    I16(i16),
    I32(i32),
    I64(i64),
    I128(i128),
    Isize(isize),
    U8(u8),
    U16(u16),
    U32(u32),
    U64(u64),
    U128(u128),
    Usize(usize),
}

/// A text, with the type of the place that it is stored in.
pub enum Text<'a> {
    /// A `&str`.
    Borrowed(&'a str),
    /// A `String`.
    Owned(String),
    /// A `Cow<str>`.
    Either(Cow<'a, str>),
}

/// What a text holds, with the type of the place that it is stored in.
pub enum TextView {
    Borrowed(Seq<char>),
    Owned(Seq<char>),
    Either(Seq<char>),
}

impl<'a> View for Text<'a> {
    type V = TextView;

    open spec fn view(&self) -> TextView {
        match self {
            Text::Borrowed(s) => TextView::Borrowed(s@),
            Text::Owned(s) => TextView::Owned(s@),
            Text::Either(s) => TextView::Either(s@),
        }
    }
}

/// A call that changes a `Partial`, with its arguments.
pub enum Op {
    AllocShape(&'static Shape),
    End,
    Build,
    SetInteger(Integer),
    SetBool(bool),
    SetText(TextView),
    SetDefault,
    ParseFromStr(Seq<char>),
    SelectNthVariant(usize),
    SelectVariantNamed(Seq<char>),
    BeginNthField(usize),
    SetNthFieldToDefault(usize),
    /// The index, and the calls made on the `Partial` that the field is taken from.
    StealNthField(usize, Seq<Call>),
    /// The other side of `StealNthField`.
    LoseNthField(usize),
    BeginSmartPtr,
    BeginList,
    BeginListItem,
    BeginMap,
    BeginKey,
    BeginValue,
    BeginSome,
    BeginInner,
    BeginCustomDeserialization,
    /// A call that was made elsewhere, whatever it was.
    Elsewhere,
}

/// A call that was made on a `Partial`, and the error it came back with, if any.
pub struct Call {
    pub op: Op,
    pub err: Option<ReflectError>,
}

/// The call `op`, come back without an error.
pub open spec fn done(op: Op) -> Call {
    Call { op, err: None }
}

/// The error in a result.
pub open spec fn failure<T>(r: Result<T, ReflectError>) -> Option<ReflectError> {
    match r {
        Ok(_) => None,
        Err(e) => Some(e),
    }
}

/// The calls that make a default value of the type `shape`.
pub open spec fn default_calls(shape: &'static Shape) -> Seq<Call> {
    seq![done(Op::AllocShape(shape)), done(Op::SetDefault)]
}

/// Whether the calls `log` made a default value of the type `shape`, and then did nothing but move
/// fields out of it.
pub open spec fn default_left(log: Seq<Call>, shape: &'static Shape) -> bool {
    &&& log.len() >= 2
    &&& log.take(2) == default_calls(shape)
    &&& forall|k: int| 2 <= k < log.len() ==> (#[trigger] log[k]).op is LoseNthField
}

/// Whether, if the last frame is an enum with a variant selected after the calls `log`, a default
/// value of its type was seen to be of that variant.
pub open spec fn default_is_alike(log: Seq<Call>) -> bool {
    shape::type_info(shape_at(log)) is Enum ==> (variant_at(log) matches Some(variant) ==> exists|
        value: HeapValue<'static>,
    | #[trigger]
        built_from(value) == default_calls(shape_at(log)) && (variant_held(value) matches Ok(held)
            && shape::variant_name(held)@ == shape::variant_name(variant)@))
}

/// The calls made on a `Partial` since it was allocated, in order.
pub uninterp spec fn calls(wip: Partial<'_>) -> Seq<Call>;

/// The number of frames after the calls `log` (`Partial::frame_count`).
pub uninterp spec fn depth_at(log: Seq<Call>) -> usize;

/// Whether, after the calls `log`, each frame but the first stands on one that takes its value
/// back when it ends.
pub uninterp spec fn nested_at(log: Seq<Call>) -> bool;

/// The type of the last frame after the calls `log` (`Partial::shape`).
pub uninterp spec fn shape_at(log: Seq<Call>) -> &'static Shape;

/// Whether field `index` of the last frame is set after the calls `log` (`Partial::is_field_set`).
pub uninterp spec fn field_set_at(log: Seq<Call>, index: usize) -> Result<bool, ReflectError>;

/// The variant selected in the last frame after the calls `log` (`Partial::selected_variant`).
pub uninterp spec fn variant_at(log: Seq<Call>) -> Option<Variant>;

/// The field that the last frame builds, after the calls `log` (`Partial::parent_field`).
pub uninterp spec fn parent_field_at(log: Seq<Call>) -> Option<Field>;

/// Whether, after the calls `log`, element `index` of the array that the last frame is is set.
pub uninterp spec fn element_set_at(log: Seq<Call>, index: usize) -> bool;

/// The calls that a finished value was built from (`Partial::build`).
pub uninterp spec fn built_from(value: HeapValue<'_>) -> Seq<Call>;

/// The discriminant that a finished value holds (`PeekEnum::discriminant`).
pub uninterp spec fn discriminant_held(value: HeapValue<'_>) -> Result<i64, ReflectError>;

/// The variant of a finished value (`PeekEnum::active_variant`).
pub uninterp spec fn variant_held(value: HeapValue<'_>) -> Result<Variant, VariantFailure>;

/// The error with which values of the type `shape` are not allocated (`Partial::alloc_shape`).
pub uninterp spec fn alloc_refusal(shape: &'static Shape) -> Option<ReflectError>;

/// The error with which a value of the type `shape` is not set to an integer (`Partial::set`).
pub uninterp spec fn integer_misfit(shape: &'static Shape, value: Integer) -> Option<ReflectError>;

/// The error with which a value of the type `shape` is not set to a `bool` (`Partial::set`).
pub uninterp spec fn bool_misfit(shape: &'static Shape, value: bool) -> Option<ReflectError>;

/// The error with which a value of the type `shape` is not set to a text (`Partial::set`).
pub uninterp spec fn text_misfit(shape: &'static Shape, value: TextView) -> Option<ReflectError>;

/// The error with which, after the calls `log`, variant `index` is not selected
/// (`Partial::select_nth_variant`).
pub uninterp spec fn variant_refusal(log: Seq<Call>, index: usize) -> Option<ReflectError>;

/// The error with which, after the calls `log`, the variant `name` is not selected
/// (`Partial::select_variant_named`).
pub uninterp spec fn named_variant_refusal(log: Seq<Call>, name: Seq<char>) -> Option<ReflectError>;

/// The error with which, after the calls `log`, field `index` is not begun
/// (`Partial::begin_nth_field`).
pub uninterp spec fn field_refusal(log: Seq<Call>, index: usize) -> Option<ReflectError>;

/// The error with which, after the calls `log`, field `index` does not take its default
/// (`Partial::set_nth_field_to_default`).
pub uninterp spec fn field_default_refusal(log: Seq<Call>, index: usize) -> Option<ReflectError>;

/// The error with which, after the calls `log`, field `index` is not taken from a `Partial` on
/// which the calls `source` were made (`Partial::steal_nth_field`).
pub uninterp spec fn steal_refusal(log: Seq<Call>, source: Seq<Call>, index: usize) -> Option<
    ReflectError,
>;

/// The error with which, after the calls `log`, no list is begun (`Partial::begin_list`).
pub uninterp spec fn list_refusal(log: Seq<Call>) -> Option<ReflectError>;

/// The error with which, after the calls `log`, no map is begun (`Partial::begin_map`).
pub uninterp spec fn map_refusal(log: Seq<Call>) -> Option<ReflectError>;

/// The error with which, after the calls `log`, no `Some` is begun (`Partial::begin_some`).
pub uninterp spec fn some_refusal(log: Seq<Call>) -> Option<ReflectError>;

/// The error with which, after the calls `log`, no inner value is begun (`Partial::begin_inner`).
pub uninterp spec fn inner_refusal(log: Seq<Call>) -> Option<ReflectError>;

/// The error with which, after the calls `log`, no value of another type is begun
/// (`Partial::begin_custom_deserialization`).
pub uninterp spec fn custom_refusal(log: Seq<Call>) -> Option<ReflectError>;

/// Whether the call `op` gives the last frame its whole value.
pub open spec fn fills_frame(op: Op) -> bool {
    ||| op is SetInteger
    ||| op is SetBool
    ||| op is SetText
    ||| op is SetDefault
    ||| op is ParseFromStr
}

/// Whether after the calls `before` field `index` was begun and given its value, and nothing else:
/// these are the calls `log`.
pub open spec fn field_filled(before: Seq<Call>, index: usize, log: Seq<Call>) -> bool {
    &&& log.len() == before.len() + 2
    &&& log.drop_last() == before.push(done(Op::BeginNthField(index)))
    &&& log.last().err is None
    &&& fills_frame(log.last().op)
}

/// Whether after the calls `before` an item of a list was begun and given its value, and nothing
/// else: these are the calls `log`.
pub open spec fn item_filled(before: Seq<Call>, log: Seq<Call>) -> bool {
    &&& log.len() == before.len() + 2
    &&& log.drop_last() == before.push(done(Op::BeginListItem))
    &&& log.last().err is None
    &&& fills_frame(log.last().op)
}

/// Whether the last two of the calls `log` began a field and gave it its value.
pub open spec fn fills_a_field(log: Seq<Call>) -> bool {
    &&& log.len() >= 2
    &&& log[log.len() - 2].op is BeginNthField
    &&& log[log.len() - 2].err is None
    &&& log.last().err is None
    &&& fills_frame(log.last().op)
}

/// Whether after the calls `log` the value as a whole is there: it was given just now, it is a
/// struct of which the last field was just set, or it is a list that was just begun or took an item.
pub open spec fn is_whole(log: Seq<Call>) -> bool {
    let op = log.last().op;
    &&& log.len() > 0
    &&& log.last().err is None
    &&& depth_at(log) == 1
    &&& {
        ||| fills_frame(op)
        ||| {
            &&& op is End || op is SetNthFieldToDefault || op is StealNthField
            &&& shape::type_info(shape_at(log)) is Struct
            &&& frame_fields(log).len() > 0
            &&& all_set(log)
        }
        ||| {
            &&& op is End || op is BeginList
            &&& shape::def_info(shape_at(log)) is List
            &&& !(shape::type_info(shape_at(log)) is Struct)
            &&& !(shape::type_info(shape_at(log)) is Enum)
        }
    }
}

/// Whether the last of the calls `log` shows that the value is still under construction: it came
/// back without an error, and did not finish it.
pub open spec fn active(log: Seq<Call>) -> bool {
    &&& log.len() > 0
    &&& log.last().err is None
    &&& !(log.last().op is Build)
    &&& !(log.last().op is LoseNthField)
    &&& !(log.last().op is Elsewhere)
}

/// Whether, after the calls `log`, the last frame is a struct under construction that has a field
/// `index`.
pub open spec fn has_field(log: Seq<Call>, index: usize) -> bool {
    &&& active(log)
    &&& shape::type_info(shape_at(log)) is Struct
    &&& index < frame_fields(log).len()
}

/// Whether the last of the calls `log` set the last frame to its default.
pub open spec fn defaulted(log: Seq<Call>) -> bool {
    log.len() > 0 && log.last() == done(Op::SetDefault)
}

/// The error with which the type `shape` has no default, if it has none.
pub open spec fn no_default(shape: &'static Shape) -> Option<ReflectError> {
    if shape::implements_default(shape) {
        None
    } else {
        Some(
            fault_error(
                Fault::OperationFailed { shape, operation: "type does not implement Default" },
            ),
        )
    }
}

/// The error with which the field `field` has no default, if it has none.
pub open spec fn no_field_default(field: Field) -> Option<ReflectError> {
    let shape = shape::shape_of_field(field);
    if shape::has_default_fn(field) || shape::implements_default(shape) {
        None
    } else {
        Some(fault_error(Fault::NoDefault { shape }))
    }
}

/// The error with which the call `op` comes back after the calls `log`. Where that does not follow
/// from the calls before it, `came` is what came back.
pub open spec fn refusal(
    log: Seq<Call>,
    op: Op,
    came: Option<ReflectError>,
) -> Option<ReflectError> {
    match op {
        Op::SetInteger(value) => if active(log) {
            integer_misfit(shape_at(log), value)
        } else {
            came
        },
        Op::SetBool(value) => if active(log) {
            bool_misfit(shape_at(log), value)
        } else {
            came
        },
        Op::SetText(value) => if active(log) {
            text_misfit(shape_at(log), value)
        } else {
            came
        },
        Op::SetDefault => if active(log) {
            no_default(shape_at(log))
        } else {
            came
        },
        Op::SelectNthVariant(index) => variant_refusal(log, index),
        Op::SelectVariantNamed(name) => named_variant_refusal(log, name),
        Op::BeginNthField(index) => if has_field(log, index) {
            None
        } else {
            field_refusal(log, index)
        },
        Op::SetNthFieldToDefault(index) => if has_field(log, index) {
            no_field_default(frame_fields(log)[index as int])
        } else {
            field_default_refusal(log, index)
        },
        Op::StealNthField(index, source) => steal_refusal(log, source, index),
        Op::BeginList => if defaulted(log) {
            None
        } else {
            list_refusal(log)
        },
        Op::BeginMap => map_refusal(log),
        Op::BeginSome => some_refusal(log),
        Op::BeginInner => inner_refusal(log),
        Op::BeginCustomDeserialization => custom_refusal(log),
        Op::End => if fills_a_field(log) {
            None
        } else {
            came
        },
        Op::Build => if is_whole(log) && !shape::has_invariants(shape_at(log)) {
            None
        } else {
            came
        },
        _ => came,
    }
}

/// The fields that the last frame has after the calls `log`: those of a struct, or those of the
/// selected variant of an enum.
pub open spec fn frame_fields(log: Seq<Call>) -> Seq<Field> {
    match shape::type_info(shape_at(log)) {
        TypeInfo::Struct(st) => shape::fields_of(st)@,
        TypeInfo::Enum => match variant_at(log) {
            Some(variant) => shape::fields_of(shape::data_of(variant))@,
            None => Seq::empty(),
        },
        _ => Seq::empty(),
    }
}

/// Whether all fields that the last frame has after the calls `log` are set.
pub open spec fn all_set(log: Seq<Call>) -> bool {
    forall|index: usize|
        index < frame_fields(log).len() ==> (#[trigger] field_set_at(log, index)) == Ok::<
            bool,
            ReflectError,
        >(true)
}

/// Whether all that can be read after the calls `log` is that the last frame is set: nothing tells
/// it from one that was set as a whole.
pub open spec fn may_be_whole(log: Seq<Call>) -> bool {
    &&& variant_at(log) is None
    &&& field_set_at(log, 0) == Ok::<bool, ReflectError>(true)
    &&& all_set(log)
}

/// Whether, if the last frame is an array after the calls `log`, all its elements are set.
pub open spec fn no_element_missing(log: Seq<Call>) -> bool {
    shape::def_info(shape_at(log)) matches DefInfo::Array { len, .. } ==> forall|index: usize|
        index < len ==> #[trigger] element_set_at(log, index)
}

/// The first of `fields` from `from` on that is named `name`.
pub open spec fn field_named(fields: Seq<Field>, name: Seq<char>, from: int) -> Option<usize>
    decreases fields.len() - from,
{
    if from < 0 || from >= fields.len() {
        None
    } else if shape::field_name(fields[from])@ == name {
        Some(from as usize)
    } else {
        field_named(fields, name, from + 1)
    }
}

/// The first of `variants` from `from` on that is named `name`.
pub open spec fn variant_named(variants: Seq<Variant>, name: Seq<char>, from: int) -> Option<
    (usize, Variant),
>
    decreases variants.len() - from,
{
    if from < 0 || from >= variants.len() {
        None
    } else if shape::variant_name(variants[from])@ == name {
        Some((from as usize, variants[from]))
    } else {
        variant_named(variants, name, from + 1)
    }
}

/// Whether the fields of `variant` are few enough to be kept track of.
pub open spec fn trackable(variant: Variant) -> bool {
    shape::fields_of(shape::data_of(variant))@.len() <= MAX_FIELDS
}

/// Whether `shape` is an array, and neither a struct nor an enum.
pub open spec fn is_array(shape: &'static Shape) -> bool {
    &&& shape::def_info(shape) is Array
    &&& !(shape::type_info(shape) is Struct)
    &&& !(shape::type_info(shape) is Enum)
}

/// The frames are those of before.
pub open spec fn frames_kept(before: Seq<Call>, after: Seq<Call>) -> bool {
    &&& depth_at(after) == depth_at(before)
    &&& shape_at(after) == shape_at(before)
    &&& nested_at(after) == nested_at(before)
}

/// If `begun`, there is one frame more; if not, there are as many as before.
pub open spec fn frame_begun(before: Seq<Call>, after: Seq<Call>, begun: bool) -> bool {
    &&& depth_at(after) == depth_at(before) + if begun {
        1int
    } else {
        0
    }
    &&& nested_at(before) ==> nested_at(after)
}

/// No field is set, no variant is selected, and no element is set if it is an array.
pub open spec fn nothing_set(log: Seq<Call>) -> bool {
    &&& variant_at(log) is None
    &&& forall|index: usize|
        index < frame_fields(log).len() ==> (#[trigger] field_set_at(log, index)) == Ok::<
            bool,
            ReflectError,
        >(false)
    &&& is_array(shape_at(log)) ==> forall|index: usize| !(#[trigger] element_set_at(log, index))
}

/// What the end of the last frame, without an error, does to the frames: the last one is gone unless
/// it is the only one, and had no element missing if it is an array. If it was a field or an item
/// that was begun and given its value, and nothing else since, the frame that it was begun in is
/// there again, with that field or element set, and no other.
pub open spec fn frame_ended(before: Seq<Call>, after: Seq<Call>) -> bool {
    &&& depth_at(before) > 1 ==> depth_at(after) == depth_at(before) - 1
    &&& no_element_missing(before)
    &&& forall|outer: Seq<Call>, index: usize| #[trigger]
        field_filled(outer, index, before) ==> {
            &&& shape_at(after) == shape_at(outer)
            &&& index < frame_fields(outer).len() ==> only_field_set(outer, after, index)
            &&& only_element_set(outer, after, index)
        }
    &&& forall|outer: Seq<Call>| #[trigger]
        item_filled(outer, before) ==> shape_at(after) == shape_at(outer)
}

/// What the call `call`, made after the calls `before`, does to what can be read; `after` are all
/// the calls.
pub open spec fn effect(before: Seq<Call>, call: Call, after: Seq<Call>) -> bool {
    let done = call.err is None;
    match call.op {
        Op::AllocShape(shape) => {
            &&& depth_at(after) == 1
            &&& nested_at(after)
            &&& shape_at(after) == shape
            &&& parent_field_at(after) is None
            &&& nothing_set(after)
        },
        Op::End => {
            &&& nested_at(before) ==> nested_at(after)
            &&& depth_at(before) >= 1 ==> depth_at(after) >= 1
            &&& done ==> frame_ended(before, after)
        },
        Op::Build => done ==> no_element_missing(before),
        Op::SetInteger(_) => frames_kept(before, after),
        Op::SetBool(_) => frames_kept(before, after),
        Op::SetText(_) => frames_kept(before, after),
        Op::SetDefault => frames_kept(before, after),
        Op::ParseFromStr(_) => frames_kept(before, after),
        Op::SelectNthVariant(_) => frames_kept(before, after),
        Op::SelectVariantNamed(_) => frames_kept(before, after),
        Op::BeginNthField(index) => {
            &&& frame_begun(before, after, done)
            &&& done && has_field(before, index) ==> {
                let field = frame_fields(before)[index as int];
                &&& shape_at(after) == shape::shape_of_field(field)
                &&& parent_field_at(after) == Some(field)
            }
            &&& done && is_array(shape_at(before)) ==> {
                &&& shape::def_info(shape_at(before)) matches DefInfo::Array { item, .. }
                    && shape_at(after) == item
                &&& parent_field_at(after) is None
            }
        },
        Op::SetNthFieldToDefault(index) => {
            &&& depth_at(before) >= 1 ==> depth_at(after) >= 1
            &&& nested_at(before) ==> nested_at(after)
            &&& done ==> frames_kept(before, after) && only_field_set(before, after, index)
        },
        Op::StealNthField(index, _) => {
            &&& depth_at(before) >= 1 ==> depth_at(after) >= 1
            &&& nested_at(before) ==> nested_at(after)
            &&& done ==> frames_kept(before, after) && only_field_set(before, after, index)
        },
        Op::LoseNthField(_) => depth_at(after) == depth_at(before) && shape_at(after) == shape_at(
            before,
        ),
        Op::BeginSmartPtr => {
            &&& depth_at(before) <= depth_at(after) <= depth_at(before) + 1
            &&& nested_at(before) ==> nested_at(after)
        },
        Op::BeginList => frames_kept(before, after),
        Op::BeginMap => frames_kept(before, after),
        Op::BeginListItem => {
            &&& frame_begun(before, after, done)
            &&& done ==> (shape::def_info(shape_at(before)) matches DefInfo::List { item }
                ==> shape_at(after) == item)
            &&& done ==> parent_field_at(after) is None
        },
        Op::BeginKey => frame_begun(before, after, done),
        Op::BeginValue => frame_begun(before, after, done),
        Op::BeginSome => frame_begun(before, after, done),
        Op::BeginInner => frame_begun(before, after, done),
        Op::BeginCustomDeserialization => frame_begun(before, after, done),
        Op::Elsewhere => true,
    }
}

/// The call `op` was made, came back as `r`, and did what such a call does.
pub open spec fn called<T>(
    before: Partial<'_>,
    after: Partial<'_>,
    op: Op,
    r: Result<T, ReflectError>,
) -> bool {
    let call = Call { op, err: failure(r) };
    &&& calls(after) == calls(before).push(call)
    &&& effect(calls(before), call, calls(after))
}

/// Whether each of the calls that `later` has after those of `log` did what such a call does.
#[verifier::opaque]
pub open spec fn effective(later: Seq<Call>, log: Seq<Call>) -> bool {
    &&& log.len() <= later.len()
    &&& later.take(log.len() as int) == log
    &&& forall|k: int|
        log.len() <= k < later.len() ==> effect(
            later.take(k),
            #[trigger] later[k],
            later.take(k + 1),
        )
}

/// No calls, or one that did what it does.
pub broadcast proof fn lemma_effective_call(log: Seq<Call>, call: Call)
    requires
        #[trigger] effect(log, call, log.push(call)),
    ensures
        effective(log.push(call), log),
{
    reveal(effective);
    let later = log.push(call);
    assert(later.take(log.len() as int) =~= log);
    assert(later.take(log.len() as int + 1) =~= later);
}

/// No calls have nothing to do.
pub broadcast proof fn lemma_effective_none(log: Seq<Call>)
    ensures
        #[trigger] effective(log, log),
{
    reveal(effective);
    assert(log.take(log.len() as int) =~= log);
}

/// Calls and later calls.
pub broadcast proof fn lemma_effective_calls(first: Seq<Call>, second: Seq<Call>, third: Seq<Call>)
    requires
        #[trigger] effective(second, first),
        #[trigger] effective(third, second),
    ensures
        effective(third, first),
{
    reveal(effective);
    let n = second.len() as int;
    assert(third.take(n) == second);
    assert(third.take(first.len() as int) =~= second.take(first.len() as int));
    assert forall|k: int| first.len() <= k < third.len() implies effect(
        third.take(k),
        #[trigger] third[k],
        third.take(k + 1),
    ) by {
        if k < n {
            assert(second[k] == third[k]);
            assert(third.take(k) =~= second.take(k));
            assert(third.take(k + 1) =~= second.take(k + 1));
        }
    }
}

/// The last frame is the same. If its field `index` was not set it now is, and of the other fields
/// the same are set as before.
pub open spec fn only_field_set(before: Seq<Call>, after: Seq<Call>, index: usize) -> bool {
    &&& shape_at(after) == shape_at(before)
    &&& variant_at(after) == variant_at(before)
    &&& field_set_at(before, index) == Ok::<bool, ReflectError>(false) ==> {
        &&& field_set_at(after, index) == Ok::<bool, ReflectError>(true)
        &&& forall|other: usize|
            other != index && other < frame_fields(before).len() ==> (#[trigger] field_set_at(
                after,
                other,
            )) == field_set_at(before, other)
    }
}

/// The last frame is the same array. Its element `index` is set, and of the other elements the same
/// are set as before.
pub open spec fn only_element_set(before: Seq<Call>, after: Seq<Call>, index: usize) -> bool {
    is_array(shape_at(before)) ==> forall|other: usize|
        (#[trigger] element_set_at(after, other)) == (other == index || element_set_at(before, other))
}

/// Calls `Partial::alloc_shape`: claims that whether it fails, and how, is a fixed property of the
/// type, and that the new `Partial` has one frame, of that type, in which nothing is set yet.
#[verifier::external_body]
pub(crate) fn alloc_shape<'facet>(shape: &'static Shape) -> (r: Result<
    Partial<'facet>,
    ReflectError,
>)
    ensures
        failure(r) == alloc_refusal(shape),
        r matches Ok(wip) ==> {
            &&& calls(wip) == seq![done(Op::AllocShape(shape))]
            &&& effect(Seq::empty(), done(Op::AllocShape(shape)), calls(wip))
            &&& is_array(shape) ==> forall|index: usize|
                !(#[trigger] element_set_at(calls(wip), index))
        },
{
    Partial::alloc_shape(shape)
}

/// Calls `Partial::frame_count`: claims that the number follows from the calls made.
#[verifier::external_body]
pub(crate) fn frame_count(wip: &Partial<'_>) -> (r: usize)
    ensures
        r == depth_at(calls(*wip)),
{
    wip.frame_count()
}

/// Calls `Partial::shape`, which panics where there is no frame: claims that the type of the last
/// frame follows from the calls made.
#[verifier::external_body]
pub(crate) fn current_shape(wip: &Partial<'_>) -> (r: &'static Shape)
    requires
        depth_at(calls(*wip)) >= 1,
    ensures
        r == shape_at(calls(*wip)),
{
    wip.shape()
}

/// Calls `Partial::is_field_set`, which panics on an index past the fields that are kept track of:
/// claims that the answer follows from the calls made.
#[verifier::external_body]
pub(crate) fn is_field_set(wip: &Partial<'_>, index: usize) -> (r: Result<bool, ReflectError>)
    requires
        index <= MAX_FIELDS || index < frame_fields(calls(*wip)).len(),
    ensures
        r == field_set_at(calls(*wip), index),
{
    wip.is_field_set(index)
}

/// Calls `Partial::selected_variant`: claims that the variant follows from the calls made.
#[verifier::external_body]
pub(crate) fn selected_variant(wip: &Partial<'_>) -> (r: Option<Variant>)
    ensures
        r == variant_at(calls(*wip)),
{
    wip.selected_variant()
}

/// Calls `Partial::parent_field`: claims that the field follows from the calls made.
#[verifier::external_body]
pub(crate) fn parent_field(wip: &Partial<'_>) -> (r: Option<Field>)
    ensures
        r == parent_field_at(calls(*wip)),
{
    wip.parent_field().copied()
}

/// Calls `Partial::find_variant`: claims that it finds the first variant of that name among those
/// of the type of the last frame, with its index.
#[verifier::external_body]
pub(crate) fn find_variant(wip: &Partial<'_>, name: &str) -> (r: Option<(usize, Variant)>)
    requires
        depth_at(calls(*wip)) >= 1,
    ensures
        r == variant_named(shape::variants_of(shape_at(calls(*wip))), name@, 0),
        r matches Some((index, variant)) ==> index < shape::variants_of(
            shape_at(calls(*wip)),
        ).len() && variant == shape::variants_of(shape_at(calls(*wip)))[index as int],
{
    match wip.find_variant(name) {
        Some((index, variant)) => Some((index, *variant)),
        None => None,
    }
}

/// Calls `Partial::field_index`: claims that it finds the first field of that name among those of
/// the struct, or of the selected variant, that the last frame is.
#[verifier::external_body]
pub(crate) fn field_index(wip: &Partial<'_>, name: &str) -> (r: Option<usize>)
    requires
        depth_at(calls(*wip)) >= 1,
    ensures
        r == field_named(frame_fields(calls(*wip)), name@, 0),
{
    wip.field_index(name)
}

/// Calls `Partial::end`, which panics where a frame was begun on one that does not take its value
/// back. Claims that it never removes the first frame and never leaves frames that could not be
/// ended; that without an error it removes the last frame unless that is the only one; that it is an
/// error if the last frame is an array with an element missing; that a field or an element that was
/// begun and given its value ends without an error and is set from then on, while the others are as
/// they were before it was begun; and that the frame that it, or an item of a list, was begun in is
/// the last one again. Otherwise whether it fails also rests on the conversions of the type.
#[verifier::external_body]
pub(crate) fn end(wip: &mut Partial<'_>) -> (r: Result<(), ReflectError>)
    requires
        depth_at(calls(*old(wip))) >= 1,
        nested_at(calls(*old(wip))),
    ensures
        called(*old(wip), *final(wip), Op::End, r),
        nested_at(calls(*final(wip))),
        fills_a_field(calls(*old(wip))) ==> r is Ok,
{
    match wip.end() {
        Ok(_) => Ok(()),
        Err(e) => Err(e),
    }
}

/// Calls `Partial::build`: claims that the value it makes is made of the calls before it, that it is
/// an error if the last frame is an array with an element missing, and that it is none if the value
/// is there as a whole and its type has no invariants. Otherwise whether it fails also rests on those.
#[verifier::external_body]
pub(crate) fn build<'facet>(wip: &mut Partial<'facet>) -> (r: Result<
    HeapValue<'facet>,
    ReflectError,
>)
    ensures
        called(*old(wip), *final(wip), Op::Build, r),
        is_whole(calls(*old(wip))) && !shape::has_invariants(shape_at(calls(*old(wip)))) ==> r is Ok,
        r matches Ok(value) ==> built_from(value) == calls(*old(wip)),
{
    wip.build()
}

/// Calls `Partial::set` with an integer: claims that whether it fails, and how, follows from the
/// integer and the type of the last frame as long as the value is under construction, and that the
/// frames stay either way.
#[verifier::external_body]
pub(crate) fn set_integer(wip: &mut Partial<'_>, value: Integer) -> (r: Result<(), ReflectError>)
    requires
        depth_at(calls(*old(wip))) >= 1,
    ensures
        called(*old(wip), *final(wip), Op::SetInteger(value), r),
        active(calls(*old(wip))) ==> failure(r) == integer_misfit(shape_at(calls(*old(wip))), value),
{
    match value {
        Integer::I8(v) => wip.set(v),
        Integer::I16(v) => wip.set(v),
        Integer::I32(v) => wip.set(v),
        Integer::I64(v) => wip.set(v),
        Integer::I128(v) => wip.set(v),
        Integer::Isize(v) => wip.set(v),
        Integer::U8(v) => wip.set(v),
        Integer::U16(v) => wip.set(v),
        Integer::U32(v) => wip.set(v),
        Integer::U64(v) => wip.set(v),
        Integer::U128(v) => wip.set(v),
        Integer::Usize(v) => wip.set(v),
    }.map(|_| ())
}

/// Calls `Partial::set` with a `bool`: claims that whether it fails, and how, follows from the
/// `bool` and the type of the last frame as long as the value is under construction, and that the
/// frames stay either way.
#[verifier::external_body]
pub(crate) fn set_bool(wip: &mut Partial<'_>, value: bool) -> (r: Result<(), ReflectError>)
    requires
        depth_at(calls(*old(wip))) >= 1,
    ensures
        called(*old(wip), *final(wip), Op::SetBool(value), r),
        active(calls(*old(wip))) ==> failure(r) == bool_misfit(shape_at(calls(*old(wip))), value),
{
    match wip.set(value) {
        Ok(_) => Ok(()),
        Err(e) => Err(e),
    }
}

/// Calls `Partial::set` with a text: claims that whether it fails, and how, follows from the text
/// and the type of the last frame as long as the value is under construction, and that the frames
/// stay either way.
#[verifier::external_body]
pub(crate) fn set_text<'input: 'facet, 'facet>(
    wip: &mut Partial<'facet>,
    value: Text<'input>,
) -> (r: Result<(), ReflectError>)
    requires
        depth_at(calls(*old(wip))) >= 1,
    ensures
        called(*old(wip), *final(wip), Op::SetText(value@), r),
        active(calls(*old(wip))) ==> failure(r) == text_misfit(shape_at(calls(*old(wip))), value@),
{
    match value {
        Text::Borrowed(v) => wip.set(v),
        Text::Owned(v) => wip.set(v),
        Text::Either(v) => wip.set(v),
    }.map(|_| ())
}

/// Calls `Partial::set_default`: claims that as long as the value is under construction it fails
/// just where the type of the last frame does not implement `Default`, and that the frames stay
/// either way.
#[verifier::external_body]
pub(crate) fn set_default(wip: &mut Partial<'_>) -> (r: Result<(), ReflectError>)
    requires
        depth_at(calls(*old(wip))) >= 1,
    ensures
        called(*old(wip), *final(wip), Op::SetDefault, r),
        active(calls(*old(wip))) ==> failure(r) == no_default(shape_at(calls(*old(wip)))),
{
    match wip.set_default() {
        Ok(_) => Ok(()),
        Err(e) => Err(e),
    }
}

/// Calls `Partial::parse_from_str`: claims that the frames stay, whether it fails or not. Whether
/// it does rests on the parser of the type.
#[verifier::external_body]
pub(crate) fn parse_from_str(wip: &mut Partial<'_>, text: &str) -> (r: Result<(), ReflectError>)
    requires
        depth_at(calls(*old(wip))) >= 1,
    ensures
        called(*old(wip), *final(wip), Op::ParseFromStr(text@), r),
{
    match wip.parse_from_str(text) {
        Ok(_) => Ok(()),
        Err(e) => Err(e),
    }
}

/// Calls `Partial::select_nth_variant`, which panics on a variant with more fields than are kept
/// track of: claims that whether it fails, and how, follows from the index and the calls made
/// before, and that the frames stay either way.
#[verifier::external_body]
pub(crate) fn select_nth_variant(wip: &mut Partial<'_>, index: usize) -> (r: Result<
    (),
    ReflectError,
>)
    requires
        depth_at(calls(*old(wip))) >= 1,
        index < shape::variants_of(shape_at(calls(*old(wip)))).len() ==> trackable(
            shape::variants_of(shape_at(calls(*old(wip))))[index as int],
        ),
    ensures
        called(*old(wip), *final(wip), Op::SelectNthVariant(index), r),
        failure(r) == variant_refusal(calls(*old(wip)), index),
{
    match wip.select_nth_variant(index) {
        Ok(_) => Ok(()),
        Err(e) => Err(e),
    }
}

/// Calls `Partial::select_variant_named`, which panics on a variant with more fields than are kept
/// track of: claims that whether it fails, and how, follows from the name and the calls made
/// before, and that the frames stay either way.
#[verifier::external_body]
pub(crate) fn select_variant_named(wip: &mut Partial<'_>, name: &str) -> (r: Result<
    (),
    ReflectError,
>)
    requires
        depth_at(calls(*old(wip))) >= 1,
        variant_named(shape::variants_of(shape_at(calls(*old(wip)))), name@, 0) matches Some((_, v))
            ==> trackable(v),
    ensures
        called(*old(wip), *final(wip), Op::SelectVariantNamed(name@), r),
        failure(r) == named_variant_refusal(calls(*old(wip)), name@),
{
    match wip.select_variant_named(name) {
        Ok(_) => Ok(()),
        Err(e) => Err(e),
    }
}

/// Calls `Partial::begin_nth_field`, which panics on a struct with more fields than are kept track
/// of: claims that it does not fail on a field of a struct that is under construction, that otherwise
/// whether it fails, and how, follows from the index and the calls made before, and that without an
/// error there is one frame more, which can be ended, and is of the type of that field or element.
#[verifier::external_body]
pub(crate) fn begin_nth_field(wip: &mut Partial<'_>, index: usize) -> (r: Result<(), ReflectError>)
    requires
        depth_at(calls(*old(wip))) >= 1,
        frame_fields(calls(*old(wip))).len() <= MAX_FIELDS,
    ensures
        called(*old(wip), *final(wip), Op::BeginNthField(index), r),
        failure(r) == if has_field(calls(*old(wip)), index) {
            None
        } else {
            field_refusal(calls(*old(wip)), index)
        },
{
    match wip.begin_nth_field(index) {
        Ok(_) => Ok(()),
        Err(e) => Err(e),
    }
}

/// Calls `Partial::set_nth_field_to_default`, which panics on a struct with more fields than are
/// kept track of. Claims that on a field of a struct that is under construction it fails just where
/// the field has neither a default function nor a type with a default, that otherwise whether it
/// fails, and how, follows from the index and the calls made before, and that without an error it
/// sets that field, and no other, and leaves the frames as they were.
#[verifier::external_body]
pub(crate) fn set_nth_field_to_default(wip: &mut Partial<'_>, index: usize) -> (r: Result<
    (),
    ReflectError,
>)
    requires
        depth_at(calls(*old(wip))) >= 1,
        frame_fields(calls(*old(wip))).len() <= MAX_FIELDS,
    ensures
        called(*old(wip), *final(wip), Op::SetNthFieldToDefault(index), r),
        failure(r) == if has_field(calls(*old(wip)), index) {
            no_field_default(frame_fields(calls(*old(wip)))[index as int])
        } else {
            field_default_refusal(calls(*old(wip)), index)
        },
{
    match wip.set_nth_field_to_default(index) {
        Ok(_) => Ok(()),
        Err(e) => Err(e),
    }
}

/// Calls `Partial::steal_nth_field`, which panics on a struct or a variant with more fields than
/// are kept track of. Claims that whether it fails, and how, follows from the index and the calls
/// made before on both; that without an error it sets that field, and no other, and leaves the
/// frames as they were; and that `source`, which the field is moved out of, keeps its frames in any
/// case. It goes by the variant that is selected in `wip`, and does not look at the one that `source`
/// holds: where a default of the type was seen to be of that variant, so is `source`, as long as the
/// type's `Default` makes the same variant each time.
#[verifier::external_body]
pub(crate) fn steal_nth_field(
    wip: &mut Partial<'_>,
    source: &mut Partial<'_>,
    index: usize,
) -> (r: Result<(), ReflectError>)
    requires
        depth_at(calls(*old(wip))) >= 1,
        depth_at(calls(*old(source))) >= 1,
        frame_fields(calls(*old(wip))).len() <= MAX_FIELDS,
        index <= MAX_FIELDS,
        default_left(calls(*old(source)), shape_at(calls(*old(wip)))),
        default_is_alike(calls(*old(wip))),
    ensures
        called(*old(wip), *final(wip), Op::StealNthField(index, calls(*old(source))), r),
        failure(r) == steal_refusal(calls(*old(wip)), calls(*old(source)), index),
        called(*old(source), *final(source), Op::LoseNthField(index), r),
{
    match wip.steal_nth_field(source, index) {
        Ok(_) => Ok(()),
        Err(e) => Err(e),
    }
}

/// Calls `Partial::begin_smart_ptr`: claims that there is one frame more at most, which can be
/// ended. It begins none where the pointee is a slice, nor where it fails.
#[verifier::external_body]
pub(crate) fn begin_smart_ptr(wip: &mut Partial<'_>) -> (r: Result<(), ReflectError>)
    requires
        depth_at(calls(*old(wip))) >= 1,
    ensures
        called(*old(wip), *final(wip), Op::BeginSmartPtr, r),
{
    match wip.begin_smart_ptr() {
        Ok(_) => Ok(()),
        Err(e) => Err(e),
    }
}

/// Calls `Partial::begin_list`: claims that whether it fails, and how, follows from the calls made
/// before, that it does not fail on a value that was just set to its default, and that the frames
/// stay either way.
#[verifier::external_body]
pub(crate) fn begin_list(wip: &mut Partial<'_>) -> (r: Result<(), ReflectError>)
    requires
        depth_at(calls(*old(wip))) >= 1,
    ensures
        called(*old(wip), *final(wip), Op::BeginList, r),
        failure(r) == if defaulted(calls(*old(wip))) {
            None
        } else {
            list_refusal(calls(*old(wip)))
        },
{
    match wip.begin_list() {
        Ok(_) => Ok(()),
        Err(e) => Err(e),
    }
}

/// Calls `Partial::begin_list_item`: claims that without an error there is one frame more, which
/// can be ended, and is of the type of the items of a list. Whether it fails also rests on memory.
#[verifier::external_body]
pub(crate) fn begin_list_item(wip: &mut Partial<'_>) -> (r: Result<(), ReflectError>)
    requires
        depth_at(calls(*old(wip))) >= 1,
    ensures
        called(*old(wip), *final(wip), Op::BeginListItem, r),
{
    match wip.begin_list_item() {
        Ok(_) => Ok(()),
        Err(e) => Err(e),
    }
}

/// Calls `Partial::begin_map`: claims that whether it fails, and how, follows from the calls made
/// before, and that the frames stay either way.
#[verifier::external_body]
pub(crate) fn begin_map(wip: &mut Partial<'_>) -> (r: Result<(), ReflectError>)
    requires
        depth_at(calls(*old(wip))) >= 1,
    ensures
        called(*old(wip), *final(wip), Op::BeginMap, r),
        failure(r) == map_refusal(calls(*old(wip))),
{
    match wip.begin_map() {
        Ok(_) => Ok(()),
        Err(e) => Err(e),
    }
}

/// Calls `Partial::begin_key`: claims that without an error there is one frame more, which can
/// be ended. Whether it fails also rests on memory.
#[verifier::external_body]
pub(crate) fn begin_key(wip: &mut Partial<'_>) -> (r: Result<(), ReflectError>)
    requires
        depth_at(calls(*old(wip))) >= 1,
    ensures
        called(*old(wip), *final(wip), Op::BeginKey, r),
{
    match wip.begin_key() {
        Ok(_) => Ok(()),
        Err(e) => Err(e),
    }
}

/// Calls `Partial::begin_value`: claims that without an error there is one frame more, which can
/// be ended. Whether it fails also rests on memory.
#[verifier::external_body]
pub(crate) fn begin_value(wip: &mut Partial<'_>) -> (r: Result<(), ReflectError>)
    requires
        depth_at(calls(*old(wip))) >= 1,
    ensures
        called(*old(wip), *final(wip), Op::BeginValue, r),
{
    match wip.begin_value() {
        Ok(_) => Ok(()),
        Err(e) => Err(e),
    }
}

/// Calls `Partial::begin_some`: claims that whether it fails, and how, follows from the calls made
/// before, and that without an error there is one frame more, which can be ended. On an option that
/// was set as a whole it would begin one that the option does not take back.
#[verifier::external_body]
pub(crate) fn begin_some(wip: &mut Partial<'_>) -> (r: Result<(), ReflectError>)
    requires
        depth_at(calls(*old(wip))) >= 1,
        field_set_at(calls(*old(wip)), 1) != Ok::<bool, ReflectError>(true),
    ensures
        called(*old(wip), *final(wip), Op::BeginSome, r),
        failure(r) == some_refusal(calls(*old(wip))),
{
    match wip.begin_some() {
        Ok(_) => Ok(()),
        Err(e) => Err(e),
    }
}

/// Calls `Partial::begin_inner`: claims that whether it fails, and how, follows from the calls made
/// before, and that without an error there is one frame more, which can be ended. On a value that
/// is converted from the inner one and was set as a whole it would begin one that the value does not
/// take back; on a struct without a conversion it begins field 0, and panics if there are more fields
/// than are kept track of.
#[verifier::external_body]
pub(crate) fn begin_inner(wip: &mut Partial<'_>) -> (r: Result<(), ReflectError>)
    requires
        depth_at(calls(*old(wip))) >= 1,
        shape::converts(shape_at(calls(*old(wip)))) ==> !may_be_whole(calls(*old(wip))),
        !shape::converts(shape_at(calls(*old(wip)))) ==> frame_fields(calls(*old(wip))).len()
            <= MAX_FIELDS,
    ensures
        called(*old(wip), *final(wip), Op::BeginInner, r),
        failure(r) == inner_refusal(calls(*old(wip))),
{
    match wip.begin_inner() {
        Ok(_) => Ok(()),
        Err(e) => Err(e),
    }
}

/// Calls `Partial::begin_custom_deserialization`, which panics where the field has a
/// `deserialize_with` but no attribute that names the type it takes: claims that whether it fails,
/// and how, follows from the calls made before, and that without an error there is one frame more,
/// which can be ended.
#[verifier::external_body]
pub(crate) fn begin_custom_deserialization(wip: &mut Partial<'_>) -> (r: Result<(), ReflectError>)
    requires
        depth_at(calls(*old(wip))) >= 1,
        parent_field_at(calls(*old(wip))) matches Some(field) ==> shape::has_custom(field)
            ==> shape::names_source(field),
    ensures
        called(*old(wip), *final(wip), Op::BeginCustomDeserialization, r),
        failure(r) == custom_refusal(calls(*old(wip))),
{
    match wip.begin_custom_deserialization() {
        Ok(_) => Ok(()),
        Err(e) => Err(e),
    }
}

/// Why the variant of a value cannot be told.
pub enum VariantFailure {
    /// The value is no enum.
    NotAnEnum(ReflectError),
    /// Its variant cannot be read.
    Unreadable(VariantError),
}

/// Whether the discriminant that `value`, of the type `shape`, holds is that of a variant.
pub open spec fn tells_variant(value: HeapValue<'_>, shape: &'static Shape) -> bool {
    &&& !shape::null_optimized(shape)
    &&& discriminant_held(value) matches Ok(discriminant) && shape::has_discriminant(
        shape,
        discriminant,
    )
}

/// Calls `HeapValue::peek`, `Peek::into_enum` and `PeekEnum::discriminant` in turn, the last of which
/// reads a discriminant that a null-pointer optimized enum does not hold: claims that it is a fixed
/// property of the value.
#[verifier::external_body]
pub(crate) fn read_discriminant_held(value: &HeapValue<'_>) -> (r: Result<i64, ReflectError>)
    requires
        !shape::null_optimized(shape_at(built_from(*value))),
    ensures
        r == discriminant_held(*value),
{
    match value.peek().into_enum() {
        Ok(value) => Ok(value.discriminant()),
        Err(e) => Err(e),
    }
}

/// Calls `HeapValue::peek`, `Peek::into_enum` and `PeekEnum::active_variant` in turn, the last of
/// which panics on a value whose discriminant is that of no variant: claims that the variant is a
/// fixed property of the value.
#[verifier::external_body]
pub(crate) fn active_variant(value: &HeapValue<'_>) -> (r: Result<Variant, VariantFailure>)
    requires
        tells_variant(*value, shape_at(built_from(*value))),
    ensures
        r == variant_held(*value),
{
    match value.peek().into_enum() {
        Ok(value) => match value.active_variant() {
            Ok(variant) => Ok(*variant),
            Err(e) => Err(VariantFailure::Unreadable(e)),
        },
        Err(e) => Err(VariantFailure::NotAnEnum(e)),
    }
}

/// An error of `facet_reflect` that this library reports itself.
pub enum Fault {
    /// A field of a struct is missing.
    UninitializedField { shape: &'static Shape, field_name: &'static str },
    /// A field of a variant is missing.
    UninitializedEnumField {
        shape: &'static Shape,
        field_name: &'static str,
        variant_name: &'static str,
    },
    /// A field is to take its default, but its type has none.
    NoDefault { shape: &'static Shape },
    /// An operation failed.
    OperationFailed { shape: &'static Shape, operation: &'static str },
}

/// The `ReflectError` that says `fault`.
pub uninterp spec fn fault_error(fault: Fault) -> ReflectError;

/// Makes the `ReflectError` that says `fault`, of the variant of that name: claims that it is the
/// same for the same fault.
#[verifier::external_body]
pub(crate) fn reflect_error(fault: Fault) -> (r: ReflectError)
    ensures
        r == fault_error(fault),
{
    match fault {
        Fault::UninitializedField { shape, field_name } => ReflectError::UninitializedField { shape, field_name },
        Fault::UninitializedEnumField { shape, field_name, variant_name } => {
            ReflectError::UninitializedEnumField { shape, field_name, variant_name }
        },
        Fault::NoDefault { shape } => ReflectError::DefaultAttrButNoDefaultImpl { shape },
        Fault::OperationFailed { shape, operation } => ReflectError::OperationFailed { shape, operation },
    }
}

/// The operation that a `ReflectError` says has failed, where it is of that kind.
pub uninterp spec fn failed_operation(e: ReflectError) -> Option<&'static str>;

/// Tells `ReflectError::OperationFailed` from the other errors: claims that the operation it names
/// is a fixed property of the error.
#[verifier::external_body]
pub(crate) fn operation_of(e: &ReflectError) -> (r: Option<&'static str>)
    ensures
        r == failed_operation(*e),
{
    match e {
        ReflectError::OperationFailed { operation, .. } => Some(operation),
        _ => None,
    }
}

/// Returns the number of fields that the last frame of `wip` has.
pub(crate) fn frame_field_count(wip: &Partial<'_>) -> (r: usize)
    requires
        depth_at(calls(*wip)) >= 1,
    ensures
        r == frame_fields(calls(*wip)).len(),
{
    match shape::read_type(current_shape(wip)) {
        TypeInfo::Struct(st) => shape::read_fields(&st).len(),
        TypeInfo::Enum => match selected_variant(wip) {
            Some(variant) => shape::read_fields(&shape::read_data(&variant)).len(),
            None => 0,
        },
        _ => 0,
    }
}

} // verus!
