//! Which numeric type a number is stored as, and whether it fits.
use crate::error::{DeserError, DeserErrorKind, ErrorView};
use crate::numeric::{self, Number, NumericConvert};
use crate::partial::{self, Call, Integer, Op};
use crate::runner::{self, Attempt, StackRunner};
use crate::shape::{self, DefInfo, KnownType, TypeInfo};
use facet_core::Shape;
use facet_reflect::Partial;
use vstd::prelude::*;

verus! {

broadcast use {
    partial::lemma_effective_call,
    partial::lemma_effective_none,
    partial::lemma_effective_calls,
};

/// The integer types that a number can be stored as.
#[derive(Clone, Copy, Debug, PartialEq, Eq, Structural)]
pub enum IntegerType {
    I8,
    I16,
    I32,
    I64,
    I128,
    Isize,
    U8,
    U16,
    U32,
    U64,
    U128,
    Usize,
}

/// The floating-point types that a number can be stored as.
#[derive(Clone, Copy, Debug, PartialEq, Eq, Structural)]
pub enum FloatWidth {
    /// 32 bits.
    Single,
    /// 64 bits.
    Double,
}

/// The numeric types that a number can be stored as.
#[derive(Clone, Copy, Debug, PartialEq, Eq, Structural)]
pub enum NumericTarget {
    Integer(IntegerType),
    Float(FloatWidth),
}

/// A number that is to be stored in the last frame as a floating-point number.
#[derive(Clone, Copy, Debug)]
pub struct FloatRequest {
    /// The type of the frame.
    pub width: FloatWidth,
    /// The number.
    pub value: Number,
}

impl IntegerType {
    /// The name of the type.
    pub open spec fn name(self) -> Seq<char> {
        match self {
            IntegerType::I8 => "i8"@,
            IntegerType::I16 => "i16"@,
            IntegerType::I32 => "i32"@,
            IntegerType::I64 => "i64"@,
            IntegerType::I128 => "i128"@,
            IntegerType::Isize => "isize"@,
            IntegerType::U8 => "u8"@,
            IntegerType::U16 => "u16"@,
            IntegerType::U32 => "u32"@,
            IntegerType::U64 => "u64"@,
            IntegerType::U128 => "u128"@,
            IntegerType::Usize => "usize"@,
        }
    }

    /// Returns the name of the type.
    fn text(self) -> (r: &'static str)
        ensures
            r@ == self.name(),
    {
        match self {
            IntegerType::I8 => "i8",
            IntegerType::I16 => "i16",
            IntegerType::I32 => "i32",
            IntegerType::I64 => "i64",
            IntegerType::I128 => "i128",
            IntegerType::Isize => "isize",
            IntegerType::U8 => "u8",
            IntegerType::U16 => "u16",
            IntegerType::U32 => "u32",
            IntegerType::U64 => "u64",
            IntegerType::U128 => "u128",
            IntegerType::Usize => "usize",
        }
    }
}

/// `n` as a value of the type `ty`, where it fits.
pub open spec fn integer_for(n: Number, ty: IntegerType) -> Option<Integer> {
    let exact = match ty {
        IntegerType::I64 => numeric::exact_i64(n),
        IntegerType::I128 => numeric::exact_i128(n),
        IntegerType::Isize => numeric::exact_isize(n),
        _ => numeric::exact(n),
    };
    match exact {
        None => None,
        Some(v) => match ty {
            IntegerType::I8 => if i8::MIN <= v <= i8::MAX {
                Some(Integer::I8(v as i8))
            } else {
                None
            },
            IntegerType::I16 => if i16::MIN <= v <= i16::MAX {
                Some(Integer::I16(v as i16))
            } else {
                None
            },
            IntegerType::I32 => if i32::MIN <= v <= i32::MAX {
                Some(Integer::I32(v as i32))
            } else {
                None
            },
            IntegerType::I64 => if i64::MIN <= v <= i64::MAX {
                Some(Integer::I64(v as i64))
            } else {
                None
            },
            IntegerType::I128 => if i128::MIN <= v <= i128::MAX {
                Some(Integer::I128(v as i128))
            } else {
                None
            },
            IntegerType::Isize => if isize::MIN <= v <= isize::MAX {
                Some(Integer::Isize(v as isize))
            } else {
                None
            },
            IntegerType::U8 => if 0 <= v <= u8::MAX {
                Some(Integer::U8(v as u8))
            } else {
                None
            },
            IntegerType::U16 => if 0 <= v <= u16::MAX {
                Some(Integer::U16(v as u16))
            } else {
                None
            },
            IntegerType::U32 => if 0 <= v <= u32::MAX {
                Some(Integer::U32(v as u32))
            } else {
                None
            },
            IntegerType::U64 => if 0 <= v <= u64::MAX {
                Some(Integer::U64(v as u64))
            } else {
                None
            },
            IntegerType::U128 => if 0 <= v <= u128::MAX {
                Some(Integer::U128(v as u128))
            } else {
                None
            },
            IntegerType::Usize => if 0 <= v <= usize::MAX {
                Some(Integer::Usize(v as usize))
            } else {
                None
            },
        },
    }
}

/// Returns `value` as a value of the type `ty`, where it fits.
pub fn convert<T: NumericConvert>(value: &T, ty: IntegerType) -> (r: Option<Integer>)
    ensures
        r == integer_for(value.number(), ty),
{
    match ty {
        IntegerType::I8 => match value.to_i8() {
            Some(v) => Some(Integer::I8(v)),
            None => None,
        },
        IntegerType::I16 => match value.to_i16() {
            Some(v) => Some(Integer::I16(v)),
            None => None,
        },
        IntegerType::I32 => match value.to_i32() {
            Some(v) => Some(Integer::I32(v)),
            None => None,
        },
        IntegerType::I64 => match value.to_i64() {
            Some(v) => Some(Integer::I64(v)),
            None => None,
        },
        IntegerType::I128 => match value.to_i128() {
            Some(v) => Some(Integer::I128(v)),
            None => None,
        },
        IntegerType::Isize => match value.to_isize() {
            Some(v) => Some(Integer::Isize(v)),
            None => None,
        },
        IntegerType::U8 => match value.to_u8() {
            Some(v) => Some(Integer::U8(v)),
            None => None,
        },
        IntegerType::U16 => match value.to_u16() {
            Some(v) => Some(Integer::U16(v)),
            None => None,
        },
        IntegerType::U32 => match value.to_u32() {
            Some(v) => Some(Integer::U32(v)),
            None => None,
        },
        IntegerType::U64 => match value.to_u64() {
            Some(v) => Some(Integer::U64(v)),
            None => None,
        },
        IntegerType::U128 => match value.to_u128() {
            Some(v) => Some(Integer::U128(v)),
            None => None,
        },
        IntegerType::Usize => match value.to_usize() {
            Some(v) => Some(Integer::Usize(v)),
            None => None,
        },
    }
}

/// The integer type of `size` bytes, `usize` and `isize` apart.
pub open spec fn integer_of_size(size: usize, signed: bool) -> Option<IntegerType> {
    if size == 1 {
        Some(if signed { IntegerType::I8 } else { IntegerType::U8 })
    } else if size == 2 {
        Some(if signed { IntegerType::I16 } else { IntegerType::U16 })
    } else if size == 4 {
        Some(if signed { IntegerType::I32 } else { IntegerType::U32 })
    } else if size == 8 {
        Some(if signed { IntegerType::I64 } else { IntegerType::U64 })
    } else if size == 16 {
        Some(if signed { IntegerType::I128 } else { IntegerType::U128 })
    } else {
        None
    }
}

/// The error on a number that the type `to` does not hold.
pub open spec fn conversion_error(to: Seq<char>) -> ErrorView {
    ErrorView::NumericConversion { from: "numeric"@, to }
}

/// The numeric type that `shape` is, or the error on a number that is to be stored there.
pub open spec fn numeric_target(shape: &'static Shape) -> Result<NumericTarget, ErrorView> {
    if !(shape::type_info(shape) is Integer) && !(shape::type_info(shape) is Float) {
        Err(ErrorView::UnsupportedType { got: shape, wanted: "numeric type"@ })
    } else if shape::size_of_shape(shape) is None {
        Err(ErrorView::UnsupportedType { got: shape, wanted: "sized numeric type"@ })
    } else if !(shape::def_info(shape) is Scalar) {
        Err(ErrorView::UnsupportedType { got: shape, wanted: "scalar type"@ })
    } else {
        let size = shape::size_of_shape(shape)->0;
        match shape::type_info(shape) {
            TypeInfo::Integer { signed } => if !signed && shape::describes(
                shape,
                KnownType::Usize,
            ) {
                Ok(NumericTarget::Integer(IntegerType::Usize))
            } else if signed && shape::describes(shape, KnownType::Isize) {
                Ok(NumericTarget::Integer(IntegerType::Isize))
            } else {
                match integer_of_size(size, signed) {
                    Some(ty) => Ok(NumericTarget::Integer(ty)),
                    None => Err(
                        conversion_error(
                            if signed {
                                "unknown signed integer size"@
                            } else {
                                "unknown unsigned integer size"@
                            },
                        ),
                    ),
                }
            },
            _ => if size == 4 {
                Ok(NumericTarget::Float(FloatWidth::Single))
            } else if size == 8 {
                Ok(NumericTarget::Float(FloatWidth::Double))
            } else {
                Err(conversion_error("unknown float size"@))
            },
        }
    }
}

/// Returns the numeric type that `shape` is, or the error on a number that is to be stored there.
fn target_of(shape: &'static Shape) -> (r: Result<NumericTarget, DeserErrorKind>)
    ensures
        r is Ok <==> numeric_target(shape) is Ok,
        r matches Ok(target) ==> numeric_target(shape) == Ok::<NumericTarget, ErrorView>(target),
        r matches Err(kind) ==> numeric_target(shape) == Err::<NumericTarget, ErrorView>(kind@),
{
    let ty = shape::read_type(shape);
    let numeric = match ty {
        TypeInfo::Integer { .. } => true,
        TypeInfo::Float => true,
        _ => false,
    };
    if !numeric {
        return Err(DeserErrorKind::UnsupportedType { got: shape, wanted: "numeric type" });
    }
    let size: usize = match shape::read_size(shape) {
        Some(size) => size,
        None => {
            return Err(DeserErrorKind::UnsupportedType { got: shape, wanted: "sized numeric type" });
        },
    };
    match shape::read_def(shape) {
        DefInfo::Scalar => {},
        _ => {
            return Err(DeserErrorKind::UnsupportedType { got: shape, wanted: "scalar type" });
        },
    }
    match ty {
        TypeInfo::Integer { signed } => {
            // First check if the shape is specifically usize or isize
            if !signed && shape::is_type(shape, KnownType::Usize) {
                return Ok(NumericTarget::Integer(IntegerType::Usize));
            }
            if signed && shape::is_type(shape, KnownType::Isize) {
                return Ok(NumericTarget::Integer(IntegerType::Isize));
            }
            // Then check by size
            match (size, signed) {
                (1, true) => Ok(NumericTarget::Integer(IntegerType::I8)),
                (2, true) => Ok(NumericTarget::Integer(IntegerType::I16)),
                (4, true) => Ok(NumericTarget::Integer(IntegerType::I32)),
                (8, true) => Ok(NumericTarget::Integer(IntegerType::I64)),
                (16, true) => Ok(NumericTarget::Integer(IntegerType::I128)),
                (1, false) => Ok(NumericTarget::Integer(IntegerType::U8)),
                (2, false) => Ok(NumericTarget::Integer(IntegerType::U16)),
                (4, false) => Ok(NumericTarget::Integer(IntegerType::U32)),
                (8, false) => Ok(NumericTarget::Integer(IntegerType::U64)),
                (16, false) => Ok(NumericTarget::Integer(IntegerType::U128)),
                _ => {
                    let to = if signed {
                        "unknown signed integer size"
                    } else {
                        "unknown unsigned integer size"
                    };
                    Err(DeserErrorKind::NumericConversion { from: "numeric", to })
                },
            }
        },
        _ => {
            if size == 4 {
                Ok(NumericTarget::Float(FloatWidth::Single))
            } else if size == 8 {
                Ok(NumericTarget::Float(FloatWidth::Double))
            } else {
                Err(
                    DeserErrorKind::NumericConversion { from: "numeric", to: "unknown float size" },
                )
            }
        },
    }
}

/// What comes of a scalar: the calls that store it, or the floating-point number that is to be
/// stored.
pub struct Placement {
    pub attempt: Attempt,
    pub float: Option<FloatRequest>,
}

impl Placement {
    /// Calls, and no floating-point number.
    pub open spec fn plain(attempt: Attempt) -> Placement {
        Placement { attempt, float: None }
    }
}

/// What comes of the number `n`, read for the last frame.
pub open spec fn number_placement(log: Seq<Call>, n: Number, record: Seq<Call>) -> Placement {
    let start = Attempt::begin(log);
    match numeric_target(partial::shape_at(log)) {
        Err(kind) => Placement::plain(start.fail(kind)),
        Ok(NumericTarget::Integer(ty)) => match integer_for(n, ty) {
            Some(v) => Placement::plain(start.call(Op::SetInteger(v), record)),
            None => Placement::plain(start.fail(conversion_error(ty.name()))),
        },
        Ok(NumericTarget::Float(width)) => Placement {
            attempt: start,
            float: Some(FloatRequest { width, value: n }),
        },
    }
}

/// `r` is what came of `placement`, which left `wip`.
pub open spec fn placed_as<'input>(
    placement: Placement,
    runner: runner::RunnerView,
    wip: Partial<'_>,
    r: Result<Option<FloatRequest>, DeserError<'input>>,
) -> bool {
    &&& partial::calls(wip) == placement.attempt.log
    &&& r is Ok <==> placement.attempt.err is None
    &&& r matches Ok(float) ==> float == placement.float
    &&& r matches Err(e) ==> placement.attempt.err is Some && runner.reports(
        e,
        placement.attempt.err->0,
    )
}

impl<'input> StackRunner<'input> {
    /// Stores a number in the last frame, converted to its type. A number for a floating-point
    /// type comes back to the caller, to be stored there.
    pub fn set_numeric_value<T: NumericConvert>(&self, wip: &mut Partial<'_>, value: &T) -> (r:
        Result<Option<FloatRequest>, DeserError<'input>>)
        requires
            runner::ready(*old(wip)),
        ensures
            runner::ready(*final(wip)),
            runner::follows(partial::calls(*final(wip)), partial::calls(*old(wip))),
            runner::same_depth(*old(wip), *final(wip)),
            placed_as(
                number_placement(
                    partial::calls(*old(wip)),
                    value.number(),
                    partial::calls(*final(wip)),
                ),
                self@,
                *final(wip),
                r,
            ),
    {
        match target_of(partial::current_shape(wip)) {
            Err(kind) => Err(self.err(kind)),
            Ok(NumericTarget::Integer(ty)) => match convert(value, ty) {
                Some(v) => match partial::set_integer(wip, v) {
                    Ok(()) => Ok(None),
                    Err(e) => Err(self.reflect_err(e)),
                },
                None => Err(
                    self.err(DeserErrorKind::NumericConversion { from: "numeric", to: ty.text() }),
                ),
            },
            Ok(NumericTarget::Float(width)) => Ok(
                Some(FloatRequest { width, value: value.to_number() }),
            ),
        }
    }
}

} // verus!
