//! What becomes of a number that is read.
use crate::driver::{self, Effect, State};
use crate::error::ErrorView;
use crate::laws;
use crate::number_target::{self, FloatRequest, FloatWidth, IntegerType};
use crate::numeric::{self, Float64, Number, NumericConvert};
use crate::operation_laws::{is_followed_by, is_plain, makes, on_reading, refuses};
use crate::partial::{self, Call, Integer, Op};
use crate::pop::DefaultView;
use crate::scalar::{Outcome, Scalar};
use crate::shape::{self, KnownType, TypeInfo};
use crate::span::Span;
use crate::value;
use vstd::arithmetic::div_mod::*;
use vstd::arithmetic::mul::*;
use vstd::arithmetic::power2::*;
use vstd::prelude::*;
use vstd::std_specs::cmp::PartialEqSpec;

verus! {

/// A number in an integer form is the integer that it holds.
pub proof fn an_integer_is_what_it_holds(u: u64, i: i64, v: u128, w: i128)
    ensures
        numeric::exact(Number::U64(u)) == Some(u as int),
        numeric::exact(Number::I64(i)) == Some(i as int),
        numeric::exact(Number::U128(v)) == Some(v as int),
        numeric::exact(Number::I128(w)) == Some(w as int),
        numeric::exact_i64(Number::U64(u)) == Some(u as int),
        numeric::exact_i64(Number::I64(i)) == Some(i as int),
        numeric::exact_i64(Number::U128(v)) == Some(v as int),
        numeric::exact_i64(Number::I128(w)) == Some(w as int),
        numeric::exact_isize(Number::U64(u)) == Some(u as int),
        numeric::exact_isize(Number::I64(i)) == Some(i as int),
        numeric::exact_isize(Number::U128(v)) == Some(v as int),
        numeric::exact_isize(Number::I128(w)) == Some(w as int),
        numeric::exact_i128(Number::U64(u)) == Some(u as int),
        numeric::exact_i128(Number::I64(i)) == Some(i as int),
        numeric::exact_i128(Number::I128(w)) == Some(w as int),
{
}

/// A `u128` that goes into an `i128` is the same modulo 2^128, and in the range of an `i128`.
pub proof fn a_u128_wraps_around_in_an_i128(v: u128)
    ensures
        numeric::exact_i128(Number::U128(v)) matches Some(w) && {
            &&& i128::MIN <= w <= i128::MAX
            &&& (v - w) % 0x1_0000_0000_0000_0000_0000_0000_0000_0000int == 0
        },
{
}

/// A floating-point number that goes into an `i64` or an `isize` is the integer that it is. Where it
/// is 2^63, just past the largest, that one is taken.
pub proof fn a_double_is_what_it_is_in_an_i64(f: Float64)
    ensures
        f.whole_value() != Some(0x8000_0000_0000_0000int) ==> numeric::exact_i64(Number::F64(f))
            == f.whole_value() && numeric::exact_isize(Number::F64(f)) == f.whole_value(),
        f.whole_value() == Some(0x8000_0000_0000_0000int) ==> numeric::exact_i64(Number::F64(f))
            == Some(i64::MAX as int),
        f.whole_value() == Some(0x8000_0000_0000_0000int) && isize::MAX == i64::MAX
            ==> numeric::exact_isize(Number::F64(f)) == Some(isize::MAX as int),
        f.whole_value() == Some(0x8000_0000_0000_0000int) && isize::MAX != i64::MAX
            ==> numeric::exact_isize(Number::F64(f)) == Some(0x8000_0000_0000_0000int),
        numeric::exact(Number::F64(f)) == f.whole_value(),
        numeric::exact_i128(Number::F64(f)) == f.whole_value(),
{
}

/// What a floating-point number with the sign `negative`, the biased exponent `e` and the fraction
/// `f` is as an integer: `v`, just where `v` times a power of two is the significand times one, as
/// the exponent says. Infinities and NaNs are no integers.
pub proof fn a_double_is_its_significand_scaled(
    number: Float64,
    negative: bool,
    e: int,
    f: int,
    v: int,
)
    requires
        0 <= e < 0x800,
        0 <= f < 0x10_0000_0000_0000,
        number.bits == (if negative {
            0x8000_0000_0000_0000int
        } else {
            0
        }) + e * 0x10_0000_0000_0000 + f,
    ensures
        ({
            let s = if negative {
                -(f + if e == 0 {
                    0
                } else {
                    0x10_0000_0000_0000int
                })
            } else {
                f + if e == 0 {
                    0
                } else {
                    0x10_0000_0000_0000int
                }
            };
            let scale = if e == 0 {
                -1074
            } else {
                e - 1075
            };
            &&& e == 0x7ff ==> number.whole_value() is None
            &&& e != 0x7ff && scale >= 0 ==> number.whole_value() == Some(s * pow2(scale as nat))
            &&& e != 0x7ff && scale < 0 ==> (number.whole_value() == Some(v) <==> v * pow2(
                (-scale) as nat,
            ) == s)
        }),
{
    let bits = number.bits as int;
    assert(bits / 0x8000_0000_0000_0000 == if negative {
        1int
    } else {
        0
    });
    assert(bits / 0x10_0000_0000_0000 == e + if negative {
        0x800int
    } else {
        0
    });
    assert(number.negative() == negative);
    assert(number.exponent() == e);
    assert(number.fraction() == f);
    let m = number.significand();
    let scale = number.scale();
    if e != 0x7ff && scale >= 0 {
        let p = pow2(scale as nat) as int;
        assert(-(m * p) == (-m) * p) by (nonlinear_arith);
    }
    if e != 0x7ff && scale < 0 {
        let unit = pow2((-scale) as nat) as int;
        lemma_pow2_pos((-scale) as nat);
        lemma_fundamental_div_mod(m, unit);
        let q = m / unit;
        lemma_mul_is_commutative(unit, q);
        assert((-q) * unit == -(q * unit)) by (nonlinear_arith);
        if v * unit == m || (-v) * unit == m {
            let w = if v * unit == m {
                v
            } else {
                -v
            };
            lemma_mod_multiples_basic(w, unit);
            lemma_div_multiples_vanish(w, unit);
            lemma_mul_is_commutative(unit, w);
        }
        assert((-v) * unit == -(v * unit)) by (nonlinear_arith);
    }
}

/// An integer type stores every integer that it holds, as that integer, whatever form it was read
/// in.
pub proof fn an_integer_that_fits_is_stored(n: Number, v: int)
    requires
        numeric::exact(n) == Some(v),
    ensures
        i8::MIN <= v <= i8::MAX ==> number_target::integer_for(n, IntegerType::I8) == Some(
            Integer::I8(v as i8),
        ),
        i16::MIN <= v <= i16::MAX ==> number_target::integer_for(n, IntegerType::I16) == Some(
            Integer::I16(v as i16),
        ),
        i32::MIN <= v <= i32::MAX ==> number_target::integer_for(n, IntegerType::I32) == Some(
            Integer::I32(v as i32),
        ),
        i64::MIN <= v <= i64::MAX ==> number_target::integer_for(n, IntegerType::I64) == Some(
            Integer::I64(v as i64),
        ),
        i128::MIN <= v <= i128::MAX ==> number_target::integer_for(n, IntegerType::I128) == Some(
            Integer::I128(v as i128),
        ),
        isize::MIN <= v <= isize::MAX ==> number_target::integer_for(n, IntegerType::Isize) == Some(
            Integer::Isize(v as isize),
        ),
        u8::MIN <= v <= u8::MAX ==> number_target::integer_for(n, IntegerType::U8) == Some(
            Integer::U8(v as u8),
        ),
        u16::MIN <= v <= u16::MAX ==> number_target::integer_for(n, IntegerType::U16) == Some(
            Integer::U16(v as u16),
        ),
        u32::MIN <= v <= u32::MAX ==> number_target::integer_for(n, IntegerType::U32) == Some(
            Integer::U32(v as u32),
        ),
        u64::MIN <= v <= u64::MAX ==> number_target::integer_for(n, IntegerType::U64) == Some(
            Integer::U64(v as u64),
        ),
        u128::MIN <= v <= u128::MAX ==> number_target::integer_for(n, IntegerType::U128) == Some(
            Integer::U128(v as u128),
        ),
        usize::MIN <= v <= usize::MAX ==> number_target::integer_for(n, IntegerType::Usize) == Some(
            Integer::Usize(v as usize),
        ),
{
}

/// An integer type stores no number that it does not hold, apart from those that it brings into
/// range.
pub proof fn a_number_that_does_not_fit_is_not_stored(n: Number, ty: IntegerType)
    requires
        !laws::brought_into_range(n, ty),
        numeric::exact(n) matches Some(v) ==> match ty {
            IntegerType::I8 => v < i8::MIN || v > i8::MAX,
            IntegerType::I16 => v < i16::MIN || v > i16::MAX,
            IntegerType::I32 => v < i32::MIN || v > i32::MAX,
            IntegerType::I64 => v < i64::MIN || v > i64::MAX,
            IntegerType::I128 => v < i128::MIN || v > i128::MAX,
            IntegerType::Isize => v < isize::MIN || v > isize::MAX,
            IntegerType::U8 => v < 0 || v > u8::MAX,
            IntegerType::U16 => v < 0 || v > u16::MAX,
            IntegerType::U32 => v < 0 || v > u32::MAX,
            IntegerType::U64 => v < 0 || v > u64::MAX,
            IntegerType::U128 => v < 0 || v > u128::MAX,
            IntegerType::Usize => v < 0 || v > usize::MAX,
        },
    ensures
        number_target::integer_for(n, ty) is None,
{
}

/// The number that a scalar is.
pub open spec fn number_read(scalar: Scalar<'_>) -> Option<Number> {
    match scalar {
        Scalar::U64(v) => Some(Number::U64(v)),
        Scalar::I64(v) => Some(Number::I64(v)),
        Scalar::F64(v) => Some(Number::F64(v)),
        Scalar::U128(v) => Some(Number::U128(v)),
        Scalar::I128(v) => Some(Number::I128(v)),
        _ => None,
    }
}

/// Whether `i` is an integer of `size` bytes with the sign `signed`; `usize` and `isize` apart.
pub open spec fn is_of(i: Integer, size: usize, signed: bool) -> bool {
    match i {
        Integer::I8(_) => size == 1 && signed,
        Integer::I16(_) => size == 2 && signed,
        Integer::I32(_) => size == 4 && signed,
        Integer::I64(_) => size == 8 && signed,
        Integer::I128(_) => size == 16 && signed,
        Integer::U8(_) => size == 1 && !signed,
        Integer::U16(_) => size == 2 && !signed,
        Integer::U32(_) => size == 4 && !signed,
        Integer::U64(_) => size == 8 && !signed,
        Integer::U128(_) => size == 16 && !signed,
        _ => false,
    }
}

/// Whether `v` is in the range of integers of `size` bytes with the sign `signed`.
pub open spec fn in_range(v: int, size: usize, signed: bool) -> bool {
    if signed {
        -pow2((8 * size - 1) as nat) <= v < pow2((8 * size - 1) as nat)
    } else {
        0 <= v < pow2((8 * size) as nat)
    }
}

/// The ranges in numbers.
proof fn lemma_ranges()
    ensures
        pow2(7) == 0x80,
        pow2(8) == 0x100,
        pow2(15) == 0x8000,
        pow2(16) == 0x1_0000,
        pow2(31) == 0x8000_0000,
        pow2(32) == 0x1_0000_0000,
        pow2(63) == 0x8000_0000_0000_0000,
        pow2(64) == 0x1_0000_0000_0000_0000int,
        pow2(127) == 0x8000_0000_0000_0000_0000_0000_0000_0000int,
        pow2(128) == 0x1_0000_0000_0000_0000_0000_0000_0000_0000int,
{
    lemma2_to64();
    lemma2_to64_rest();
    lemma_pow2_adds(64, 63);
    lemma_pow2_adds(64, 64);
}

/// A number that is read for an integer type is stored as the integer that it is, in an integer of
/// the size and sign of the type, if that holds it. If it does not, that is an error that names the
/// type, and no call is made.
pub proof fn a_number_is_stored_as_the_integer_it_is(
    state: State,
    scalar: Scalar<'_>,
    n: Number,
    signed: bool,
    size: usize,
    span: Span,
    default: DefaultView,
    record: Seq<Call>,
)
    requires
        state.runner.stack.len() > 0,
        state.runner.stack.last() is Value,
        is_plain(state.log),
        number_read(scalar) == Some(n),
        shape::type_info(partial::shape_at(state.log)) == (TypeInfo::Integer { signed }),
        shape::def_info(partial::shape_at(state.log)) is Scalar,
        shape::size_of_shape(partial::shape_at(state.log)) == Some(size),
        !signed ==> !shape::describes(partial::shape_at(state.log), KnownType::Usize),
        signed ==> !shape::describes(partial::shape_at(state.log), KnownType::Isize),
        size == 1 || size == 2 || size == 4 || size == 8 || size == 16,
    ensures
        ({
            let step = on_reading(state, Outcome::Scalar(scalar), span, default, record);
            let name = if signed {
                if size == 1 {
                    "i8"@
                } else if size == 2 {
                    "i16"@
                } else if size == 4 {
                    "i32"@
                } else if size == 8 {
                    "i64"@
                } else {
                    "i128"@
                }
            } else {
                if size == 1 {
                    "u8"@
                } else if size == 2 {
                    "u16"@
                } else if size == 4 {
                    "u32"@
                } else if size == 8 {
                    "u64"@
                } else {
                    "u128"@
                }
            };
            &&& is_followed_by(step, state.runner, span, state.runner.stack.drop_last())
            &&& numeric::exact(n) matches Some(v) ==> (in_range(v, size, signed) ==> exists|
                i: Integer,
            | #[trigger]
                is_of(i, size, signed) && laws::integer_value(i) == v && makes(
                    step,
                    state.log,
                    seq![Op::SetInteger(i)],
                ))
            &&& (numeric::exact(n) matches Some(v) ==> !in_range(v, size, signed)) && !(signed
                && size == 8 && numeric::exact(n) == Some(0x8000_0000_0000_0000int) && n is F64) && !(
            signed && size == 16 && n is U128) ==> refuses(
                step,
                state.log,
                ErrorView::NumericConversion { from: "numeric"@, to: name },
            )
        }),
{
    reveal(driver::step);
    lemma_ranges();
    assert(value::next_wrap(state.log, false) is None);
    let ty = number_target::integer_of_size(size, signed)->0;
    match number_target::integer_for(n, ty) {
        Some(i) => {
            assert(is_of(i, size, signed));
        },
        None => {},
    }
}

/// A number that is read for `usize` or `isize` is stored as the integer that it is if that holds
/// it. If it does not, that is an error that names the type, and no call is made.
pub proof fn a_number_is_stored_as_the_size_it_is(
    state: State,
    scalar: Scalar<'_>,
    n: Number,
    signed: bool,
    span: Span,
    default: DefaultView,
    record: Seq<Call>,
)
    requires
        state.runner.stack.len() > 0,
        state.runner.stack.last() is Value,
        is_plain(state.log),
        number_read(scalar) == Some(n),
        shape::type_info(partial::shape_at(state.log)) == (TypeInfo::Integer { signed }),
        shape::def_info(partial::shape_at(state.log)) is Scalar,
        shape::size_of_shape(partial::shape_at(state.log)) is Some,
        !signed ==> shape::describes(partial::shape_at(state.log), KnownType::Usize),
        signed ==> shape::describes(partial::shape_at(state.log), KnownType::Isize),
    ensures
        ({
            let step = on_reading(state, Outcome::Scalar(scalar), span, default, record);
            let fits = |v: int|
                if signed {
                    isize::MIN <= v <= isize::MAX
                } else {
                    0 <= v <= usize::MAX
                };
            &&& is_followed_by(step, state.runner, span, state.runner.stack.drop_last())
            &&& numeric::exact(n) matches Some(v) ==> (fits(v) ==> makes(
                step,
                state.log,
                seq![
                    Op::SetInteger(
                        if signed {
                            Integer::Isize(v as isize)
                        } else {
                            Integer::Usize(v as usize)
                        },
                    ),
                ],
            ))
            &&& (numeric::exact(n) matches Some(v) ==> !fits(v)) && !(signed && numeric::exact(n)
                == Some(0x8000_0000_0000_0000int) && n is F64) ==> refuses(
                step,
                state.log,
                ErrorView::NumericConversion {
                    from: "numeric"@,
                    to: if signed {
                        "isize"@
                    } else {
                        "usize"@
                    },
                },
            )
        }),
{
    reveal(driver::step);
    assert(value::next_wrap(state.log, false) is None);
}

/// A number that is read for a floating-point type of 4 or 8 bytes comes back as it was read, to be
/// stored with that precision. No call is made, and nothing is added to what is due.
pub proof fn a_number_for_a_float_comes_back_as_it_was_read(
    state: State,
    scalar: Scalar<'_>,
    n: Number,
    size: usize,
    span: Span,
    default: DefaultView,
    record: Seq<Call>,
)
    requires
        state.runner.stack.len() > 0,
        state.runner.stack.last() is Value,
        is_plain(state.log),
        number_read(scalar) == Some(n),
        shape::type_info(partial::shape_at(state.log)) is Float,
        shape::def_info(partial::shape_at(state.log)) is Scalar,
        shape::size_of_shape(partial::shape_at(state.log)) == Some(size),
    ensures
        ({
            let step = on_reading(state, Outcome::Scalar(scalar), span, default, record);
            &&& step.state.log == state.log
            &&& step.state.runner.stack == state.runner.stack.drop_last()
            &&& step.state.runner.last_span == span
            &&& size == 4 ==> step.effect == Effect::Float(
                FloatRequest { width: FloatWidth::Single, value: n },
            )
            &&& size == 8 ==> step.effect == Effect::Float(
                FloatRequest { width: FloatWidth::Double, value: n },
            )
            &&& size != 4 && size != 8 ==> step.effect == Effect::Fail(
                ErrorView::NumericConversion { from: "numeric"@, to: "unknown float size"@ },
            )
        }),
{
    reveal(driver::step);
    assert(value::next_wrap(state.log, false) is None);
}

/// A number that is read for a type that is no number, has no size, or is no scalar is refused, as is
/// one for an integer of a size that no integer has.
pub proof fn a_number_for_what_is_no_number_is_refused(
    state: State,
    scalar: Scalar<'_>,
    span: Span,
    default: DefaultView,
    record: Seq<Call>,
)
    requires
        state.runner.stack.len() > 0,
        state.runner.stack.last() is Value,
        is_plain(state.log),
        number_read(scalar) is Some,
    ensures
        ({
            let step = on_reading(state, Outcome::Scalar(scalar), span, default, record);
            let got = partial::shape_at(state.log);
            let unsupported = |wanted: Seq<char>| ErrorView::UnsupportedType { got, wanted };
            if !(shape::type_info(got) is Integer) && !(shape::type_info(got) is Float) {
                refuses(step, state.log, unsupported("numeric type"@))
            } else if shape::size_of_shape(got) is None {
                refuses(step, state.log, unsupported("sized numeric type"@))
            } else if !(shape::def_info(got) is Scalar) {
                refuses(step, state.log, unsupported("scalar type"@))
            } else {
                let size = shape::size_of_shape(got)->0;
                shape::type_info(got) matches TypeInfo::Integer { signed } ==> (size != 1 && size != 2
                    && size != 4 && size != 8 && size != 16 && !(!signed && shape::describes(
                    got,
                    KnownType::Usize,
                )) && !(signed && shape::describes(got, KnownType::Isize)) ==> refuses(
                    step,
                    state.log,
                    ErrorView::NumericConversion {
                        from: "numeric"@,
                        to: if signed {
                            "unknown signed integer size"@
                        } else {
                            "unknown unsigned integer size"@
                        },
                    },
                ))
            }
        }),
{
    reveal(driver::step);
    assert(value::next_wrap(state.log, false) is None);
}

/// Two floating-point numbers are equal just where neither is a NaN, and they have the same sign,
/// exponent and fraction, or are both zero. So a NaN differs from itself, and every other number is
/// equal to itself.
pub proof fn doubles_are_equal_where_their_values_are(
    one: Float64,
    other: Float64,
    negative: (bool, bool),
    e: (int, int),
    f: (int, int),
)
    requires
        0 <= e.0 < 0x800,
        0 <= e.1 < 0x800,
        0 <= f.0 < 0x10_0000_0000_0000,
        0 <= f.1 < 0x10_0000_0000_0000,
        one.bits == (if negative.0 {
            0x8000_0000_0000_0000int
        } else {
            0
        }) + e.0 * 0x10_0000_0000_0000 + f.0,
        other.bits == (if negative.1 {
            0x8000_0000_0000_0000int
        } else {
            0
        }) + e.1 * 0x10_0000_0000_0000 + f.1,
    ensures
        ({
            let nan = (e.0 == 0x7ff && f.0 != 0) || (e.1 == 0x7ff && f.1 != 0);
            let same = negative.0 == negative.1 && e.0 == e.1 && f.0 == f.1;
            let zeros = e.0 == 0 && f.0 == 0 && e.1 == 0 && f.1 == 0;
            &&& one.eq_spec(&other) <==> !nan && (same || zeros)
            &&& one.eq_spec(&other) <==> other.eq_spec(&one)
            &&& one.nan() <==> e.0 == 0x7ff && f.0 != 0
            &&& one.zero() <==> e.0 == 0 && f.0 == 0
        }),
{
    lemma_parts(one, negative.0, e.0, f.0);
    lemma_parts(other, negative.1, e.1, f.1);
}

/// The parts of a floating-point number.
proof fn lemma_parts(number: Float64, negative: bool, e: int, f: int)
    requires
        0 <= e < 0x800,
        0 <= f < 0x10_0000_0000_0000,
        number.bits == (if negative {
            0x8000_0000_0000_0000int
        } else {
            0
        }) + e * 0x10_0000_0000_0000 + f,
    ensures
        number.negative() == negative,
        number.exponent() == e,
        number.fraction() == f,
{
    let bits = number.bits as int;
    assert(bits / 0x8000_0000_0000_0000 == if negative {
        1int
    } else {
        0
    });
    assert(bits / 0x10_0000_0000_0000 == e + if negative {
        0x800int
    } else {
        0
    });
}

/// A floating-point number has no fractional part just where it is an integer.
pub proof fn a_double_without_a_fractional_part_is_an_integer(number: Float64)
    ensures
        number.whole_magnitude() is Some <==> number.whole_value() is Some,
        number.whole_magnitude() matches Some(m) ==> m >= 0 && (number.whole_value() == Some(m)
            || number.whole_value() == Some(-m)),
{
    let s = number.significand();
    if number.finite() {
        if number.scale() >= 0 {
            lemma_pow2_pos(number.scale() as nat);
            lemma_mul_nonnegative(s, pow2(number.scale() as nat) as int);
        } else {
            lemma_pow2_pos((-number.scale()) as nat);
            lemma_div_pos_is_pos(s, pow2((-number.scale()) as nat) as int);
        }
    }
}

/// What fits a range is an integer in it.
pub proof fn what_fits_is_in_the_range(v: int, lo: int, hi: int)
    ensures
        numeric::fits(Some(v), lo, hi) <==> lo <= v <= hi,
        !numeric::fits(None, lo, hi),
{
}

/// A number keeps the form that it was read in.
pub proof fn a_number_keeps_its_form(u: u64, i: i64, f: Float64, v: u128, w: i128)
    ensures
        u.number() == Number::U64(u),
        i.number() == Number::I64(i),
        f.number() == Number::F64(f),
        v.number() == Number::U128(v),
        w.number() == Number::I128(w),
{
}

} // verus!
