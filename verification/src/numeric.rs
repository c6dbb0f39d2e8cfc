//! Numbers as a format hands them over, and their conversion to the integer types of a target.
use vstd::arithmetic::mul::*;
use vstd::arithmetic::power2::*;
use vstd::prelude::*;

verus! {

/// A double-precision floating-point number, held as its IEEE 754 bit pattern.
#[derive(Clone, Copy, Debug)]
pub struct Float64 {
    pub bits: u64,
}

/// `==` is that of floating-point numbers: NaN differs from everything, the two zeros are equal.
impl PartialEq for Float64 {
    fn eq(&self, other: &Self) -> (r: bool) {
        !self.is_nan() && !other.is_nan() && (self.bits == other.bits || (self.is_zero()
            && other.is_zero()))
    }
}

impl vstd::std_specs::cmp::PartialEqSpecImpl for Float64 {
    open spec fn obeys_eq_spec() -> bool {
        true
    }

    open spec fn eq_spec(&self, other: &Self) -> bool {
        !self.nan() && !other.nan() && (self.bits == other.bits || (self.zero() && other.zero()))
    }
}

/// A number in the form in which a format delivered it.
#[derive(Clone, Copy, Debug, PartialEq)]
pub enum Number {
    U64(u64),
    I64(i64),
    F64(Float64),
    U128(u128),
    I128(i128),
}

/// Whether `n` is an integer from `lo` to `hi`.
pub open spec fn fits(n: Option<int>, lo: int, hi: int) -> bool {
    n is Some && lo <= n->0 <= hi
}

/// `n`, with 2^63 brought down to the largest `i64`.
pub open spec fn saturated_at_two_pow_63(n: Option<int>) -> Option<int> {
    if n == Some(0x8000_0000_0000_0000int) {
        Some(0x7fff_ffff_ffff_ffffint)
    } else {
        n
    }
}

/// The integer that `n` is, where it is one.
pub open spec fn exact(n: Number) -> Option<int> {
    match n {
        Number::U64(v) => Some(v as int),
        Number::I64(v) => Some(v as int),
        Number::F64(v) => v.whole_value(),
        Number::U128(v) => Some(v as int),
        Number::I128(v) => Some(v as int),
    }
}

/// The integer that goes into an `i64`. The upper bound of a floating-point number is compared as
/// a double, and `i64::MAX` rounds up to 2^63 there: that one value past the range is admitted and
/// comes out as `i64::MAX`.
pub open spec fn exact_i64(n: Number) -> Option<int> {
    match n {
        Number::F64(v) => saturated_at_two_pow_63(v.whole_value()),
        _ => exact(n),
    }
}

/// The integer that goes into an `isize`: as for `i64` where `isize` is 64 bits wide, while a
/// 32-bit bound needs no rounding.
pub open spec fn exact_isize(n: Number) -> Option<int> {
    if isize::MAX == i64::MAX {
        exact_i64(n)
    } else {
        exact(n)
    }
}

/// The integer that goes into an `i128`: a `u128` above `i128::MAX` wraps around, as a cast does.
pub open spec fn exact_i128(n: Number) -> Option<int> {
    match n {
        Number::U128(v) => if v <= i128::MAX {
            Some(v as int)
        } else {
            Some(v - 0x1_0000_0000_0000_0000_0000_0000_0000_0000)
        },
        _ => exact(n),
    }
}

/// Conversion to the integer types: `Some` of the same integer where the target type holds it,
/// `None` where it does not. Two conversions bring a number into range instead: a `u128` wraps
/// around in an `i128`, and a floating-point number of 2^63 is the largest `i64` and 64-bit
/// `isize`.
pub trait NumericConvert {
    /// This number, with its type.
    spec fn number(&self) -> Number;

    /// Converts to `i8`.
    fn to_i8(&self) -> (r: Option<i8>)
        ensures
            r is Some <==> fits(exact(self.number()), i8::MIN as int, i8::MAX as int),
            r matches Some(v) ==> exact(self.number()) == Some(v as int),
    ;

    /// Converts to `i16`.
    fn to_i16(&self) -> (r: Option<i16>)
        ensures
            r is Some <==> fits(exact(self.number()), i16::MIN as int, i16::MAX as int),
            r matches Some(v) ==> exact(self.number()) == Some(v as int),
    ;

    /// Converts to `i32`.
    fn to_i32(&self) -> (r: Option<i32>)
        ensures
            r is Some <==> fits(exact(self.number()), i32::MIN as int, i32::MAX as int),
            r matches Some(v) ==> exact(self.number()) == Some(v as int),
    ;

    /// Converts to `i64`.
    fn to_i64(&self) -> (r: Option<i64>)
        ensures
            r is Some <==> fits(exact_i64(self.number()), i64::MIN as int, i64::MAX as int),
            r matches Some(v) ==> exact_i64(self.number()) == Some(v as int),
    ;

    /// Converts to `i128`.
    fn to_i128(&self) -> (r: Option<i128>)
        ensures
            r is Some <==> fits(exact_i128(self.number()), i128::MIN as int, i128::MAX as int),
            r matches Some(v) ==> exact_i128(self.number()) == Some(v as int),
    ;

    /// Converts to `isize`.
    fn to_isize(&self) -> (r: Option<isize>)
        ensures
            r is Some <==> fits(exact_isize(self.number()), isize::MIN as int, isize::MAX as int),
            r matches Some(v) ==> exact_isize(self.number()) == Some(v as int),
    ;

    /// Converts to `u8`.
    fn to_u8(&self) -> (r: Option<u8>)
        ensures
            r is Some <==> fits(exact(self.number()), u8::MIN as int, u8::MAX as int),
            r matches Some(v) ==> exact(self.number()) == Some(v as int),
    ;

    /// Converts to `u16`.
    fn to_u16(&self) -> (r: Option<u16>)
        ensures
            r is Some <==> fits(exact(self.number()), u16::MIN as int, u16::MAX as int),
            r matches Some(v) ==> exact(self.number()) == Some(v as int),
    ;

    /// Converts to `u32`.
    fn to_u32(&self) -> (r: Option<u32>)
        ensures
            r is Some <==> fits(exact(self.number()), u32::MIN as int, u32::MAX as int),
            r matches Some(v) ==> exact(self.number()) == Some(v as int),
    ;

    /// Converts to `u64`.
    fn to_u64(&self) -> (r: Option<u64>)
        ensures
            r is Some <==> fits(exact(self.number()), u64::MIN as int, u64::MAX as int),
            r matches Some(v) ==> exact(self.number()) == Some(v as int),
    ;

    /// Converts to `u128`.
    fn to_u128(&self) -> (r: Option<u128>)
        ensures
            r is Some <==> fits(exact(self.number()), u128::MIN as int, u128::MAX as int),
            r matches Some(v) ==> exact(self.number()) == Some(v as int),
    ;

    /// Converts to `usize`.
    fn to_usize(&self) -> (r: Option<usize>)
        ensures
            r is Some <==> fits(exact(self.number()), usize::MIN as int, usize::MAX as int),
            r matches Some(v) ==> exact(self.number()) == Some(v as int),
    ;

    /// Returns this number with its type.
    fn to_number(&self) -> (r: Number)
        ensures
            r == self.number(),
    ;
}

impl NumericConvert for u64 {
    open spec fn number(&self) -> Number {
        Number::U64(*self)
    }

    fn to_i8(&self) -> (r: Option<i8>) {
        if *self <= i8::MAX as u64 {
            Some(*self as i8)
        } else {
            None
        }
    }

    fn to_i16(&self) -> (r: Option<i16>) {
        if *self <= i16::MAX as u64 {
            Some(*self as i16)
        } else {
            None
        }
    }

    fn to_i32(&self) -> (r: Option<i32>) {
        if *self <= i32::MAX as u64 {
            Some(*self as i32)
        } else {
            None
        }
    }

    fn to_i64(&self) -> (r: Option<i64>) {
        if *self <= i64::MAX as u64 {
            Some(*self as i64)
        } else {
            None
        }
    }

    fn to_i128(&self) -> (r: Option<i128>) {
        Some(*self as i128)
    }

    fn to_isize(&self) -> (r: Option<isize>) {
        if *self <= isize::MAX as u64 {
            Some(*self as isize)
        } else {
            None
        }
    }

    fn to_u8(&self) -> (r: Option<u8>) {
        if *self <= u8::MAX as u64 {
            Some(*self as u8)
        } else {
            None
        }
    }

    fn to_u16(&self) -> (r: Option<u16>) {
        if *self <= u16::MAX as u64 {
            Some(*self as u16)
        } else {
            None
        }
    }

    fn to_u32(&self) -> (r: Option<u32>) {
        if *self <= u32::MAX as u64 {
            Some(*self as u32)
        } else {
            None
        }
    }

    fn to_u64(&self) -> (r: Option<u64>) {
        Some(*self)
    }

    fn to_u128(&self) -> (r: Option<u128>) {
        Some(*self as u128)
    }

    fn to_usize(&self) -> (r: Option<usize>) {
        if *self <= usize::MAX as u64 {
            Some(*self as usize)
        } else {
            None
        }
    }

    fn to_number(&self) -> (r: Number) {
        Number::U64(*self)
    }
}

impl NumericConvert for i64 {
    open spec fn number(&self) -> Number {
        Number::I64(*self)
    }

    fn to_i8(&self) -> (r: Option<i8>) {
        if i8::MIN as i64 <= *self && *self <= i8::MAX as i64 {
            Some(*self as i8)
        } else {
            None
        }
    }

    fn to_i16(&self) -> (r: Option<i16>) {
        if i16::MIN as i64 <= *self && *self <= i16::MAX as i64 {
            Some(*self as i16)
        } else {
            None
        }
    }

    fn to_i32(&self) -> (r: Option<i32>) {
        if i32::MIN as i64 <= *self && *self <= i32::MAX as i64 {
            Some(*self as i32)
        } else {
            None
        }
    }

    fn to_i64(&self) -> (r: Option<i64>) {
        Some(*self)
    }

    fn to_i128(&self) -> (r: Option<i128>) {
        Some(*self as i128)
    }

    fn to_isize(&self) -> (r: Option<isize>) {
        if isize::MIN as i64 <= *self && *self <= isize::MAX as i64 {
            Some(*self as isize)
        } else {
            None
        }
    }

    fn to_u8(&self) -> (r: Option<u8>) {
        if 0 <= *self && *self <= u8::MAX as i64 {
            Some(*self as u8)
        } else {
            None
        }
    }

    fn to_u16(&self) -> (r: Option<u16>) {
        if 0 <= *self && *self <= u16::MAX as i64 {
            Some(*self as u16)
        } else {
            None
        }
    }

    fn to_u32(&self) -> (r: Option<u32>) {
        if 0 <= *self && *self <= u32::MAX as i64 {
            Some(*self as u32)
        } else {
            None
        }
    }

    fn to_u64(&self) -> (r: Option<u64>) {
        if 0 <= *self {
            Some(*self as u64)
        } else {
            None
        }
    }

    fn to_u128(&self) -> (r: Option<u128>) {
        if 0 <= *self {
            Some(*self as u128)
        } else {
            None
        }
    }

    fn to_usize(&self) -> (r: Option<usize>) {
        if 0 <= *self && *self as u64 <= usize::MAX as u64 {
            Some(*self as usize)
        } else {
            None
        }
    }

    fn to_number(&self) -> (r: Number) {
        Number::I64(*self)
    }
}

impl NumericConvert for u128 {
    open spec fn number(&self) -> Number {
        Number::U128(*self)
    }

    fn to_i8(&self) -> (r: Option<i8>) {
        if *self <= i8::MAX as u128 {
            Some(*self as i8)
        } else {
            None
        }
    }

    fn to_i16(&self) -> (r: Option<i16>) {
        if *self <= i16::MAX as u128 {
            Some(*self as i16)
        } else {
            None
        }
    }

    fn to_i32(&self) -> (r: Option<i32>) {
        if *self <= i32::MAX as u128 {
            Some(*self as i32)
        } else {
            None
        }
    }

    fn to_i64(&self) -> (r: Option<i64>) {
        if *self <= i64::MAX as u128 {
            Some(*self as i64)
        } else {
            None
        }
    }

    fn to_i128(&self) -> (r: Option<i128>) {
        let v: u128 = *self;
        assert(v > i128::MAX ==> (v as i128) == v - 0x1_0000_0000_0000_0000_0000_0000_0000_0000)
            by (bit_vector);
        Some(#[verifier::truncate] (v as i128))
    }

    fn to_isize(&self) -> (r: Option<isize>) {
        if *self <= isize::MAX as u128 {
            Some(*self as isize)
        } else {
            None
        }
    }

    fn to_u8(&self) -> (r: Option<u8>) {
        if *self <= u8::MAX as u128 {
            Some(*self as u8)
        } else {
            None
        }
    }

    fn to_u16(&self) -> (r: Option<u16>) {
        if *self <= u16::MAX as u128 {
            Some(*self as u16)
        } else {
            None
        }
    }

    fn to_u32(&self) -> (r: Option<u32>) {
        if *self <= u32::MAX as u128 {
            Some(*self as u32)
        } else {
            None
        }
    }

    fn to_u64(&self) -> (r: Option<u64>) {
        if *self <= u64::MAX as u128 {
            Some(*self as u64)
        } else {
            None
        }
    }

    fn to_u128(&self) -> (r: Option<u128>) {
        Some(*self)
    }

    fn to_usize(&self) -> (r: Option<usize>) {
        if *self <= usize::MAX as u128 {
            Some(*self as usize)
        } else {
            None
        }
    }

    fn to_number(&self) -> (r: Number) {
        Number::U128(*self)
    }
}

impl NumericConvert for i128 {
    open spec fn number(&self) -> Number {
        Number::I128(*self)
    }

    fn to_i8(&self) -> (r: Option<i8>) {
        if i8::MIN as i128 <= *self && *self <= i8::MAX as i128 {
            Some(*self as i8)
        } else {
            None
        }
    }

    fn to_i16(&self) -> (r: Option<i16>) {
        if i16::MIN as i128 <= *self && *self <= i16::MAX as i128 {
            Some(*self as i16)
        } else {
            None
        }
    }

    fn to_i32(&self) -> (r: Option<i32>) {
        if i32::MIN as i128 <= *self && *self <= i32::MAX as i128 {
            Some(*self as i32)
        } else {
            None
        }
    }

    fn to_i64(&self) -> (r: Option<i64>) {
        if i64::MIN as i128 <= *self && *self <= i64::MAX as i128 {
            Some(*self as i64)
        } else {
            None
        }
    }

    fn to_i128(&self) -> (r: Option<i128>) {
        Some(*self)
    }

    fn to_isize(&self) -> (r: Option<isize>) {
        if isize::MIN as i128 <= *self && *self <= isize::MAX as i128 {
            Some(*self as isize)
        } else {
            None
        }
    }

    fn to_u8(&self) -> (r: Option<u8>) {
        if 0 <= *self && *self <= u8::MAX as i128 {
            Some(*self as u8)
        } else {
            None
        }
    }

    fn to_u16(&self) -> (r: Option<u16>) {
        if 0 <= *self && *self <= u16::MAX as i128 {
            Some(*self as u16)
        } else {
            None
        }
    }

    fn to_u32(&self) -> (r: Option<u32>) {
        if 0 <= *self && *self <= u32::MAX as i128 {
            Some(*self as u32)
        } else {
            None
        }
    }

    fn to_u64(&self) -> (r: Option<u64>) {
        if 0 <= *self && *self <= u64::MAX as i128 {
            Some(*self as u64)
        } else {
            None
        }
    }

    fn to_u128(&self) -> (r: Option<u128>) {
        if 0 <= *self {
            Some(*self as u128)
        } else {
            None
        }
    }

    fn to_usize(&self) -> (r: Option<usize>) {
        if 0 <= *self && *self <= usize::MAX as i128 {
            Some(*self as usize)
        } else {
            None
        }
    }

    fn to_number(&self) -> (r: Number) {
        Number::I128(*self)
    }
}

impl Float64 {
    /// Whether the sign bit is set.
    pub open spec fn negative(self) -> bool {
        self.bits as int / 0x8000_0000_0000_0000 == 1
    }

    /// The biased exponent field.
    pub open spec fn exponent(self) -> int {
        (self.bits as int / 0x10_0000_0000_0000) % 0x800
    }

    /// The fraction field.
    pub open spec fn fraction(self) -> int {
        self.bits as int % 0x10_0000_0000_0000
    }

    /// Whether this is a NaN.
    pub open spec fn nan(self) -> bool {
        self.exponent() == 0x7ff && self.fraction() != 0
    }

    /// Whether this is zero, of either sign.
    pub open spec fn zero(self) -> bool {
        self.exponent() == 0 && self.fraction() == 0
    }

    /// Returns whether this is a NaN.
    pub fn is_nan(&self) -> (r: bool)
        ensures
            r == self.nan(),
    {
        (self.bits / 0x10_0000_0000_0000) % 0x800 == 0x7ff && self.bits % 0x10_0000_0000_0000 != 0
    }

    /// Returns whether this is zero, of either sign.
    pub fn is_zero(&self) -> (r: bool)
        ensures
            r == self.zero(),
    {
        (self.bits / 0x10_0000_0000_0000) % 0x800 == 0 && self.bits % 0x10_0000_0000_0000 == 0
    }

    /// Whether the number is neither infinite nor NaN.
    pub open spec fn finite(self) -> bool {
        self.exponent() != 0x7ff
    }

    /// The integer significand, with the implicit leading bit of normal numbers.
    pub open spec fn significand(self) -> int {
        if self.exponent() == 0 {
            self.fraction()
        } else {
            self.fraction() + 0x10_0000_0000_0000
        }
    }

    /// The power of two by which the significand is scaled.
    pub open spec fn scale(self) -> int {
        if self.exponent() == 0 {
            -1074
        } else {
            self.exponent() - 1075
        }
    }

    /// The absolute value of a finite number, where that is an integer.
    pub open spec fn whole_magnitude(self) -> Option<int> {
        if !self.finite() {
            None
        } else if self.scale() >= 0 {
            Some(self.significand() * pow2(self.scale() as nat))
        } else if self.significand() % (pow2((-self.scale()) as nat) as int) == 0 {
            Some(self.significand() / (pow2((-self.scale()) as nat) as int))
        } else {
            None
        }
    }

    /// The value of the number, where it is an integer.
    pub open spec fn whole_value(self) -> Option<int> {
        match self.whole_magnitude() {
            Some(m) => if self.negative() {
                Some(-m)
            } else {
                Some(m)
            },
            None => None,
        }
    }

    /// Returns whether the number is an integer.
    pub fn has_no_fractional_part(&self) -> (r: bool)
        ensures
            r == (self.whole_magnitude() is Some),
    {
        match self.magnitude() {
            Magnitude::Fractional => false,
            _ => true,
        }
    }

    /// Returns the absolute value of the number.
    fn magnitude(&self) -> (r: Magnitude)
        ensures
            r.is(self.whole_magnitude()),
    {
        let exponent: u64 = (self.bits / 0x10_0000_0000_0000) % 0x800;
        let fraction: u64 = self.bits % 0x10_0000_0000_0000;
        if exponent == 0x7ff {
            Magnitude::Fractional
        } else if exponent == 0 {
            if fraction != 0 {
                proof {
                    lemma2_to64_rest();
                    lemma_pow2_strictly_increases(52, 1074);
                    vstd::arithmetic::div_mod::lemma_small_mod(
                        fraction as nat,
                        pow2(1074),
                    );
                }
                Magnitude::Fractional
            } else {
                proof {
                    lemma_pow2_pos(1074);
                    vstd::arithmetic::div_mod::lemma_small_mod(0, pow2(1074));
                    vstd::arithmetic::div_mod::lemma_div_basics(pow2(1074) as int);
                }
                Magnitude::Whole(0)
            }
        } else {
            scaled(fraction + 0x10_0000_0000_0000, exponent)
        }
    }

    /// Returns whether the sign bit is set.
    fn is_negative(&self) -> (r: bool)
        ensures
            r == self.negative(),
    {
        self.bits / 0x8000_0000_0000_0000 == 1
    }

    /// Returns the value of the number where it is an integer that an `i128` holds.
    fn whole(&self) -> (r: Option<i128>)
        ensures
            r is Some <==> fits(self.whole_value(), i128::MIN as int, i128::MAX as int),
            r matches Some(v) ==> self.whole_value() == Some(v as int),
    {
        match self.magnitude() {
            Magnitude::Whole(m) => {
                if m <= i128::MAX as u128 {
                    if self.is_negative() {
                        Some(-(m as i128))
                    } else {
                        Some(m as i128)
                    }
                } else if self.is_negative() && m == 0x8000_0000_0000_0000_0000_0000_0000_0000u128 {
                    Some(i128::MIN)
                } else {
                    None
                }
            },
            _ => None,
        }
    }
}

/// An absolute value.
enum Magnitude {
    /// No integer.
    Fractional,
    /// An integer.
    Whole(u128),
    /// An integer that is too large for a `u128`.
    Large,
}

impl Magnitude {
    /// Whether this is `m`, where that is an integer.
    spec fn is(self, m: Option<int>) -> bool {
        match self {
            Magnitude::Fractional => m is None,
            Magnitude::Whole(v) => m == Some(v as int),
            Magnitude::Large => m is Some && m->0 > u128::MAX,
        }
    }
}

/// The significand `s` scaled by 2 to the power of `exponent - 1075`, where that is an integer.
spec fn scaled_value(s: int, exponent: int) -> Option<int> {
    if exponent >= 1075 {
        Some(s * pow2((exponent - 1075) as nat))
    } else if s % (pow2((1075 - exponent) as nat) as int) == 0 {
        Some(s / (pow2((1075 - exponent) as nat) as int))
    } else {
        None
    }
}

/// Returns the significand `s` scaled by 2 to the power of `exponent - 1075`.
fn scaled(s: u64, exponent: u64) -> (r: Magnitude)
    requires
        0x10_0000_0000_0000 <= s < 0x20_0000_0000_0000,
        exponent < 0x7ff,
    ensures
        r.is(scaled_value(s as int, exponent as int)),
{
    let mut i: u64 = 0;
    proof {
        lemma2_to64();
    }
    if exponent >= 1075 {
        let mut m: u128 = s as u128;
        let shift: u64 = exponent - 1075;
        while i < shift
            invariant
                i <= shift,
                s >= 0x10_0000_0000_0000,
                shift < 0x7ff,
                m == s * pow2(i as nat),
                exponent >= 1075,
                shift == exponent - 1075,
            decreases shift - i,
        {
            proof {
                lemma_pow2_unfold((i + 1) as nat);
                assert(s * (2 * pow2(i as nat)) == 2 * (s * pow2(i as nat))) by (nonlinear_arith);
            }
            if m > u128::MAX / 2 {
                proof {
                    if i + 1 < shift {
                        lemma_pow2_strictly_increases((i + 1) as nat, shift as nat);
                    }
                    lemma_mul_inequality(
                        pow2((i + 1) as nat) as int,
                        pow2(shift as nat) as int,
                        s as int,
                    );
                    lemma_mul_is_commutative(s as int, pow2((i + 1) as nat) as int);
                    lemma_mul_is_commutative(s as int, pow2(shift as nat) as int);
                }
                return Magnitude::Large;
            }
            m = m * 2;
            i = i + 1;
        }
        Magnitude::Whole(m)
    } else {
        let mut m: u64 = s;
        let shift: u64 = 1075 - exponent;
        while i < shift
            invariant
                i <= shift,
                s == m * pow2(i as nat),
                m <= s < 0x20_0000_0000_0000,
                exponent < 1075,
                shift == 1075 - exponent,
            decreases shift - i,
        {
            proof {
                lemma_pow2_unfold((i + 1) as nat);
            }
            if m % 2 != 0 {
                proof {
                    lemma_odd_is_not_a_multiple(s as int, m as int, i as nat, shift as nat);
                }
                return Magnitude::Fractional;
            }
            let half: u64 = m / 2;
            assert(half * (2 * pow2(i as nat)) == (2 * half) * pow2(i as nat)) by (nonlinear_arith);
            m = half;
            i = i + 1;
        }
        proof {
            lemma_pow2_pos(shift as nat);
            vstd::arithmetic::div_mod::lemma_mod_multiples_basic(
                m as int,
                pow2(shift as nat) as int,
            );
            vstd::arithmetic::div_mod::lemma_div_by_multiple(
                m as int,
                pow2(shift as nat) as int,
            );
        }
        Magnitude::Whole(m as u128)
    }
}

/// An odd number times 2^i is no multiple of a higher power of two.
proof fn lemma_odd_is_not_a_multiple(s: int, m: int, i: nat, shift: nat)
    requires
        s == m * pow2(i),
        m % 2 != 0,
        i < shift,
    ensures
        s % (pow2(shift) as int) != 0,
{
    let unit = pow2(shift) as int;
    lemma_pow2_pos(shift);
    lemma_pow2_pos(i);
    if s % unit == 0 {
        let q = s / unit;
        vstd::arithmetic::div_mod::lemma_fundamental_div_mod(s, unit);
        let rest = (shift - i - 1) as nat;
        lemma_pow2_adds(i, (shift - i) as nat);
        lemma_pow2_unfold((shift - i) as nat);
        let half = pow2(rest) as int;
        let low = pow2(i) as int;
        assert(unit * q == low * (2 * (half * q))) by (nonlinear_arith)
            requires
                unit == low * (2 * half),
        ;
        assert(m == 2 * (half * q)) by (nonlinear_arith)
            requires
                m * low == low * (2 * (half * q)),
                low > 0,
        ;
        assert((2 * (half * q)) % 2 == 0);
    }
}

impl NumericConvert for Float64 {
    open spec fn number(&self) -> Number {
        Number::F64(*self)
    }

    fn to_i8(&self) -> (r: Option<i8>) {
        match self.whole() {
            Some(v) => {
                if i8::MIN as i128 <= v && v <= i8::MAX as i128 {
                    Some(v as i8)
                } else {
                    None
                }
            },
            None => None,
        }
    }

    fn to_i16(&self) -> (r: Option<i16>) {
        match self.whole() {
            Some(v) => {
                if i16::MIN as i128 <= v && v <= i16::MAX as i128 {
                    Some(v as i16)
                } else {
                    None
                }
            },
            None => None,
        }
    }

    fn to_i32(&self) -> (r: Option<i32>) {
        match self.whole() {
            Some(v) => {
                if i32::MIN as i128 <= v && v <= i32::MAX as i128 {
                    Some(v as i32)
                } else {
                    None
                }
            },
            None => None,
        }
    }

    fn to_i64(&self) -> (r: Option<i64>) {
        match self.whole() {
            Some(v) => {
                if v == 0x8000_0000_0000_0000i128 && i64::MAX as i128 == 0x7fff_ffff_ffff_ffffi128 {
                    Some(i64::MAX)
                } else if i64::MIN as i128 <= v && v <= i64::MAX as i128 {
                    Some(v as i64)
                } else {
                    None
                }
            },
            None => None,
        }
    }

    fn to_i128(&self) -> (r: Option<i128>) {
        self.whole()
    }

    fn to_isize(&self) -> (r: Option<isize>) {
        match self.whole() {
            Some(v) => {
                if v == 0x8000_0000_0000_0000i128 && isize::MAX as i128 == 0x7fff_ffff_ffff_ffffi128 {
                    Some(isize::MAX)
                } else if isize::MIN as i128 <= v && v <= isize::MAX as i128 {
                    Some(v as isize)
                } else {
                    None
                }
            },
            None => None,
        }
    }

    fn to_u8(&self) -> (r: Option<u8>) {
        match self.whole() {
            Some(v) => {
                if 0 <= v && v <= u8::MAX as i128 {
                    Some(v as u8)
                } else {
                    None
                }
            },
            None => None,
        }
    }

    fn to_u16(&self) -> (r: Option<u16>) {
        match self.whole() {
            Some(v) => {
                if 0 <= v && v <= u16::MAX as i128 {
                    Some(v as u16)
                } else {
                    None
                }
            },
            None => None,
        }
    }

    fn to_u32(&self) -> (r: Option<u32>) {
        match self.whole() {
            Some(v) => {
                if 0 <= v && v <= u32::MAX as i128 {
                    Some(v as u32)
                } else {
                    None
                }
            },
            None => None,
        }
    }

    fn to_u64(&self) -> (r: Option<u64>) {
        match self.whole() {
            Some(v) => {
                if 0 <= v && v <= u64::MAX as i128 {
                    Some(v as u64)
                } else {
                    None
                }
            },
            None => None,
        }
    }

    fn to_u128(&self) -> (r: Option<u128>) {
        match self.magnitude() {
            Magnitude::Whole(m) => {
                if m == 0 || !self.is_negative() {
                    Some(m)
                } else {
                    None
                }
            },
            _ => None,
        }
    }

    fn to_usize(&self) -> (r: Option<usize>) {
        match self.whole() {
            Some(v) => {
                if 0 <= v && v <= usize::MAX as i128 {
                    Some(v as usize)
                } else {
                    None
                }
            },
            None => None,
        }
    }

    fn to_number(&self) -> (r: Number) {
        Number::F64(*self)
    }
}

} // verus!
