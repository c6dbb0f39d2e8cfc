//! Conversions between the forms of a number.
use facet_deserialize::number_target::{convert, IntegerType};
use facet_deserialize::partial::Integer;
use facet_deserialize::{Float64, Number, NumericConvert};

fn float(v: f64) -> Float64 {
    Float64 { bits: v.to_bits() }
}

#[test]
fn unsigned_64() {
    assert_eq!(127u64.to_i8(), Some(127));
    assert_eq!(128u64.to_i8(), None);
    assert_eq!(32767u64.to_i16(), Some(32767));
    assert_eq!(32768u64.to_i16(), None);
    assert_eq!(2147483647u64.to_i32(), Some(2147483647));
    assert_eq!(2147483648u64.to_i32(), None);
    assert_eq!((i64::MAX as u64).to_i64(), Some(i64::MAX));
    assert_eq!((1u64 << 63).to_i64(), None);
    assert_eq!(u64::MAX.to_i128(), Some(u64::MAX as i128));
    assert_eq!(u64::MAX.to_isize(), None);
    assert_eq!(255u64.to_u8(), Some(255));
    assert_eq!(256u64.to_u8(), None);
    assert_eq!(65536u64.to_u16(), None);
    assert_eq!(u64::MAX.to_u32(), None);
    assert_eq!(u64::MAX.to_u64(), Some(u64::MAX));
    assert_eq!(u64::MAX.to_u128(), Some(u64::MAX as u128));
    assert_eq!(12u64.to_usize(), Some(12));
    assert_eq!(5u64.to_number(), Number::U64(5));
}

#[test]
fn signed_64() {
    assert_eq!((-128i64).to_i8(), Some(-128));
    assert_eq!((-129i64).to_i8(), None);
    assert_eq!((-32768i64).to_i16(), Some(-32768));
    assert_eq!((-32769i64).to_i16(), None);
    assert_eq!((-2147483648i64).to_i32(), Some(-2147483648));
    assert_eq!((-2147483649i64).to_i32(), None);
    assert_eq!(i64::MIN.to_i64(), Some(i64::MIN));
    assert_eq!(i64::MIN.to_i128(), Some(i64::MIN as i128));
    assert_eq!((-1i64).to_isize(), Some(-1));
    assert_eq!((-1i64).to_u8(), None);
    assert_eq!(65535i64.to_u16(), Some(65535));
    assert_eq!(4294967296i64.to_u32(), None);
    assert_eq!((-1i64).to_u64(), None);
    assert_eq!(i64::MAX.to_u64(), Some(i64::MAX as u64));
    assert_eq!((-1i64).to_u128(), None);
    assert_eq!((-1i64).to_usize(), None);
    assert_eq!(7i64.to_usize(), Some(7));
    assert_eq!((-3i64).to_number(), Number::I64(-3));
}

#[test]
fn unsigned_128() {
    assert_eq!(127u128.to_i8(), Some(127));
    assert_eq!(128u128.to_i8(), None);
    assert_eq!((1u128 << 15).to_i16(), None);
    assert_eq!((1u128 << 31).to_i32(), None);
    assert_eq!((1u128 << 63).to_i64(), None);
    assert_eq!(((1u128 << 63) - 1).to_i64(), Some(i64::MAX));
    assert_eq!((i128::MAX as u128).to_i128(), Some(i128::MAX));
    assert_eq!((i128::MAX as u128 + 1).to_i128(), Some(i128::MIN));
    assert_eq!(u128::MAX.to_i128(), Some(-1));
    assert_eq!((1u128 << 63).to_isize(), None);
    assert_eq!(256u128.to_u8(), None);
    assert_eq!(65535u128.to_u16(), Some(65535));
    assert_eq!((1u128 << 32).to_u32(), None);
    assert_eq!((1u128 << 64).to_u64(), None);
    assert_eq!(((1u128 << 64) - 1).to_u64(), Some(u64::MAX));
    assert_eq!(u128::MAX.to_u128(), Some(u128::MAX));
    assert_eq!(u128::MAX.to_usize(), None);
    assert_eq!(1u128.to_number(), Number::U128(1));
}

#[test]
fn signed_128() {
    assert_eq!((-128i128).to_i8(), Some(-128));
    assert_eq!(128i128.to_i8(), None);
    assert_eq!((-32769i128).to_i16(), None);
    assert_eq!((-2147483648i128).to_i32(), Some(i32::MIN));
    assert_eq!((i64::MIN as i128).to_i64(), Some(i64::MIN));
    assert_eq!((i64::MIN as i128 - 1).to_i64(), None);
    assert_eq!(i128::MIN.to_i128(), Some(i128::MIN));
    assert_eq!((i64::MAX as i128 + 1).to_isize(), None);
    assert_eq!((-1i128).to_u8(), None);
    assert_eq!(65536i128.to_u16(), None);
    assert_eq!(4294967295i128.to_u32(), Some(u32::MAX));
    assert_eq!((u64::MAX as i128).to_u64(), Some(u64::MAX));
    assert_eq!((u64::MAX as i128 + 1).to_u64(), None);
    assert_eq!((-1i128).to_u128(), None);
    assert_eq!(i128::MAX.to_u128(), Some(i128::MAX as u128));
    assert_eq!((-1i128).to_usize(), None);
    assert_eq!((-1i128).to_number(), Number::I128(-1));
}

#[test]
fn doubles() {
    assert_eq!(float(-128.0).to_i8(), Some(-128));
    assert_eq!(float(127.5).to_i8(), None);
    assert_eq!(float(128.0).to_i8(), None);
    assert_eq!(float(-32768.0).to_i16(), Some(-32768));
    assert_eq!(float(40000.0).to_i16(), None);
    assert_eq!(float(2147483647.0).to_i32(), Some(i32::MAX));
    assert_eq!(float(2147483648.0).to_i32(), None);
    assert_eq!(float(9007199254740993.0).to_i64(), Some(9007199254740992));
    assert_eq!(float(-9223372036854775808.0).to_i64(), Some(i64::MIN));
    assert_eq!(float(9223372036854775808.0).to_i64(), Some(i64::MAX));
    assert_eq!(float(9223372036854775808.0).to_isize(), Some(isize::MAX));
    assert_eq!(float(9223372036854775808.0).to_i128(), Some(1 << 63));
    assert_eq!(float(9223372036854775808.0).to_u64(), Some(1 << 63));
    assert_eq!(float(18446744073709551616.0).to_u128(), Some(1 << 64));
    assert_eq!(float(18446744073709551616.0).to_u64(), None);
    assert_eq!(float(18446744073709551616.0).to_usize(), None);
    assert_eq!(float(-9223372036854777856.0).to_i128(), Some(-9223372036854777856));
    assert_eq!(float(-9223372036854777856.0).to_i64(), None);
    assert_eq!(float(255.0).to_u8(), Some(255));
    assert_eq!(float(-1.0).to_u8(), None);
    assert_eq!(float(65535.0).to_u16(), Some(65535));
    assert_eq!(float(4294967295.0).to_u32(), Some(u32::MAX));
    assert_eq!(float(4294967296.0).to_u32(), None);
    assert_eq!(float(0.0).to_usize(), Some(0));
    assert_eq!(float(-0.0).to_u8(), Some(0));
    assert_eq!(float(1.0).to_u128(), Some(1));
}

#[test]
fn doubles_past_64_bits() {
    assert!(float(1e19).has_no_fractional_part());
    assert_eq!(float(1e19).to_u64(), Some(10_000_000_000_000_000_000));
    assert_eq!(float(1e19).to_u128(), Some(10_000_000_000_000_000_000));
    assert_eq!(float(1e19).to_i128(), Some(10_000_000_000_000_000_000));
    assert_eq!(float(1e19).to_i64(), None);
    assert_eq!(float(-1e19).to_i128(), Some(-10_000_000_000_000_000_000));
    assert_eq!(float(-1e19).to_u64(), None);
    assert_eq!(float(-1e19).to_u128(), None);
    let edge = 2f64.powi(127);
    assert_eq!(float(edge).to_i128(), None);
    assert_eq!(float(-edge).to_i128(), Some(i128::MIN));
    assert_eq!(float(edge).to_u128(), Some(1 << 127));
    assert_eq!(float(2.0 * edge).to_u128(), None);
    assert!(float(2.0 * edge).has_no_fractional_part());
    assert!(float(f64::MAX).has_no_fractional_part());
    assert!(float(f64::MIN).has_no_fractional_part());
    assert_eq!(float(f64::MAX).to_u128(), None);
}

#[test]
fn doubles_that_are_no_integers() {
    for v in [0.5, -0.25, 1e-300, f64::MIN_POSITIVE, 4503599627370495.5, f64::NAN, f64::INFINITY] {
        assert!(!float(v).has_no_fractional_part());
        assert_eq!(float(v).to_i64(), None);
        assert_eq!(float(-v).to_i128(), None);
    }
    assert!(float(4503599627370496.0).has_no_fractional_part());
    assert!(float(-7.0).has_no_fractional_part());
    assert_eq!(Float64 { bits: 1 }.to_i8(), None);
}

#[test]
fn doubles_agree_with_casts() {
    let mut v = 1.0f64;
    for shift in 0..140 {
        for w in [v, v + 1.0, v - 1.0, v * 1.5, -v, -v * 1.25] {
            let whole = w.fract() == 0.0;
            assert_eq!(float(w).has_no_fractional_part(), whole, "{} {}", shift, w);
            let fits = whole && w >= i64::MIN as f64 && w <= i64::MAX as f64;
            assert_eq!(float(w).to_i64(), if fits { Some(w as i64) } else { None });
            let small = whole && w >= i32::MIN as f64 && w <= i32::MAX as f64;
            assert_eq!(float(w).to_i32(), if small { Some(w as i32) } else { None });
            let natural = whole && w >= 0.0 && w < u64::MAX as f64;
            assert_eq!(float(w).to_u64(), if natural { Some(w as u64) } else { None });
            let wide = whole && w >= i128::MIN as f64 && w < i128::MAX as f64;
            assert_eq!(float(w).to_i128(), if wide { Some(w as i128) } else { None });
        }
        v *= 2.0;
    }
}

#[test]
fn equality_of_doubles() {
    assert!(float(0.0) == float(-0.0));
    assert!(float(1.5) == float(1.5));
    assert!(float(1.5) != float(2.5));
    assert!(float(f64::NAN) != float(f64::NAN));
    assert!(float(f64::NAN).is_nan());
    assert!(!float(f64::INFINITY).is_nan());
    assert!(float(-0.0).is_zero());
    assert!(!float(1.0).is_zero());
}

#[test]
fn every_integer_type() {
    let n = 100u64;
    assert_eq!(convert(&n, IntegerType::I8), Some(Integer::I8(100)));
    assert_eq!(convert(&n, IntegerType::I16), Some(Integer::I16(100)));
    assert_eq!(convert(&n, IntegerType::I32), Some(Integer::I32(100)));
    assert_eq!(convert(&n, IntegerType::I64), Some(Integer::I64(100)));
    assert_eq!(convert(&n, IntegerType::I128), Some(Integer::I128(100)));
    assert_eq!(convert(&n, IntegerType::Isize), Some(Integer::Isize(100)));
    assert_eq!(convert(&n, IntegerType::U8), Some(Integer::U8(100)));
    assert_eq!(convert(&n, IntegerType::U16), Some(Integer::U16(100)));
    assert_eq!(convert(&n, IntegerType::U32), Some(Integer::U32(100)));
    assert_eq!(convert(&n, IntegerType::U64), Some(Integer::U64(100)));
    assert_eq!(convert(&n, IntegerType::U128), Some(Integer::U128(100)));
    assert_eq!(convert(&n, IntegerType::Usize), Some(Integer::Usize(100)));
}

#[test]
fn the_same_number_in_every_form() {
    for ty in [IntegerType::I8, IntegerType::U16, IntegerType::I64, IntegerType::Usize] {
        let expected = convert(&77u64, ty);
        assert!(expected.is_some());
        assert_eq!(convert(&77i64, ty), expected);
        assert_eq!(convert(&77u128, ty), expected);
        assert_eq!(convert(&77i128, ty), expected);
        assert_eq!(convert(&float(77.0), ty), expected);
    }
}
