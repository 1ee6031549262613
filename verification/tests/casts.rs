use jemalloc_pprof::cast::{
    CastFrom, NonNeg, NonNegError, ReinterpretCast, Signed, TryCastFrom, UpperBounded,
};
use jemalloc_pprof::double::Double;

fn double(number: f64) -> Double {
    Double { bits: number.to_bits() }
}

/// Numbers around the limits of the integer types, and some others.
fn doubles() -> Vec<f64> {
    let mut numbers = vec![
        0.0,
        0.5,
        1.0,
        1.5,
        3.999,
        1e-310,
        5e-324,
        123456789.75,
        4503599627370495.5,
        4503599627370497.0,
        9007199254740991.0,
        9007199254740993.0,
        9223372036854774784.0,
        9223372036854775808.0,
        9223372036854777856.0,
        18446744073709549568.0,
        18446744073709551616.0,
        18446744073709555712.0,
        1e300,
        f64::MAX,
        f64::INFINITY,
        f64::NAN,
    ];
    for exponent in 0..66 {
        let power = 2f64.powi(exponent);
        numbers.extend([power, power + 1.0, power - 1.0, power + 0.25, power * 1.5]);
    }
    let negative: Vec<f64> = numbers.iter().map(|number| -number).collect();
    numbers.extend(negative);
    numbers
}

#[test]
fn casts_keep_the_number() {
    assert_eq!(usize::cast_from(7u8), 7);
    assert_eq!(usize::cast_from(u32::MAX), 0xffff_ffff);
    assert_eq!(u64::cast_from(usize::MAX), u64::MAX);
    assert_eq!(i128::cast_from(i64::MIN), -9223372036854775808);
    assert_eq!(i64::cast_from(u32::MAX), 4294967295);
    assert_eq!(u8::cast_from(255u8), 255);
}

#[test]
fn reinterpreted_numbers_come_back() {
    assert_eq!(i8::reinterpret_cast(0xffu8), -1);
    assert_eq!(u8::reinterpret_cast(-128i8), 0x80);
    assert_eq!(i16::reinterpret_cast(0x8000u16), i16::MIN);
    assert_eq!(u16::reinterpret_cast(-1i16), u16::MAX);
    assert_eq!(i32::reinterpret_cast(0x8000_0000u32), i32::MIN);
    assert_eq!(u32::reinterpret_cast(-2i32), u32::MAX - 1);
    assert_eq!(i64::reinterpret_cast(u64::MAX), -1);
    assert_eq!(u64::reinterpret_cast(i64::MIN), 0x8000_0000_0000_0000);
    for number in [0u32, 1, 0x7fff_ffff, 0x8000_0000, u32::MAX] {
        assert_eq!(u32::reinterpret_cast(i32::reinterpret_cast(number)), number);
    }
    for number in 0..=255u8 {
        assert_eq!(u8::reinterpret_cast(i8::reinterpret_cast(number)), number);
        assert_eq!(i8::reinterpret_cast(number), number as i8);
    }
}

#[test]
fn doubles_are_truncated() {
    for number in doubles() {
        let expected = number.trunc();
        let truncated = f64::from_bits(double(number).trunc().bits);
        assert!(truncated == expected || (truncated.is_nan() && expected.is_nan()), "{number:?}");
        assert!(truncated.is_nan() || truncated.to_bits() == expected.to_bits(), "{number:?}");
    }
}

#[test]
fn doubles_are_cast_to_integers() {
    for number in doubles() {
        let to = number as i64;
        let expected = if number == to as f64 { Some(to) } else { None };
        assert_eq!(i64::try_cast_from(double(number)), expected, "{number:?}");
        let to = number as u64;
        let expected = if number == to as f64 { Some(to) } else { None };
        assert_eq!(u64::try_cast_from(double(number)), expected, "{number:?}");
    }
}

#[test]
fn integers_are_cast_to_doubles() {
    let mut numbers = vec![0, 1, i64::MAX, i64::MAX - 1, i64::MIN, i64::MIN + 1];
    for exponent in 0..63 {
        let power = 1i64 << exponent;
        for number in [power - 1, power, power + 1, power + (power >> 1)] {
            numbers.extend([number, -number]);
        }
    }
    for number in numbers {
        let to = number as f64;
        let expected = if number == to as i64 { Some(to.to_bits()) } else { None };
        let cast = <Double as TryCastFrom<i64>>::try_cast_from(number);
        assert_eq!(cast.map(|to| to.bits), expected, "{number}");
        if let Some(to) = cast {
            assert_eq!(i64::try_cast_from(to), Some(number));
        }
        let number = (number as u64) << 1 | 1;
        for number in [number, number - 1] {
            let to = number as f64;
            let expected = if number == to as u64 { Some(to.to_bits()) } else { None };
            let cast = <Double as TryCastFrom<u64>>::try_cast_from(number);
            assert_eq!(cast.map(|to| to.bits), expected, "{number}");
            if let Some(to) = cast {
                assert_eq!(u64::try_cast_from(to), Some(number));
            }
        }
    }
}

#[test]
fn the_greatest_integer_can_be_cast_but_not_the_one_before() {
    let cast = <Double as TryCastFrom<i64>>::try_cast_from(i64::MAX).unwrap();
    assert_eq!(f64::from_bits(cast.bits), 9223372036854775808.0);
    assert!(<Double as TryCastFrom<i64>>::try_cast_from(i64::MAX - 1).is_none());
    assert_eq!(i64::try_cast_from(cast), Some(i64::MAX));
}

#[test]
fn non_negative_numbers_are_wrapped() {
    assert_eq!(*NonNeg::<i64>::try_from(5).unwrap(), 5);
    assert_eq!(*NonNeg::<i64>::try_from(0).unwrap(), 0);
    assert!(NonNeg::<i64>::try_from(-1).is_err());
    assert!(NonNeg::<i8>::try_from(i8::MIN).is_err());
    assert_eq!(*NonNeg::<i16>::min(), 0);
    assert_eq!(*NonNeg::<i16>::max(), i16::MAX);
    assert_eq!(*NonNeg::<i128>::max(), i128::MAX);
    assert_eq!(NonNegError.message(), "cannot construct NonNeg from negative number");
}

#[test]
fn non_negative_numbers_are_unsigned() {
    assert_eq!(u64::from(NonNeg::<i64>::max()), 0x7fff_ffff_ffff_ffff);
    assert_eq!(usize::cast_from(NonNeg::<i64>::try_from(12).unwrap()), 12);
    assert!(NonNeg::<i64>::try_from(1).unwrap() < NonNeg::<i64>::try_from(2).unwrap());
}

#[test]
fn signed_types_have_limits() {
    assert_eq!(i32::zero(), 0);
    assert!(Signed::is_negative(&-1i32));
    assert!(!Signed::is_negative(&0i32));
    assert_eq!(<isize as UpperBounded>::max_value(), isize::MAX);
}
