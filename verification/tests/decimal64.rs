//! The 64-bit backed decimal.

use core::str::FromStr;
use fin_decimal::pow10::ipow10;
use fin_decimal::Rounding::{Down, HalfDown, HalfEven, HalfUp, Up};
use fin_decimal::{
    parse_decimal_i64_rounded, str_i64, Amount64, AmountErrorKind, AmountSign, Decimal, Rate64,
    Rounding,
};
use std::fmt;
use std::mem;

/// Shows a decimal the way a formatter with padding does.
struct Show<const D: u8>(Decimal<D>);

impl<const D: u8> fmt::Display for Show<D> {
    fn fmt(&self, f: &mut fmt::Formatter) -> fmt::Result {
        let s = self.0.to_unsigned_string(f.precision());
        if s == "Amount::ERROR" {
            f.write_str(&s)
        } else {
            f.pad_integral(!self.0.is_negative(), "", &s)
        }
    }
}

/// A decimal from a float that it holds exactly.
fn amount(v: f64) -> Amount64 {
    Decimal((v * 10000.0) as i64)
}

#[test]
fn test_ipow10() {
    assert_eq!(ipow10(0), 1);
    assert_eq!(ipow10(-1), 1);
    assert_eq!(ipow10(19), 0); // check overflow

    assert_eq!(ipow10(1), 10);
    assert_eq!(ipow10(4), 10000);

    let mut p: i64 = 1;
    for x in 0..18i64 {
        assert_eq!(ipow10(x), p);
        p *= 10;
    }
}

#[test]
fn test_istr() {
    let mut buf = [0u8; 3 * mem::size_of::<i64>()];

    assert_eq!(
        str_i64(10000, 4, None, AmountSign::Negative, &mut buf),
        Some("1")
    );
    assert_eq!(
        str_i64(10001, 4, None, AmountSign::Negative, &mut buf),
        Some("1.0001")
    );
    assert_eq!(
        str_i64(10010, 4, None, AmountSign::Negative, &mut buf),
        Some("1.001")
    );
    assert_eq!(
        str_i64(10100, 4, None, AmountSign::Negative, &mut buf),
        Some("1.01")
    );
    assert_eq!(
        str_i64(11000, 4, None, AmountSign::Negative, &mut buf),
        Some("1.1")
    );
    assert_eq!(
        str_i64(101000000, 8, None, AmountSign::Negative, &mut buf),
        Some("1.01")
    );

    assert_eq!(
        str_i64(10000, 4, Some(4), AmountSign::Negative, &mut buf),
        Some("1.0000")
    );

    assert_eq!(
        str_i64(10000, 4, Some(5), AmountSign::Negative, &mut buf),
        Some("1.00000")
    );

    assert_eq!(
        str_i64(10001, 4, Some(5), AmountSign::Negative, &mut buf),
        Some("1.00010")
    );

    assert_eq!(
        str_i64(10000, 4, Some(3), AmountSign::Negative, &mut buf),
        Some("1.000")
    );
    assert_eq!(
        str_i64(10000, 4, Some(2), AmountSign::Negative, &mut buf),
        Some("1.00")
    );
    assert_eq!(
        str_i64(10100, 4, Some(2), AmountSign::Negative, &mut buf),
        Some("1.01")
    );
    assert_eq!(
        str_i64(10050, 4, Some(2), AmountSign::Negative, &mut buf),
        Some("1.01")
    );
    assert_eq!(
        str_i64(10050, 4, Some(1), AmountSign::Negative, &mut buf),
        Some("1.0")
    );
    assert_eq!(
        str_i64(-10050, 4, Some(1), AmountSign::Negative, &mut buf),
        Some("-1.0")
    );
    assert_eq!(
        str_i64(-10050, 4, Some(1), AmountSign::NoSign, &mut buf),
        Some("1.0")
    );
    assert_eq!(
        str_i64(-10050, 4, Some(1), AmountSign::Always, &mut buf),
        Some("-1.0")
    );
    assert_eq!(
        str_i64(10050, 4, Some(1), AmountSign::Always, &mut buf),
        Some("+1.0")
    );

    let mut small_buf = [0u8; 5];
    assert_eq!(
        str_i64(10050, 4, Some(3), AmountSign::Negative, &mut small_buf),
        Some("1.005")
    );
    assert_eq!(
        str_i64(10050, 4, Some(4), AmountSign::Negative, &mut small_buf),
        None
    );
    assert_eq!(
        str_i64(100500, 4, Some(3), AmountSign::Negative, &mut small_buf),
        None
    );
}

#[test]
fn test_decimal_parts_roundtrip() {
    // mantissa() / to_decimal_parts() expose the raw scaled value.
    let a = Amount64::from(3);
    assert_eq!(a.mantissa(), 30000);
    assert_eq!(a.to_decimal_parts(), (30000, -4));
    assert_eq!(Amount64::scale(), 4);
    assert_eq!(Decimal::<8>::scale(), 8);
    assert_eq!(Decimal::<0>::scale(), 0);

    // Round-trip through (mantissa, exponent) for several values.
    for raw in [0i64, 1, -1, 12345, -98765, i64::MAX, -i64::MAX] {
        let d = Decimal::<4>(raw);
        let (m, e) = d.to_decimal_parts();
        assert_eq!(Amount64::from_decimal_parts(m, e), Ok(d));
    }
}

#[test]
fn test_from_decimal_parts_scaling() {
    // Scale up: 1.23 == 123 * 10^-2 retargeted to 4 digits == 12300.
    assert_eq!(
        Amount64::from_decimal_parts(123, -2),
        Ok(Decimal::<4>(12300))
    );
    // Exponent equal to scale: integer scaling.
    assert_eq!(Amount64::from_decimal_parts(7, 0), Ok(Decimal::<4>(70000)));
    // Positive exponent scales further up.
    assert_eq!(
        Amount64::from_decimal_parts(5, 2),
        Ok(Decimal::<4>(5_000_000))
    );
    // Zero with any exponent is always representable.
    assert_eq!(Amount64::from_decimal_parts(0, -100), Ok(Decimal::<4>(0)));
    assert_eq!(Amount64::from_decimal_parts(0, 100), Ok(Decimal::<4>(0)));

    // Exact scale-down: surplus trailing zeros are droppable.
    // 1230000 * 10^-6 == 1.23 == 12300 * 10^-4.
    assert_eq!(
        Amount64::from_decimal_parts(1_230_000, -6),
        Ok(Decimal::<4>(12300))
    );
}

#[test]
fn test_from_decimal_parts_inexact() {
    // More fractional digits than a 4-digit type can hold.
    assert_eq!(
        Amount64::from_decimal_parts(1, -5),
        Err(AmountErrorKind::Inexact)
    );
    assert_eq!(
        Amount64::from_decimal_parts(12345, -5),
        Err(AmountErrorKind::Inexact)
    );
    // Huge negative exponent with non-zero mantissa: inexact, not a panic.
    assert_eq!(
        Amount64::from_decimal_parts(1, -1000),
        Err(AmountErrorKind::Inexact)
    );

    // Trailing zeros after the representable digits are NOT inexact: the
    // dropped digits are all zero, so the value is exact.
    assert_eq!(
        Amount64::from_decimal_parts(12300, -5),
        Ok(Decimal::<4>(1230)) // 0.12300 -> 0.1230
    );
    assert_eq!(
        Amount64::from_decimal_parts(120_000, -5),
        Ok(Decimal::<4>(12000)) // 1.20000 -> 1.2000
    );
    // Many surplus zeros are still exact.
    assert_eq!(
        Amount64::from_decimal_parts(50_000_000, -10),
        Ok(Decimal::<4>(50)) // 0.0050000000 -> 0.0050
    );
}

#[test]
fn test_from_decimal_parts_rounded() {
    // 1.23456 -> 4 digits. Round digit is 6 (> half).
    for mode in [HalfEven, HalfUp, HalfDown, Up] {
        assert_eq!(
            Amount64::from_decimal_parts_rounded(123456, -5, mode),
            Ok(Decimal::<4>(12346))
        );
    }
    assert_eq!(
        Amount64::from_decimal_parts_rounded(123456, -5, Down),
        Ok(Decimal::<4>(12345))
    );

    // Exact half: 1.23455 -> last kept digit decides HalfEven/HalfDown.
    assert_eq!(
        Amount64::from_decimal_parts_rounded(123455, -5, HalfUp),
        Ok(Decimal::<4>(12346))
    );
    assert_eq!(
        Amount64::from_decimal_parts_rounded(123455, -5, HalfDown),
        Ok(Decimal::<4>(12345))
    );
    assert_eq!(
        Amount64::from_decimal_parts_rounded(123455, -5, HalfEven),
        Ok(Decimal::<4>(12346)) // 12345 is odd -> round to even 12346
    );
    assert_eq!(
        Amount64::from_decimal_parts_rounded(123465, -5, HalfEven),
        Ok(Decimal::<4>(12346)) // 12346 is even -> stays
    );

    // Negative values round away from / toward zero symmetrically.
    assert_eq!(
        Amount64::from_decimal_parts_rounded(-123456, -5, HalfUp),
        Ok(Decimal::<4>(-12346))
    );
    assert_eq!(
        Amount64::from_decimal_parts_rounded(-123456, -5, Down),
        Ok(Decimal::<4>(-12345))
    );
    assert_eq!(
        Amount64::from_decimal_parts_rounded(-123451, -5, Up),
        Ok(Decimal::<4>(-12346))
    );

    // Exact inputs are unaffected by the mode.
    assert_eq!(
        Amount64::from_decimal_parts_rounded(1_230_000, -6, Down),
        Ok(Decimal::<4>(12300))
    );

    // Magnitude below half a ULP: rounds to zero, except `Up`.
    assert_eq!(
        Amount64::from_decimal_parts_rounded(1, -1000, HalfUp),
        Ok(Decimal::<4>(0))
    );
    assert_eq!(
        Amount64::from_decimal_parts_rounded(1, -1000, Up),
        Ok(Decimal::<4>(1))
    );
    assert_eq!(
        Amount64::from_decimal_parts_rounded(-1, -1000, Up),
        Ok(Decimal::<4>(-1))
    );

    // Overflow still reported when the rounded value won't fit.
    assert_eq!(
        Amount64::from_decimal_parts_rounded(i128::MAX, 0, HalfUp),
        Err(AmountErrorKind::Overflow)
    );
}

#[test]
fn test_parse_rounded() {

    // Default parse / FromStr keep HalfUp behavior.
    assert_eq!(Amount64::from_str("1.23455"), Ok(Decimal::<4>(12346)));

    // HalfEven uses the sticky bit and parity of the kept digit.
    assert_eq!(parse_decimal_i64_rounded("1.23455", 4, HalfEven), Ok(12346));
    assert_eq!(parse_decimal_i64_rounded("1.23465", 4, HalfEven), Ok(12346));
    // 1.234551 is past the half -> always up regardless of parity.
    assert_eq!(
        parse_decimal_i64_rounded("1.234551", 4, HalfEven),
        Ok(12346)
    );
    // HalfDown drops an exact half but rounds 5-with-remainder up.
    assert_eq!(parse_decimal_i64_rounded("1.23455", 4, HalfDown), Ok(12345));
    assert_eq!(
        parse_decimal_i64_rounded("1.234551", 4, HalfDown),
        Ok(12346)
    );

    // Trailing zeros never change the value or carry into rounding.
    assert_eq!(parse_decimal_i64_rounded("1.23450000", 4, Up), Ok(12345));
    assert_eq!(parse_decimal_i64_rounded("1.2345", 4, Up), Ok(12345));
    // Any non-zero dropped digit rounds away from zero under `Up`.
    assert_eq!(parse_decimal_i64_rounded("1.23451", 4, Up), Ok(12346));
    assert_eq!(parse_decimal_i64_rounded("-1.23451", 4, Up), Ok(-12346));
    assert_eq!(parse_decimal_i64_rounded("1.23459", 4, Down), Ok(12345));

    // Rounding can carry into the integer part.
    assert_eq!(parse_decimal_i64_rounded("0.99995", 4, HalfUp), Ok(10000));
}

#[test]
fn test_from_decimal_parts_overflow() {
    // Scaled value exceeds the i64 backing.
    assert_eq!(
        Amount64::from_decimal_parts(i128::MAX, 0),
        Err(AmountErrorKind::Overflow)
    );
    // Power of ten itself overflows i128.
    assert_eq!(
        Amount64::from_decimal_parts(1, 1000),
        Err(AmountErrorKind::Overflow)
    );
    // Just past the backing range.
    assert_eq!(
        Amount64::from_decimal_parts(i64::MAX as i128 + 1, -4),
        Err(AmountErrorKind::Overflow)
    );
}

#[test]
fn test_add() {
    assert_eq!(
        Decimal::<4>(10000) + Decimal::<4>(20000),
        Decimal::<4>(30000)
    );
    assert_eq!(
        Decimal::<4>(10000) + Decimal::<4>(20001),
        Decimal::<4>(30001)
    );
    assert_eq!(
        Decimal::<4>(10000) + Decimal::<4>(-20000),
        Decimal::<4>(-10000)
    );
    assert_eq!(
        Decimal::<4>(9223372036854775806) + Decimal::<4>(1),
        Decimal::<4>(9223372036854775807)
    );
}

#[test]
fn test_trunc() {
    assert_eq!(Decimal::<4>(10000).trunc(), Decimal::<4>(10000));
    assert_eq!(Decimal::<4>(10001).trunc(), Decimal::<4>(10000));
    assert_eq!(Decimal::<4>(19999).trunc(), Decimal::<4>(10000));
    assert_eq!(Decimal::<4>(199999).trunc(), Decimal::<4>(190000));

    assert_eq!(Decimal::<4>(-10000).trunc(), Decimal::<4>(-10000));
    assert_eq!(Decimal::<4>(-10001).trunc(), Decimal::<4>(-10000));
    assert_eq!(Decimal::<4>(-19999).trunc(), Decimal::<4>(-10000));
    assert_eq!(Decimal::<4>(-199999).trunc(), Decimal::<4>(-190000));
}

#[test]
fn test_floor() {
    assert_eq!(Decimal::<4>(10000).floor(), Decimal::<4>(10000));
    assert_eq!(Decimal::<4>(10001).floor(), Decimal::<4>(10000));
    assert_eq!(Decimal::<4>(19999).floor(), Decimal::<4>(10000));
    assert_eq!(Decimal::<4>(199999).floor(), Decimal::<4>(190000));

    assert_eq!(Decimal::<4>(-10000).floor(), Decimal::<4>(-10000));
    assert_eq!(Decimal::<4>(-10001).floor(), Decimal::<4>(-20000));
    assert_eq!(Decimal::<4>(-19999).floor(), Decimal::<4>(-20000));
    assert_eq!(Decimal::<4>(-199999).floor(), Decimal::<4>(-200000));
}

#[test]
fn test_round() {
    assert_eq!(Decimal::<4>(10000).round(), Decimal::<4>(10000));
    assert_eq!(Decimal::<4>(10001).round(), Decimal::<4>(10000));
    assert_eq!(Decimal::<4>(19999).round(), Decimal::<4>(20000));
    assert_eq!(Decimal::<4>(199999).round(), Decimal::<4>(200000));

    assert_eq!(Decimal::<4>(-10000).round(), Decimal::<4>(-10000));
    assert_eq!(Decimal::<4>(-10001).round(), Decimal::<4>(-10000));
    assert_eq!(Decimal::<4>(-19999).round(), Decimal::<4>(-20000));
    assert_eq!(Decimal::<4>(-199999).round(), Decimal::<4>(-200000));
}

#[test]
fn test_round100() {
    assert_eq!(Decimal::<4>::scale_int_half_100(), 50);

    assert_eq!(Decimal::<4>(10000).round100(), Decimal::<4>(10000));
    assert_eq!(Decimal::<4>(10001).round100(), Decimal::<4>(10000));
    assert_eq!(Decimal::<4>(19999).round100(), Decimal::<4>(20000));
    assert_eq!(Decimal::<4>(199999).round100(), Decimal::<4>(200000));

    assert_eq!(Decimal::<4>(-10000).round100(), Decimal::<4>(-10000));
    assert_eq!(Decimal::<4>(-10001).round100(), Decimal::<4>(-10000));
    assert_eq!(Decimal::<4>(-19999).round100(), Decimal::<4>(-20000));
    assert_eq!(Decimal::<4>(-199999).round100(), Decimal::<4>(-200000));

    assert_eq!(Decimal::<4>(-10050).round100(), Decimal::<4>(-10100));
    assert_eq!(Decimal::<4>(10050).round100(), Decimal::<4>(10100));

    assert_eq!(Decimal::<4>(10049).round100(), Decimal::<4>(10000));
}

#[test]
fn test_sub() {
    assert_eq!(
        Decimal::<4>(10000) - Decimal::<4>(20000),
        Decimal::<4>(-10000)
    );
    assert_eq!(
        Decimal::<4>(10000) - Decimal::<4>(20001),
        Decimal::<4>(-10001)
    );
    assert_eq!(
        Decimal::<4>(10000) - Decimal::<4>(-20000),
        Decimal::<4>(30000)
    );
    assert_eq!(
        Decimal::<4>(9223372036854775807) - Decimal::<4>(1),
        Decimal::<4>(9223372036854775806)
    );
}

// test operations with integers
#[test]
fn test_add_int() {
    assert_eq!(Decimal::<4>(10000) + 2, Decimal::<4>(30000));
    assert_eq!(Decimal::<4>(10001) + 2, Decimal::<4>(30001));
    assert_eq!(Decimal::<4>(10000) + (-2), Decimal::<4>(-10000));
    assert_eq!(
        Decimal::<4>(9223372036854765806) + 1,
        Decimal::<4>(9223372036854775806)
    );
}

// test multiplication of scaled
#[test]
fn test_mul() {
    assert_eq!(
        Decimal::<4>(10000) * Decimal::<4>(10000),
        Decimal::<4>(10000)
    );
    assert_eq!(
        Decimal::<4>(10000) * Decimal::<4>(-11111),
        Decimal::<4>(-11111)
    );
    assert_eq!(
        Decimal::<4>(10001) * Decimal::<4>(10001),
        Decimal::<4>(10002)
    );
    assert_eq!(
        Decimal::<4>(9223372036854775807) * Decimal::<4>(10000),
        Decimal::<4>(9223372036854775807)
    );
    assert_eq!(
        Decimal::<4>(11004) * Decimal::<4>(10015),
        Decimal::<4>(11021)
    );
    assert_eq!(
        Decimal::<4>(11004) * Decimal::<4>(-10015),
        Decimal::<4>(-11021)
    );
}

#[test]
fn test_div() {
    assert_eq!(
        Decimal::<4>(10000) / Decimal::<4>(10000),
        Decimal::<4>(10000)
    );
    assert_eq!(
        Decimal::<4>(10000) / Decimal::<4>(20000),
        Decimal::<4>(5000)
    );
    assert_eq!(
        Decimal::<4>(10000) / Decimal::<4>(5000),
        Decimal::<4>(20000)
    );

    assert_eq!(
        Decimal::<4>(10001) / Decimal::<4>(10001),
        Decimal::<4>(10000)
    );
    assert_eq!(
        Decimal::<4>(9223372036854775807) / Decimal::<4>(10000),
        Decimal::<4>(9223372036854775807)
    );

    assert_eq!(
        Decimal::<4>(10000) / Decimal::<4>(110000),
        Decimal::<4>(909)
    );
    assert_eq!(
        Decimal::<4>(10000) / Decimal::<4>(110000),
        Decimal::<4>(909)
    );

    // test roundings to be 'decimal'
    assert_eq!(
        Decimal::<4>(10000) / Decimal::<4>(130000),
        Decimal::<4>(769)
    );
    assert_eq!(
        Decimal::<4>(10000) / Decimal::<4>(-130000),
        Decimal::<4>(-769)
    );
    assert_eq!(
        Decimal::<4>(-10000) / Decimal::<4>(-130000),
        Decimal::<4>(769)
    );
    assert_eq!(
        Decimal::<4>(-10000) / Decimal::<4>(130000),
        Decimal::<4>(-769)
    );

    assert_eq!(
        Decimal::<4>(10000) / Decimal::<4>(180000),
        Decimal::<4>(556)
    );
    assert_eq!(
        Decimal::<4>(10000) / Decimal::<4>(-180000),
        Decimal::<4>(-556)
    );
    assert_eq!(
        Decimal::<4>(-10000) / Decimal::<4>(180000),
        Decimal::<4>(-556)
    );
    assert_eq!(
        Decimal::<4>(-10000) / Decimal::<4>(-180000),
        Decimal::<4>(556)
    );
}

#[test]
fn test_recip() {
    assert_eq!(Decimal::<4>(10000).recip(), Decimal::<4>(10000));
    assert_eq!(Decimal::<4>(9223372036854775807).recip(), Decimal::<4>(0));

    assert_eq!(Decimal::<4>(110000).recip(), Decimal::<4>(909));
    assert_eq!(Decimal::<4>(-110000).recip(), Decimal::<4>(-909));

    // test roundings to be 'decimal'
    assert_eq!(Decimal::<4>(130000).recip(), Decimal::<4>(769));
    assert_eq!(Decimal::<4>(-130000).recip(), Decimal::<4>(-769));

    assert_eq!(Decimal::<4>(180000).recip(), Decimal::<4>(556));
    assert_eq!(Decimal::<4>(-180000).recip(), Decimal::<4>(-556));
}

#[test]
fn lib_test_misc() {
    let a = amount(1.0);
    let b = amount(0.5);
    assert_eq!(a.0, 10000);
    assert_eq!(b.0, 5000);

    let c = a / b;
    assert_eq!(c.0, 20000);
    let d = a * b;
    assert_eq!(d.0, 5000);
    let e = b - 1i64;
    assert_eq!(e.0, -5000);
}
#[test]
fn test_from_str() {
    assert_eq!(Amount64::from_str(""), Err(AmountErrorKind::Empty));
    assert_eq!(Amount64::from_str("+"), Err(AmountErrorKind::Empty));
    assert_eq!(Amount64::from_str("-"), Err(AmountErrorKind::Empty));
    assert_eq!(Amount64::from_str("-."), Err(AmountErrorKind::Empty));
    assert_eq!(Amount64::from_str("+."), Err(AmountErrorKind::Empty));
    assert_eq!(Amount64::from_str("-+"), Err(AmountErrorKind::InvalidDigit));

    assert_eq!(Amount64::from_str("1").unwrap().0, 10000);
    assert_eq!(Amount64::from_str("+1").unwrap().0, 10000);
    assert_eq!(Amount64::from_str("1.").unwrap().0, 10000);
    assert_eq!(Amount64::from_str("1.0").unwrap().0, 10000);
    assert_eq!(Amount64::from_str("+1.0").unwrap().0, 10000);
    assert_eq!(Amount64::from_str("1.00").unwrap().0, 10000);
    assert_eq!(Amount64::from_str("1.000").unwrap().0, 10000);
    assert_eq!(Amount64::from_str("1.0000").unwrap().0, 10000);
    assert_eq!(Amount64::from_str("1.00000").unwrap().0, 10000);
    assert_eq!(Amount64::from_str("01.00000").unwrap().0, 10000);
    assert_eq!(Amount64::from_str("-1").unwrap().0, -10000);
    assert_eq!(Amount64::from_str("-1.").unwrap().0, -10000);
    assert_eq!(Amount64::from_str("-1.0").unwrap().0, -10000);
    assert_eq!(Amount64::from_str("-1.00").unwrap().0, -10000);
    assert_eq!(Amount64::from_str("-1.000").unwrap().0, -10000);
    assert_eq!(Amount64::from_str("-1.0000").unwrap().0, -10000);
    assert_eq!(Amount64::from_str("-1.00000").unwrap().0, -10000);
    assert_eq!(Amount64::from_str("-01.00000").unwrap().0, -10000);
    assert_eq!(Amount64::from_str("1.5").unwrap().0, 15000);
    assert_eq!(Amount64::from_str("1.05").unwrap().0, 10500);
    assert_eq!(Amount64::from_str("1.005").unwrap().0, 10050);
    assert_eq!(Amount64::from_str("1.0005").unwrap().0, 10005);
    assert_eq!(Amount64::from_str("1.00005").unwrap().0, 10001);
    assert_eq!(Amount64::from_str("1.00004").unwrap().0, 10000);
    assert_eq!(Amount64::from_str("1.00006").unwrap().0, 10001);
    assert_eq!(
        Amount64::from_str("922337203685477.5807").unwrap().0,
        9223372036854775807
    );
    assert_eq!(
        Amount64::from_str("-922337203685477.5807").unwrap().0,
        -9223372036854775807
    );
    assert_eq!(
        Amount64::from_str("922337203685477.5808"),
        Err(AmountErrorKind::Overflow)
    );
    assert_eq!(
        Amount64::from_str("-922337203685477.5808"),
        Err(AmountErrorKind::Overflow)
    );
}
#[test]
fn test_display() {
    assert_eq!(&format!("{}", Show(Decimal::<4>(10000))), "1");
    assert_eq!(&format!("{:+}", Show(Decimal::<4>(10000))), "+1");
    assert_eq!(&format!("{:2}", Show(Decimal::<4>(10000))), " 1");
    assert_eq!(&format!("{:3}", Show(Decimal::<4>(10000))), "  1");
    assert_eq!(&format!("{:4.2}", Show(Decimal::<4>(10000))), "1.00");
    assert_eq!(&format!("{:T>4.2}", Show(Decimal::<4>(10000))), "1.00");
    assert_eq!(&format!("{:<3}", Show(Decimal::<4>(10000))), "1  ");
    assert_eq!(&format!("{:03}", Show(Decimal::<4>(10000))), "001");
    assert_eq!(&format!("{:+2}", Show(Decimal::<4>(10000))), "+1");
    assert_eq!(&format!("{:+05}", Show(Decimal::<4>(10000))), "+0001");
    assert_eq!(&format!("{}", Show(Decimal::<4>(1))), "0.0001");
    assert_eq!(&format!("{}", Show(Decimal::<4>(10))), "0.001");
    assert_eq!(&format!("{}", Show(Decimal::<4>(-10000))), "-1");
    assert_eq!(&format!("{:+}", Show(Decimal::<4>(-10000))), "-1");
    assert_eq!(&format!("{}", Show(Decimal::<4>(10001))), "1.0001");
    assert_eq!(&format!("{}", Show(Decimal::<4>(-10001))), "-1.0001");
    // Regression: zero used to render as "-0" (pad_integral was handed
    // `num > 0` as the non-negative flag).
    assert_eq!(&format!("{}", Show(Decimal::<4>(0))), "0");
    assert_eq!(&format!("{:+}", Show(Decimal::<4>(0))), "+0"); // matches i32 behavior
}

#[test]
fn test_rate64() {
    let rate: Rate64 = Decimal((1.12345678f64 * 100000000.0) as i64);
    assert_eq!(&format!("{}", Show(rate)), "1.12345678");
    assert_eq!(rate.0, 112345678);
}

#[test]
fn lib_test_rounding_modes() {
    let a = amount(1.5);
    assert_eq!(a.round_to(Rounding::HalfUp), Amount64::from(2));
    assert_eq!(a.round_to(Rounding::HalfDown), Amount64::from(1));
    assert_eq!(a.round_to(Rounding::HalfEven), Amount64::from(2));
    assert_eq!(a.round_to(Rounding::Down), Amount64::from(1));
    assert_eq!(a.round_to(Rounding::Up), Amount64::from(2));
}

#[test]
fn lib_test_checked_math() {
    let max = Amount64::max_value();
    assert_eq!(max.checked_add(Amount64::from(1)), None);
    assert_eq!(
        Amount64::from(2).checked_sub(Amount64::from(1)),
        Some(Amount64::from(1))
    );
    assert_eq!(Amount64::from(2).checked_div(Amount64::from(0)), None);
    // Regression: checked_div used to return the remainder, not the quotient.
    assert_eq!(
        Amount64::from(6).checked_div(Amount64::from(2)),
        Some(Amount64::from(3))
    );
    assert_eq!(
        Amount64::from(1).checked_div(Amount64::from(3)),
        Some(Decimal::<4>(3333))
    );
    assert_eq!(
        Amount64::from(-1).checked_div(Amount64::from(3)),
        Some(Decimal::<4>(-3333))
    );
    assert_eq!(max.checked_mul(Amount64::from(2)), None);
}

#[test]
fn lib_test_const_eval() {
    // Whole expressions.
    let price_c: Amount64 = Amount64::from_str_const("19.99");
    let rate_c: Amount64 = Amount64::from_str_const("0.0825");
    let tax_c: Amount64 = price_c.mul_rounded(rate_c, Rounding::HalfEven);
    let doubled_c: Option<Amount64> = price_c.checked_mul(Amount64::from_str_const("2"));
    let growth_c: Amount64 = Amount64::from_str_const("1.05").powi(10);
    let rounded_c: Amount64 = tax_c.round_to(Rounding::HalfUp);

    assert_eq!(price_c.0, 199_900);
    // The same values, parsed again.
    let price = Amount64::from_str("19.99").unwrap();
    let rate = Amount64::from_str("0.0825").unwrap();
    assert_eq!(tax_c, price.mul_rounded(rate, Rounding::HalfEven));
    assert_eq!(doubled_c, price.checked_mul(Amount64::from(2)));
    assert_eq!(growth_c, Amount64::from_str("1.05").unwrap().powi(10));
    assert_eq!(rounded_c, tax_c.round_to(Rounding::HalfUp));
    assert_eq!(
        Amount64::from_str_rounded("1.00005", Rounding::HalfEven),
        Ok(Decimal::<4>(10000))
    );
}

#[test]
fn test_div_half_ties() {
    // Exact half ties round away from zero under the default HalfUp:
    // 0.0001 / 2 = 0.00005 -> 0.0001.
    assert_eq!(Decimal::<4>(1) / Decimal::<4>(20000), Decimal::<4>(1));
    assert_eq!(Decimal::<4>(-1) / Decimal::<4>(20000), Decimal::<4>(-1));
    assert_eq!(
        Decimal::<4>(1).checked_div(Decimal::<4>(20000)),
        Some(Decimal::<4>(1))
    );
    // recip: 1 / 20000.0 = 0.00005 -> 0.0001.
    assert_eq!(Decimal::<4>(200000000).recip(), Decimal::<4>(1));

    // HalfEven with an odd divisor: rem == (d-1)/2 is *below* the half,
    // so 0.0001 / 0.0003 = 0.3333... stays 0.3333.
    assert_eq!(
        Decimal::<4>(1).div_rounded(Decimal::<4>(3), Rounding::HalfEven),
        Decimal::<4>(3333)
    );
    // Even divisor exact tie obeys the parity of the quotient.
    // 0.3333 / 2 = 0.16665: quotient 1666 is even -> stays.
    assert_eq!(
        Decimal::<4>(3333).div_rounded(Decimal::<4>(20000), Rounding::HalfEven),
        Decimal::<4>(1666)
    );
    // 0.3335 / 2 = 0.16675: quotient 1667 is odd -> rounds to 1668.
    assert_eq!(
        Decimal::<4>(3335).div_rounded(Decimal::<4>(20000), Rounding::HalfEven),
        Decimal::<4>(1668)
    );
}
