//! The 128-bit backed decimal.

use core::str::FromStr;
use fin_decimal::{Amount128, AmountErrorKind, Decimal, Decimal128, Rate128, Rounding};
use std::fmt;

/// Shows a decimal the way a formatter with padding does.
struct Show<const D: u8>(Decimal128<D>);

impl<const D: u8> fmt::Display for Show<D> {
    fn fmt(&self, f: &mut fmt::Formatter) -> fmt::Result {
        let s = self.0.to_unsigned_string(f.precision());
        if s == "Amount::ERROR" {
            f.write_str(&s)
        } else {
            f.pad_integral(!self.0.is_negative(), "", &s)
        }
    }
}

/// Shows a narrow decimal the way a formatter with padding does.
struct Show64<const D: u8>(Decimal<D>);

impl<const D: u8> fmt::Display for Show64<D> {
    fn fmt(&self, f: &mut fmt::Formatter) -> fmt::Result {
        let s = self.0.to_unsigned_string(f.precision());
        if s == "Amount::ERROR" {
            f.write_str(&s)
        } else {
            f.pad_integral(!self.0.is_negative(), "", &s)
        }
    }
}

/// A decimal from a float.
fn amount(v: f64) -> Amount128 {
    Decimal128((v * 10000.0) as i128)
}

/// A rate from a float.
fn rate(v: f64) -> Rate128 {
    Decimal128((v * 100000000.0) as i128)
}

#[test]
fn decimal128_test_basic_ops() {
    let a = Amount128::from(2);
    let b = amount(0.5);
    assert_eq!(a.0, 20000);
    assert_eq!(b.0, 5000);
    assert_eq!((a + b).0, 25000);
    assert_eq!((a - b).0, 15000);
    assert_eq!((a * b).0, 10000);
    assert_eq!((a / b).0, 40000);
    assert_eq!((-a).0, -20000);
    assert_eq!((a % b).0, 0);
}

#[test]
fn test_mul_rounding_matches_decimal64() {
    // Mirror Decimal<4> test vectors.
    assert_eq!(
        Decimal128::<4>(10001) * Decimal128::<4>(10001),
        Decimal128::<4>(10002)
    );
    assert_eq!(
        Decimal128::<4>(11004) * Decimal128::<4>(10015),
        Decimal128::<4>(11021)
    );
    assert_eq!(
        Decimal128::<4>(11004) * Decimal128::<4>(-10015),
        Decimal128::<4>(-11021)
    );
}

#[test]
fn test_div_rounding_matches_decimal64() {
    assert_eq!(
        Decimal128::<4>(10000) / Decimal128::<4>(110000),
        Decimal128::<4>(909)
    );
    assert_eq!(
        Decimal128::<4>(10000) / Decimal128::<4>(130000),
        Decimal128::<4>(769)
    );
    assert_eq!(
        Decimal128::<4>(10000) / Decimal128::<4>(-130000),
        Decimal128::<4>(-769)
    );
    assert_eq!(
        Decimal128::<4>(-10000) / Decimal128::<4>(130000),
        Decimal128::<4>(-769)
    );
    assert_eq!(
        Decimal128::<4>(-10000) / Decimal128::<4>(-130000),
        Decimal128::<4>(769)
    );
    assert_eq!(
        Decimal128::<4>(10000) / Decimal128::<4>(180000),
        Decimal128::<4>(556)
    );
    assert_eq!(
        Decimal128::<4>(-10000) / Decimal128::<4>(180000),
        Decimal128::<4>(-556)
    );
}

#[test]
fn test_beyond_64_bit_range() {
    // Values that overflow Amount64 are exact here.
    let big = Amount128::from(10_000_000_000_000_000i64); // 10^16
    assert_eq!(big.0, 100_000_000_000_000_000_000i128);
    assert_eq!((big * big).0, 10i128.pow(36));
    assert_eq!(
        format!("{}", Show(big * big)),
        "100000000000000000000000000000000"
    );
    // Division with a two-limb divisor.
    let one = Amount128::from(1);
    let r = one / big;
    assert_eq!(r.0, 0); // 10^-16 rounds to 0 at 4 digits
    let r = big / Amount128::from(3);
    assert_eq!(r.0, 33_333_333_333_333_333_333i128);
}

#[test]
fn decimal128_test_checked_math() {
    let max = Amount128::max_value();
    assert_eq!(max.checked_add(Amount128::from(1)), None);
    assert_eq!(max.checked_mul(Amount128::from(2)), None);
    assert_eq!(Amount128::from(2).checked_div(Amount128::zero()), None);
    assert_eq!(
        Amount128::from(6).checked_div(Amount128::from(2)),
        Some(Amount128::from(3))
    );
    assert_eq!(
        Amount128::from(2).checked_mul(Amount128::from(3)),
        Some(Amount128::from(6))
    );
}

#[test]
fn decimal128_test_rounding_modes() {
    let a = amount(1.5);
    assert_eq!(a.round_to(Rounding::HalfUp), Amount128::from(2));
    assert_eq!(a.round_to(Rounding::HalfDown), Amount128::from(1));
    assert_eq!(a.round_to(Rounding::HalfEven), Amount128::from(2));
    assert_eq!(a.round_to(Rounding::Down), Amount128::from(1));
    assert_eq!(a.round_to(Rounding::Up), Amount128::from(2));

    // mul_rounded ties: 0.5 * 1.0001 = 0.50005
    let h = amount(0.5);
    let x = Amount128::from_bits(10001);
    assert_eq!(h.mul_rounded(x, Rounding::HalfUp).0, 5001);
    assert_eq!(h.mul_rounded(x, Rounding::HalfDown).0, 5000);
    assert_eq!(h.mul_rounded(x, Rounding::HalfEven).0, 5000);
    assert_eq!(h.mul_rounded(x, Rounding::Down).0, 5000);
    assert_eq!(h.mul_rounded(x, Rounding::Up).0, 5001);
    // Negative: floor/ceil are directional.
    assert_eq!((-h).mul_rounded(x, Rounding::Down).0, -5001);
    assert_eq!((-h).mul_rounded(x, Rounding::Up).0, -5000);
    assert_eq!((-h).mul_rounded(x, Rounding::HalfUp).0, -5001);
}

#[test]
fn test_div_rounded_modes() {
    let one = Amount128::from(1);
    let three = Amount128::from(3);
    assert_eq!(one.div_rounded(three, Rounding::Down).0, 3333);
    assert_eq!(one.div_rounded(three, Rounding::Up).0, 3334);
    assert_eq!((-one).div_rounded(three, Rounding::Down).0, -3334);
    assert_eq!((-one).div_rounded(three, Rounding::Up).0, -3333);
    assert_eq!(one.div_rounded(three, Rounding::HalfUp).0, 3333);
}

#[test]
fn decimal128_test_from_str_and_display() {
    assert_eq!(Amount128::from_str("1.0001").unwrap().0, 10001);
    assert_eq!(Amount128::from_str("-1.0001").unwrap().0, -10001);
    assert_eq!(Amount128::from_str("1.00005").unwrap().0, 10001);
    assert_eq!(
        Amount128::from_str_rounded("1.00005", Rounding::HalfEven)
            .unwrap()
            .0,
        10000
    );
    assert_eq!(Amount128::from_str(""), Err(AmountErrorKind::Empty));
    assert_eq!(
        Amount128::from_str("1.2.3"),
        Err(AmountErrorKind::InvalidDigit)
    );

    // Max value round-trips through Display/FromStr.
    let s = Amount128::max_value().to_string();
    assert_eq!(s, "17014118346046923173168730371588410.5727");
    assert_eq!(Amount128::from_str(&s).unwrap(), Amount128::max_value());
    let s = Amount128::min_value().to_string();
    assert_eq!(Amount128::from_str(&s).unwrap(), Amount128::min_value());
    // Just past the range.
    assert_eq!(
        Amount128::from_str("17014118346046923173168730371588410.5728"),
        Err(AmountErrorKind::Overflow)
    );

    assert_eq!(&format!("{}", Show(Decimal128::<4>(10000))), "1");
    assert_eq!(&format!("{:+}", Show(Decimal128::<4>(10000))), "+1");
    assert_eq!(&format!("{:4.2}", Show(Decimal128::<4>(10000))), "1.00");
    assert_eq!(&format!("{:03}", Show(Decimal128::<4>(10000))), "001");
    assert_eq!(&format!("{}", Show(Decimal128::<4>(1))), "0.0001");
    assert_eq!(&format!("{}", Show(Decimal128::<4>(-10001))), "-1.0001");
    assert_eq!(&format!("{}", Show(Decimal128::<4>(0))), "0");
}

#[test]
fn test_decimal_parts() {
    let a = Amount128::from(3);
    assert_eq!(a.mantissa(), 30000);
    assert_eq!(a.to_decimal_parts(), (30000, -4));
    for raw in [0i128, 1, -1, 12345, i128::MAX, -i128::MAX] {
        let d = Decimal128::<4>(raw);
        let (m, e) = d.to_decimal_parts();
        assert_eq!(Amount128::from_decimal_parts(m, e), Ok(d));
    }
    assert_eq!(
        Amount128::from_decimal_parts(1, -5),
        Err(AmountErrorKind::Inexact)
    );
    assert_eq!(
        Amount128::from_decimal_parts(12300, -5),
        Ok(Decimal128::<4>(1230))
    );
    assert_eq!(
        Amount128::from_decimal_parts_rounded(123456, -5, Rounding::HalfUp),
        Ok(Decimal128::<4>(12346))
    );
    assert_eq!(
        Amount128::from_decimal_parts(i128::MAX, 1),
        Err(AmountErrorKind::Overflow)
    );
}

#[test]
fn decimal128_test_misc() {
    assert_eq!(
        amount(3.7).trunc(),
        Amount128::from(3)
    );
    assert_eq!(
        amount(-3.7).floor(),
        Amount128::from(-4)
    );
    assert_eq!(amount(3.2).ceil(), Amount128::from(4));
    assert_eq!(
        amount(-3.5).round(),
        Amount128::from(-4)
    );
    assert_eq!(Amount128::from(10).signum(), Amount128::one());
    assert_eq!(Amount128::from(-10).signum(), Amount128::minus_one());
    assert_eq!(Amount128::from(0).signum(), Amount128::zero());
    assert_eq!(Amount128::from(2).recip().0, 5000);
    assert_eq!(Amount128::from(2).powi(10), Amount128::from(1024));
    assert_eq!(
        Amount128::from(5).clamp(Amount128::zero(), Amount128::one()),
        Amount128::one()
    );
    assert!(Amount128::from(1) == 1i64);
    assert!(Amount128::from(2) > 1i64);
    let v: Amount128 = [1, 2, 3].iter().map(|&x| Amount128::from(x)).sum();
    assert_eq!(v, Amount128::from(6));
    let bytes = Amount128::from(1).to_le_bytes();
    assert_eq!(Amount128::from_le_bytes(bytes), Amount128::from(1));
    assert_eq!(rate(1.12345678).0, 112345678);
    assert_eq!(
        &format!("{}", Show(rate(1.12345678))),
        "1.12345678"
    );
}

#[test]
fn decimal128_test_const_eval() {
    let a_c: Amount128 = Amount128::from_str_const("123456789012345.6789");
    let b_c: Amount128 = a_c.mul_rounded(a_c, Rounding::HalfUp);
    let c_c: Amount128 = a_c.round_to(Rounding::HalfEven);
    let d_c: Amount128 = a_c.trunc();
    let e_c: Amount128 = Amount128::from_str_const("1.01").powi(12);
    let f_c: Option<Amount128> = a_c.checked_mul(a_c);
    let g_c: Amount128 = a_c.fract();

    let a = Amount128::from_str("123456789012345.6789").unwrap();
    assert_eq!(a_c, a);
    assert_eq!(b_c, a.mul_rounded(a, Rounding::HalfUp));
    assert_eq!(c_c, a.round_to(Rounding::HalfEven));
    assert_eq!(d_c, a.trunc());
    assert_eq!(e_c, Amount128::from_str("1.01").unwrap().powi(12));
    assert_eq!(f_c, a.checked_mul(a));
    assert_eq!(g_c, a.fract());
    assert_eq!(g_c.0, 6789);
}

/// The limb-based remainder must agree with the compiler's native i128
/// `%` across one- and two-limb divisors and all sign combinations.
#[test]
fn test_rem_wide() {
    let mut state = 0x9E3779B97F4A7C15u64;
    let mut next = move || {
        state ^= state >> 12;
        state ^= state << 25;
        state ^= state >> 27;
        state.wrapping_mul(0x2545F4914F6CDD1D)
    };

    // A signed value whose magnitude spans a random number of bits.
    let mut rnd = move || {
        let sh = (next() as u32) % 128;
        let neg = next() & 1 != 0;
        let m = ((((next() as u128) << 64) | next() as u128) >> sh) as i128;
        if neg { m.wrapping_neg() } else { m }
    };
    for _ in 0..20000 {
        let a = rnd();
        let b = rnd();
        if b == 0 {
            continue;
        }
        assert_eq!(
            (Decimal128::<4>(a) % Decimal128::<4>(b)).0,
            a % b,
            "{a} % {b}"
        );
    }

    // Extremes: i128::MIN on either side, and |a| < |b|.
    assert_eq!(
        (Decimal128::<4>(i128::MIN) % Decimal128::<4>(3)).0,
        i128::MIN % 3
    );
    assert_eq!(
        (Decimal128::<4>(i128::MIN) % Decimal128::<4>(i128::MIN)).0,
        0
    );
    assert_eq!((Decimal128::<4>(5) % Decimal128::<4>(i128::MIN)).0, 5);
    assert_eq!((Decimal128::<4>(-5) % Decimal128::<4>(i128::MIN)).0, -5);
    assert_eq!((Decimal128::<4>(-5) % Decimal128::<4>(5)).0, 0);
}

/// Differential test: for values within the i64 range, Decimal128 must
/// agree with Decimal (the i64-backed type) on every operation and
/// rounding mode.
#[test]
fn test_differential_vs_decimal64() {

    let mut state = 0x853C49E6748FEA9Bu64;
    let mut next = move || {
        state ^= state >> 12;
        state ^= state << 25;
        state ^= state >> 27;
        state.wrapping_mul(0x2545F4914F6CDD1D)
    };

    for _ in 0..20000 {
        // Keep magnitudes below ~2^30 so i64 multiplication cannot overflow.
        let a = (next() as i64) >> 34;
        let b = (next() as i64) >> 34;
        let da = Decimal::<4>(a);
        let db = Decimal::<4>(b);
        let wa = Decimal128::<4>(a as i128);
        let wb = Decimal128::<4>(b as i128);

        assert_eq!((da + db).0 as i128, (wa + wb).0);
        assert_eq!((da - db).0 as i128, (wa - wb).0);
        assert_eq!((da * db).0 as i128, (wa * wb).0, "mul {a} * {b}");
        assert_eq!(format!("{}", Show64(da)), format!("{}", Show(wa)));
        assert_eq!(format!("{:.2}", Show64(da)), format!("{:.2}", Show(wa)));

        // Cross-scale operands (an 8-digit rate) for mul_rounded.
        let rb = Decimal::<8>(b);
        let wrb = Decimal128::<8>(b as i128);
        for mode in [
                Rounding::HalfUp,
                Rounding::HalfDown,
                Rounding::HalfEven,
                Rounding::Down,
                Rounding::Up,
            ] {
            assert_eq!(
                da.mul_rounded(db, mode).0 as i128,
                wa.mul_rounded(wb, mode).0,
                "mul_rounded {a} * {b}"
            );
            assert_eq!(
                da.mul_rounded(rb, mode).0 as i128,
                wa.mul_rounded(wrb, mode).0,
                "mul_rounded cross-scale {a} * {b}"
            );
            assert_eq!(
                da.round_to(mode).0 as i128,
                wa.round_to(mode).0,
                "round_to {a}"
            );
            if b != 0 {
                assert_eq!(
                    da.div_rounded(db, mode).0 as i128,
                    wa.div_rounded(wb, mode).0,
                    "div_rounded {a} / {b}"
                );
                assert_eq!(
                    da.div_rounded_to::<8>(db, mode).0 as i128,
                    wa.div_rounded_to::<8>(wb, mode).0,
                    "div_rounded_to::<8> {a} / {b}"
                );
                assert_eq!(
                    da.div_int_rounded(b, mode).0 as i128,
                    wa.div_int_rounded(b, mode).0,
                    "div_int_rounded {a} / {b}"
                );
            }
        }
        if b != 0 {
            assert_eq!((da / db).0 as i128, (wa / wb).0, "div {a} / {b}");
            assert_eq!((da % db).0 as i128, (wa % wb).0, "rem {a} % {b}");
            assert_eq!(
                da.checked_div(db).map(|v| v.0 as i128),
                wa.checked_div(wb).map(|v| v.0),
                "checked_div {a} / {b}"
            );
        }
    }
}
