//! The 256-bit backed decimal and its backing integer.

use core::str::FromStr;
use fin_decimal::{Amount256, AmountErrorKind, Decimal128, Decimal256, Rate256, Rounding, I256};
use std::fmt;

/// Shows a decimal the way a formatter with padding does.
struct Show<const D: u8>(Decimal256<D>);

impl<const D: u8> fmt::Display for Show<D> {
    fn fmt(&self, f: &mut fmt::Formatter) -> fmt::Result {
        let s = self.0.to_unsigned_string(f.precision());
        if s == "Amount::ERROR" {
            f.write_str(&s)
        } else {
            f.pad_integral(!self.0.is_negative(), "", &s)
        }
    }
}

/// Shows a narrow decimal the way a formatter with padding does.
struct Show128<const D: u8>(Decimal128<D>);

impl<const D: u8> fmt::Display for Show128<D> {
    fn fmt(&self, f: &mut fmt::Formatter) -> fmt::Result {
        let s = self.0.to_unsigned_string(f.precision());
        if s == "Amount::ERROR" {
            f.write_str(&s)
        } else {
            f.pad_integral(!self.0.is_negative(), "", &s)
        }
    }
}

/// A decimal from a float.
fn amount(v: f64) -> Amount256 {
    Decimal256(I256::from_i128((v * 10000.0) as i128))
}

/// A rate from a float.
fn rate(v: f64) -> Rate256 {
    Decimal256(I256::from_i128((v * 100000000.0) as i128))
}

fn to128<const D: u8>(v: Decimal256<D>) -> i128 {
    let (neg, mag) = v.0.to_sign_mag();
    assert_eq!(mag[2] | mag[3], 0);
    let m = ((mag[0] as u128) | ((mag[1] as u128) << 64)) as i128;
    if neg { -m } else { m }
}

fn raw(v: i128) -> Amount256 {
    Amount256::from_bits(I256::from_i128(v))
}

#[test]
fn test_i256_basics() {
    let one = I256::from_i128(1);
    let minus_one = I256::from_i128(-1);
    assert!(minus_one.is_negative());
    assert!(!one.is_negative());
    assert_eq!(one.wrapping_neg(), minus_one);
    assert_eq!(minus_one.wrapping_neg(), one);
    assert_eq!(I256::zero().wrapping_neg(), I256::zero());
    assert_eq!(I256::max_value().wrapping_neg(), I256::min_value());

    // Carry across the 128-bit boundary.
    let max_lo = I256 {
        lo: u128::MAX,
        hi: 0,
    };
    let sum = max_lo.checked_add(one).unwrap();
    assert_eq!(sum, I256 { lo: 0, hi: 1 });
    assert_eq!(sum.checked_sub(one).unwrap(), max_lo);

    // Overflow detection at the very top.
    assert_eq!(I256::max_value().checked_add(one), None);
    assert_eq!(I256::min_value().checked_sub(I256::from_i128(2)), None);
    assert!(I256::max_value().checked_add(minus_one).is_some());

    // Ordering.
    assert!(minus_one < I256::zero());
    assert!(I256::min_value() < minus_one);
    assert!(one < I256::max_value());
    assert!(
        I256 { lo: 0, hi: 1 }
            > I256 {
                lo: u128::MAX,
                hi: 0
            }
    );

    // Sign/magnitude round trip.
    for v in [0i128, 1, -1, i128::MAX, -i128::MAX, 12345, -98765] {
        let x = I256::from_i128(v);
        let (neg, mag) = x.to_sign_mag();
        assert_eq!(I256::from_sign_mag(neg, mag), Some(x));
    }
    let (neg, mag) = I256::max_value().to_sign_mag();
    assert!(!neg);
    assert_eq!(I256::from_sign_mag(neg, mag), Some(I256::max_value()));
    assert_eq!(I256::from_sign_mag(false, [0, 0, 0, 1 << 63]), None);

    // Byte round trip.
    let x = I256::from_i128(-123456789);
    assert_eq!(I256::from_le_bytes(x.to_le_bytes()), x);

    assert_eq!(format!("{:?}", I256::from_i128(-42)), "-42");
}

#[test]
fn decimal256_test_basic_ops() {
    let a = Amount256::from(2);
    let b = amount(0.5);
    assert_eq!(a, raw(20000));
    assert_eq!(b, raw(5000));
    assert_eq!(a + b, raw(25000));
    assert_eq!(a - b, raw(15000));
    assert_eq!(a * b, raw(10000));
    assert_eq!(a / b, raw(40000));
    assert_eq!(-a, raw(-20000));
    assert_eq!(a % b, raw(0));
    assert_eq!(raw(25000) % raw(20000), raw(5000));
    assert_eq!(raw(-25000) % raw(20000), raw(-5000));
}

#[test]
fn test_mul_div_match_decimal64_vectors() {
    assert_eq!(raw(10001) * raw(10001), raw(10002));
    assert_eq!(raw(11004) * raw(10015), raw(11021));
    assert_eq!(raw(11004) * raw(-10015), raw(-11021));
    assert_eq!(raw(10000) / raw(110000), raw(909));
    assert_eq!(raw(10000) / raw(130000), raw(769));
    assert_eq!(raw(10000) / raw(-130000), raw(-769));
    assert_eq!(raw(-10000) / raw(130000), raw(-769));
    assert_eq!(raw(-10000) / raw(-130000), raw(769));
    assert_eq!(raw(10000) / raw(180000), raw(556));
    assert_eq!(raw(-10000) / raw(-180000), raw(556));
}

#[test]
fn test_beyond_128_bit_range() {
    // 10^36 as an Amount256: overflows Amount64 and pushes Amount128.
    let big = Amount256::from(10i128.pow(36));
    assert_eq!((big * big).to_string(), "1".to_string() + &"0".repeat(72));
    // Knuth-path division: divisor uses all four limbs.
    let q = (big * big) / big;
    assert_eq!(q, big);
    let r = (big * big + Amount256::from(7)) % (big * big);
    assert_eq!(r, Amount256::from(7));
    // 1 / 3 at scale 4 still rounds correctly.
    assert_eq!(Amount256::from(1) / Amount256::from(3), raw(3333));
    // MAX round-trips through Display/FromStr.
    let s = Amount256::max_value().to_string();
    assert_eq!(Amount256::from_str(&s).unwrap(), Amount256::max_value());
    let s = Amount256::min_value().to_string();
    assert_eq!(Amount256::from_str(&s).unwrap(), Amount256::min_value());

    // Wide multiplication result verified against an independently
    // computed value: (2^126 / 10^4) * (2^126 / 10^4) needs > 128 bits.
    let a = raw(i128::MAX / 2 + 1); // 2^126, value 2^126 / 10^4
    let prod = a * a;
    // value = 2^252 / 10^8, mantissa rounded HalfUp at 4 digits.
    assert_eq!(prod / a, a);
    assert_eq!(
        prod.to_string(),
        "72370055773322622139731865630429942408293740416025352524660990004945.706"
    );
}

#[test]
fn decimal256_test_checked_math() {
    assert_eq!(Amount256::max_value().checked_add(raw(1)), None);
    // Like the i64-backed type, checked math permits the asymmetric
    // two's-complement minimum (MIN - 1); one step further overflows.
    assert!(Amount256::min_value().checked_sub(raw(1)).is_some());
    assert_eq!(Amount256::min_value().checked_sub(raw(2)), None);
    assert_eq!(Amount256::max_value().checked_mul(Amount256::from(2)), None);
    assert_eq!(Amount256::from(2).checked_div(Amount256::zero()), None);
    assert_eq!(
        Amount256::from(6).checked_div(Amount256::from(2)),
        Some(Amount256::from(3))
    );
    assert_eq!(
        Amount256::max_value().checked_div(raw(5000)), // MAX / 0.5 overflows
        None
    );
}

#[test]
fn test_rounding() {
    let a = amount(1.5);
    assert_eq!(a.round_to(Rounding::HalfUp), Amount256::from(2));
    assert_eq!(a.round_to(Rounding::HalfDown), Amount256::from(1));
    assert_eq!(a.round_to(Rounding::HalfEven), Amount256::from(2));
    assert_eq!(a.round_to(Rounding::Down), Amount256::from(1));
    assert_eq!(a.round_to(Rounding::Up), Amount256::from(2));
    let b = amount(-1.5);
    assert_eq!(b.round_to(Rounding::HalfUp), Amount256::from(-2));
    assert_eq!(b.round_to(Rounding::Down), Amount256::from(-2));
    assert_eq!(b.round_to(Rounding::Up), Amount256::from(-1));

    assert_eq!(
        amount(-3.7).trunc(),
        Amount256::from(-3)
    );
    assert_eq!(
        amount(-3.7).floor(),
        Amount256::from(-4)
    );
    assert_eq!(amount(3.2).ceil(), Amount256::from(4));
    assert_eq!(
        amount(-3.5).round(),
        Amount256::from(-4)
    );
    assert_eq!(amount(3.25).fract(), raw(2500));

    // mul_rounded ties.
    let h = raw(5000); // 0.5
    let x = raw(10001);
    assert_eq!(h.mul_rounded(x, Rounding::HalfUp), raw(5001));
    assert_eq!(h.mul_rounded(x, Rounding::HalfDown), raw(5000));
    assert_eq!(h.mul_rounded(x, Rounding::HalfEven), raw(5000));
    assert_eq!((-h).mul_rounded(x, Rounding::Down), raw(-5001));
    assert_eq!((-h).mul_rounded(x, Rounding::Up), raw(-5000));

    let one = Amount256::from(1);
    let three = Amount256::from(3);
    assert_eq!(one.div_rounded(three, Rounding::Down), raw(3333));
    assert_eq!(one.div_rounded(three, Rounding::Up), raw(3334));
    assert_eq!((-one).div_rounded(three, Rounding::Down), raw(-3334));
    assert_eq!((-one).div_rounded(three, Rounding::Up), raw(-3333));
}

#[test]
fn decimal256_test_from_str_and_display() {
    assert_eq!(Amount256::from_str("1.0001").unwrap(), raw(10001));
    assert_eq!(Amount256::from_str("-1.0001").unwrap(), raw(-10001));
    assert_eq!(Amount256::from_str("1.00005").unwrap(), raw(10001));
    assert_eq!(Amount256::from_str(""), Err(AmountErrorKind::Empty));
    assert_eq!(Amount256::from_str("x"), Err(AmountErrorKind::InvalidDigit));
    // A 70-digit value round-trips exactly.
    let s = "-1234567890123456789012345678901234567890123456789012345678901234567890.5";
    let v = Amount256::from_str(s).unwrap();
    assert_eq!(v.to_string(), s);
    // Too large.
    let huge = "9".repeat(80);
    assert_eq!(Amount256::from_str(&huge), Err(AmountErrorKind::Overflow));

    assert_eq!(&format!("{}", Show(raw(10000))), "1");
    assert_eq!(&format!("{:+}", Show(raw(10000))), "+1");
    assert_eq!(&format!("{:4.2}", Show(raw(10000))), "1.00");
    assert_eq!(&format!("{}", Show(raw(1))), "0.0001");
    assert_eq!(&format!("{}", Show(raw(-10001))), "-1.0001");
    assert_eq!(&format!("{}", Show(Amount256::zero())), "0");
    assert_eq!(&format!("{:.2}", Show(raw(10050))), "1.01");
}

#[test]
fn integer_conversions() {
    assert_eq!(Amount256::from(3i32), raw(30000));

    // to_i128 truncation and saturation.
    assert_eq!(amount(-3.7).to_i128(), -3);
    let big = Amount256::from(10i128.pow(36));
    assert_eq!((big * big).to_i128(), i128::MAX);
    assert_eq!((-(big * big)).to_i128(), i128::MIN);

    // i128 conversions are exact over the whole i128 range.
    let v = Amount256::from(i128::MAX);
    assert_eq!(v.to_i128(), i128::MAX);
    assert_eq!(v.to_string(), i128::MAX.to_string());

    // Bytes round trip.
    let v = Amount256::from(-42);
    assert_eq!(Amount256::from_le_bytes(v.to_le_bytes()), v);
}

#[test]
fn decimal256_test_misc() {
    assert_eq!(Amount256::from(10).signum(), Amount256::one());
    assert_eq!(Amount256::from(-10).signum(), Amount256::minus_one());
    assert_eq!(Amount256::from(0).signum(), Amount256::zero());
    assert!(Amount256::from(-10).is_negative());
    assert!(Amount256::from(10).is_positive());
    assert!(!Amount256::zero().is_positive());
    assert_eq!(Amount256::from(-3).abs(), Amount256::from(3));
    assert_eq!(Amount256::from(2).recip(), raw(5000));
    assert_eq!(Amount256::from(2).powi(100).to_string(), {
        // 2^100
        "1267650600228229401496703205376"
    });
    assert_eq!(
        Amount256::from(5).clamp(Amount256::zero(), Amount256::one()),
        Amount256::one()
    );
    assert!(Amount256::from(1) == 1i64);
    assert!(Amount256::from(2) > 1i64);
    let v: Amount256 = [1, 2, 3].iter().map(|&x| Amount256::from(x)).sum();
    assert_eq!(v, Amount256::from(6));
    let p: Amount256 = [2, 3, 4].iter().map(|&x| Amount256::from(x)).product();
    assert_eq!(p, Amount256::from(24));
    assert_eq!(Amount256::from(7) * 3i64, Amount256::from(21));
    assert_eq!(Amount256::from(7) * -3i32, Amount256::from(-21));
    assert_eq!(Amount256::from(7) + 3i64, Amount256::from(10));
    assert_eq!(Amount256::from(7) - 3i64, Amount256::from(4));
    assert_eq!(
        rate(1.12345678).to_string(),
        "1.12345678"
    );
}

#[test]
fn decimal256_test_const_eval() {
    let a_c: Amount256 = Amount256::from_str_const(
        "123456789012345678901234567890123456789012345678901234.5678",
    );
    let b_c: Amount256 = a_c.mul_rounded(Amount256::from_str_const("1.0001"), Rounding::HalfUp);
    let c_c: Amount256 = a_c.round_to(Rounding::HalfEven);
    let d_c: Amount256 = a_c.trunc();
    let e_c: Amount256 = Amount256::from_str_const("2").powi(100);
    let f_c: Option<Amount256> = a_c.checked_mul(a_c); // overflows -> None

    let a = Amount256::from_str("123456789012345678901234567890123456789012345678901234.5678")
        .unwrap();
    assert_eq!(a_c, a);
    assert_eq!(
        b_c,
        a.mul_rounded(Amount256::from_str("1.0001").unwrap(), Rounding::HalfUp)
    );
    assert_eq!(c_c, a.round_to(Rounding::HalfEven));
    assert_eq!(d_c, a.trunc());
    assert_eq!(e_c.to_string(), "1267650600228229401496703205376");
    assert_eq!(f_c, None);
}

/// Differential test: for values within the i128 range, Decimal256 must
/// agree with Decimal128 on every operation and rounding mode. Operands
/// go well past 64 bits so the Knuth division path is exercised.
#[test]
fn test_differential_vs_decimal128() {

    let mut state = 0xDA3E39CB94B95BDBu64;
    let mut next = move || {
        state ^= state >> 12;
        state ^= state << 25;
        state ^= state >> 27;
        state.wrapping_mul(0x2545F4914F6CDD1D)
    };

    for i in 0..20000 {
        // Alternate magnitudes: up to ~2^60 (products stay well inside
        // i128) and small ones, so both division paths are hit.
        let shift = if i % 3 == 0 { 40 } else { 4 };
        let a = ((((next() as u128) << 64) | next() as u128) >> (68 + shift)) as i128
            * if next() & 1 == 0 { 1 } else { -1 };
        let b = ((((next() as u128) << 64) | next() as u128) >> (68 + shift)) as i128
            * if next() & 1 == 0 { 1 } else { -1 };
        let da = Decimal128::<4>(a);
        let db = Decimal128::<4>(b);
        let wa = Decimal256::<4>(I256::from_i128(a));
        let wb = Decimal256::<4>(I256::from_i128(b));
        assert_eq!((da + db).0, to128(wa + wb));
        assert_eq!((da - db).0, to128(wa - wb));
        assert_eq!((da * db).0, to128(wa * wb), "mul {a} * {b}");
        assert_eq!(format!("{}", Show128(da)), format!("{}", Show(wa)));
        assert_eq!(format!("{:.2}", Show128(da)), format!("{:.2}", Show(wa)));

        // Cross-scale operands (an 8-digit rate) for mul_rounded.
        let rb = Decimal128::<8>(b);
        let wrb = Decimal256::<8>(I256::from_i128(b));
        for mode in [
                Rounding::HalfUp,
                Rounding::HalfDown,
                Rounding::HalfEven,
                Rounding::Down,
                Rounding::Up,
            ] {
            assert_eq!(
                da.mul_rounded(db, mode).0,
                to128(wa.mul_rounded(wb, mode)),
                "mul_rounded {a} * {b}"
            );
            assert_eq!(
                da.mul_rounded(rb, mode).0,
                to128(wa.mul_rounded(wrb, mode)),
                "mul_rounded cross-scale {a} * {b}"
            );
            assert_eq!(
                da.round_to(mode).0,
                to128(wa.round_to(mode)),
                "round_to {a}"
            );
            if b != 0 {
                assert_eq!(
                    da.div_rounded(db, mode).0,
                    to128(wa.div_rounded(wb, mode)),
                    "div_rounded {a} / {b}"
                );
                assert_eq!(
                    da.div_rounded_to::<8>(db, mode).0,
                    to128(wa.div_rounded_to::<8>(wb, mode)),
                    "div_rounded_to::<8> {a} / {b}"
                );
                if let Ok(n) = i64::try_from(b) {
                    assert_eq!(
                        da.div_int_rounded(n, mode).0,
                        to128(wa.div_int_rounded(n, mode)),
                        "div_int_rounded {a} / {n}"
                    );
                }
            }
        }
        if b != 0 {
            assert_eq!((da / db).0, to128(wa / wb), "div {a} / {b}");
            assert_eq!((da % db).0, to128(wa % wb), "rem {a} % {b}");
        }
    }
}
