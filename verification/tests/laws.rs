//! The laws of the library on concrete values.

use core::str::FromStr;
use fin_decimal::{
    parse_decimal_i64_rounded, str_i64, Amount128, Amount256, Amount64, AmountErrorKind,
    AmountSign, Decimal, Decimal128, Decimal256, Rate64, Rounding, I256,
};

const MODES: [Rounding; 5] = [
    Rounding::HalfEven,
    Rounding::HalfUp,
    Rounding::HalfDown,
    Rounding::Down,
    Rounding::Up,
];

const RAWS: [i64; 13] = [
    0,
    1,
    -1,
    9,
    10,
    -100,
    4999,
    5000,
    -5001,
    12_340_000,
    -98_765,
    i64::MAX,
    -i64::MAX,
];

#[test]
fn text_comes_back_as_the_value() {
    for raw in RAWS {
        let a = Decimal::<4>(raw);
        let b = Decimal128::<8>(raw as i128);
        let c = Decimal256::<19>(I256::from_i128(raw as i128));
        assert_eq!(Amount64::from_str(&a.to_string()), Ok(a));
        assert_eq!(Decimal128::<8>::from_str(&b.to_string()), Ok(b));
        assert_eq!(Decimal256::<19>::from_str(&c.to_string()), Ok(c));
        for mode in MODES {
            assert_eq!(Amount64::from_str_rounded(&a.to_string(), mode), Ok(a));
        }
    }
    let top = Amount256::max_value();
    assert_eq!(Amount256::from_str(&top.to_string()), Ok(top));
    let low = Amount256::min_value();
    assert_eq!(Amount256::from_str(&low.to_string()), Ok(low));
}

#[test]
fn signed_and_padded_text_comes_back_too() {
    let mut buf = [0u8; 64];
    for raw in RAWS {
        for precision in [None, Some(4), Some(5), Some(12)] {
            let s = str_i64(raw, 4, precision, AmountSign::Always, &mut buf).unwrap();
            assert_eq!(Amount64::from_str(s), Ok(Decimal(raw)));
        }
    }
    assert_eq!(
        str_i64(12_300, 4, Some(6), AmountSign::Always, &mut buf),
        Some("+1.230000")
    );
}

#[test]
fn text_outside_the_symmetric_range_is_not_read_back() {
    let s = Decimal::<4>(i64::MIN).to_string();
    assert_eq!(s, "-922337203685477.5808");
    assert_eq!(Amount64::from_str(&s), Err(AmountErrorKind::Overflow));
}

#[test]
fn trailing_zeros_change_nothing() {
    for mode in MODES {
        for text in ["1.23455", "-1.23465", "0.5", "7.", ".25", "12.3400"] {
            let longer = text.to_string() + "0";
            assert_eq!(
                parse_decimal_i64_rounded(text, 4, mode),
                parse_decimal_i64_rounded(&longer, 4, mode),
                "{text}"
            );
        }
    }
}

#[test]
fn parts_come_back_and_rounding_extends_them() {
    for raw in RAWS {
        let a = Decimal::<4>(raw);
        let (m, e) = a.to_decimal_parts();
        assert_eq!(Amount64::from_decimal_parts(m, e), Ok(a));
        let b = Decimal128::<4>(raw as i128);
        let (m, e) = b.to_decimal_parts();
        assert_eq!(Amount128::from_decimal_parts(m, e), Ok(b));
    }
    for mode in MODES {
        for (m, e) in [(12_300, -5), (7, 3), (-50_000_000, -10), (0, -999)] {
            assert_eq!(
                Amount64::from_decimal_parts_rounded(m, e, mode),
                Amount64::from_decimal_parts(m, e)
            );
        }
        assert_ne!(
            Amount64::from_decimal_parts_rounded(12_345, -7, mode),
            Err(AmountErrorKind::Inexact)
        );
    }
    assert_eq!(
        Amount64::from_decimal_parts(12_345, -7),
        Err(AmountErrorKind::Inexact)
    );
}

#[test]
fn text_and_parts_give_the_same_value() {
    for mode in MODES {
        assert_eq!(
            Amount64::from_str_rounded("-12.34565", mode),
            Amount64::from_decimal_parts_rounded(-1_234_565, -5, mode)
        );
        assert_eq!(
            Amount128::from_str_rounded("0.00005", mode),
            Amount128::from_decimal_parts_rounded(5, -5, mode)
        );
    }
}

#[test]
fn whole_and_fraction_add_up() {
    for raw in RAWS {
        let a = Decimal::<4>(raw);
        assert_eq!(a.trunc() + a.fract(), a);
        let b = Decimal128::<4>(raw as i128);
        assert_eq!(b.trunc() + b.fract(), b);
        let c = Decimal256::<4>(I256::from_i128(raw as i128));
        assert_eq!(c.trunc() + c.fract(), c);
        assert!(a.fract().abs() < 1i64);
    }
}

#[test]
fn floor_and_ceiling_enclose() {
    for raw in [0i64, 1, -1, 4999, 5000, -5000, -5001, 10_000, 12_345, -98_765] {
        let a = Decimal::<4>(raw);
        assert!(a.floor() <= a && a <= a.ceil());
        assert_eq!(a.floor(), a.round_to(Rounding::Down));
        assert_eq!(a.ceil(), a.round_to(Rounding::Up));
        assert_eq!(a.round(), a.round_to(Rounding::HalfUp));
        for mode in MODES {
            let r = a.round_to(mode);
            assert!(r == a.floor() || r == a.ceil());
            // rounding twice is rounding once
            assert_eq!(r.round_to(mode), r);
            assert_eq!(r.fract(), Amount64::zero());
        }
    }
}

#[test]
fn half_modes_are_nearest_and_break_ties_as_named() {
    let tie = Decimal::<4>(25_000); // 2.5
    assert_eq!(tie.round_to(Rounding::HalfEven), Amount64::from(2));
    assert_eq!(tie.round_to(Rounding::HalfUp), Amount64::from(3));
    assert_eq!(tie.round_to(Rounding::HalfDown), Amount64::from(2));
    assert_eq!((-tie).round_to(Rounding::HalfUp), Amount64::from(-3));
    assert_eq!((-tie).round_to(Rounding::HalfDown), Amount64::from(-2));
    let odd = Decimal::<4>(35_000); // 3.5
    assert_eq!(odd.round_to(Rounding::HalfEven), Amount64::from(4));
    let above = Decimal::<4>(25_001);
    for mode in [Rounding::HalfEven, Rounding::HalfUp, Rounding::HalfDown] {
        assert_eq!(above.round_to(mode), Amount64::from(3));
    }
}

#[test]
fn odd_divisors_leave_no_tie() {
    for n in [3i64, 7, -9, 11] {
        for raw in [1i64, 5, 31, -17, 12_345] {
            let a = Decimal::<4>(raw);
            let up = a.div_int_rounded(n, Rounding::HalfUp);
            assert_eq!(a.div_int_rounded(n, Rounding::HalfEven), up);
            assert_eq!(a.div_int_rounded(n, Rounding::HalfDown), up);
        }
    }
}

#[test]
fn rounding_mirrors_at_zero() {
    for raw in [1i64, 4999, 5000, 5001, 15_000, 25_000, 99_999] {
        let a = Decimal::<4>(raw);
        for mode in [Rounding::HalfEven, Rounding::HalfUp, Rounding::HalfDown] {
            assert_eq!((-a).round_to(mode), -a.round_to(mode));
        }
        assert_eq!((-a).round_to(Rounding::Down), -a.round_to(Rounding::Up));
        assert_eq!((-a).round_to(Rounding::Up), -a.round_to(Rounding::Down));
    }
}

#[test]
fn rounding_keeps_the_order() {
    for mode in MODES {
        let mut last = Decimal::<1>(-40).round_to(mode);
        for raw in -39i64..40 {
            let r = Decimal::<1>(raw).round_to(mode);
            assert!(last <= r);
            last = r;
        }
    }
}

#[test]
fn products_and_quotients() {
    let a = Decimal::<4>(11_004);
    let b = Decimal::<4>(-10_015);
    for mode in MODES {
        assert_eq!(a.mul_rounded(b, mode), b.mul_rounded(a, mode));
        assert_eq!(a.mul_rounded(Amount64::one(), mode), a);
        assert_eq!(a.div_rounded(Amount64::one(), mode), a);
        assert_eq!(a.mul_rounded(Amount64::zero(), mode), Amount64::zero());
        assert_eq!(b.div_rounded(b, mode), Amount64::one());
    }
    assert_eq!((-a) * b, -(a * b));
    assert_eq!(
        (-a).mul_rounded(b, Rounding::Down),
        -a.mul_rounded(b, Rounding::Up)
    );
}

#[test]
fn integer_division_is_decimal_division() {
    for mode in MODES {
        for n in [1i64, -1, 2, 3, -7, 10_000] {
            for raw in [0i64, 1, -1, 12_345, -98_765] {
                let a = Decimal::<4>(raw);
                assert_eq!(
                    a.div_int_rounded(n, mode),
                    a.div_rounded(Amount64::from(n), mode)
                );
                let w = Decimal256::<4>(I256::from_i128(raw as i128));
                assert_eq!(
                    w.div_int_rounded(n, mode),
                    w.div_rounded(Amount256::from(n), mode)
                );
            }
        }
    }
}

#[test]
fn remainders_complete_the_quotient() {
    for (a, b) in [(25_000i64, 20_000i64), (-25_000, 20_000), (25_000, -7), (-1, 3), (0, 5)] {
        let r = (Decimal::<4>(a) % Decimal::<4>(b)).0;
        assert_eq!(a / b * b + r, a);
        assert!(r.abs() < b.abs());
        assert!(r == 0 || (r < 0) == (a < 0));
    }
}

#[test]
fn small_powers() {
    for raw in [0i64, 1, 10_000, 15_000, -12_345] {
        let a = Decimal::<4>(raw);
        assert_eq!(a.powi(0), Amount64::one());
        assert_eq!(a.powi(1), a);
        assert_eq!(a.powi(2), a * a);
    }
    assert_eq!(Amount64::from(2).powi(10), Amount64::from(1024));
}

#[test]
fn wider_backings_agree_on_checked_results() {
    for (a, b) in [(11_004i64, 10_015i64), (i64::MAX, 10_000), (i64::MAX, 20_000), (-7, 3)] {
        let n = Decimal::<4>(a).checked_mul(Decimal(b));
        let w = Decimal128::<4>(a as i128).checked_mul(Decimal128(b as i128));
        let x = Decimal256::<4>(I256::from_i128(a as i128))
            .checked_mul(Decimal256(I256::from_i128(b as i128)));
        if let Some(n) = n {
            assert_eq!(w, Some(Decimal128(n.0 as i128)));
        }
        assert_eq!(x, w.map(|v| Decimal256(I256::from_i128(v.0))));
    }
    for text in ["1.23455", "-922337203685477.5807", "0.00004"] {
        let n = Amount64::from_str(text).unwrap();
        assert_eq!(Amount128::from_str(text), Ok(Decimal128(n.0 as i128)));
        assert_eq!(
            Amount256::from_str(text),
            Ok(Decimal256(I256::from_i128(n.0 as i128)))
        );
    }
}

#[test]
fn bytes_come_back_in_every_order() {
    for raw in RAWS {
        let a = Decimal::<4>(raw);
        assert_eq!(Amount64::from_le_bytes(a.to_le_bytes()), a);
        assert_eq!(Amount64::from_be_bytes(a.to_be_bytes()), a);
        assert_eq!(Amount64::from_ne_bytes(a.to_ne_bytes()), a);
        assert_eq!(Amount64::from_bits(a.to_bits()), a);
        assert_eq!(a.swap_bytes().swap_bytes(), a);
        let mut back = a.to_le_bytes();
        back.reverse();
        assert_eq!(back, a.to_be_bytes());
        let b = Decimal128::<4>(raw as i128 * 1_000_003);
        assert_eq!(Amount128::from_le_bytes(b.to_le_bytes()), b);
        assert_eq!(Amount128::from_be_bytes(b.to_be_bytes()), b);
        assert_eq!(b.to_le_bytes(), b.0.to_le_bytes());
        assert_eq!(b.to_be_bytes(), b.0.to_be_bytes());
    }
    let a = Amount64::from_bits(0x1234567890123456u64);
    assert_eq!(a.swap_bytes().to_bits(), 0x5634129078563412);
    assert_eq!(a.to_be_bytes(), [0x12, 0x34, 0x56, 0x78, 0x90, 0x12, 0x34, 0x56]);
    assert_eq!(a.to_le_bytes(), [0x56, 0x34, 0x12, 0x90, 0x78, 0x56, 0x34, 0x12]);
    assert_eq!(a.to_ne_bytes(), 0x1234567890123456u64.to_ne_bytes());
    assert_eq!(
        Amount64::from_ne_bytes(0x1234567890123456u64.to_ne_bytes()),
        a
    );
}

#[test]
fn cross_scale_products_round_once() {
    // 19.99 at a rate of 0.07512345
    let price = Decimal::<4>(199_900);
    let rate: Rate64 = Decimal(7_512_345);
    assert_eq!(price.mul_rounded(rate, Rounding::HalfUp), Decimal(15_017));
    assert_eq!(price.mul_rounded(rate, Rounding::Up), Decimal(15_018));
    // a proportion as a rate
    let part: Rate64 = Decimal::<4>(10_000).div_rounded_to::<8>(Decimal(30_000), Rounding::HalfUp);
    assert_eq!(part, Decimal(33_333_333));
}

#[test]
fn text_is_digits_with_at_most_one_point() {
    for good in ["0", "7.", ".5", "00012.50", "-.25", "+3"] {
        assert!(Amount64::from_str(good).is_ok(), "{good}");
    }
    for bad in ["", ".", "-", "+.", "1.2.3", "1 2", "1,5", "--1", "1e3"] {
        assert!(Amount64::from_str(bad).is_err(), "{bad}");
    }
}

#[test]
fn zero_has_every_exponent() {
    for e in [i32::MIN, -20, -4, 0, 4, 20, i32::MAX] {
        assert_eq!(Amount64::from_decimal_parts(0, e), Ok(Decimal(0)));
        assert_eq!(Amount128::from_decimal_parts(0, e), Ok(Decimal128(0)));
        for mode in MODES {
            assert_eq!(Amount64::from_decimal_parts_rounded(0, e, mode), Ok(Decimal(0)));
        }
    }
}

#[test]
fn integer_division_shrinks() {
    for mode in MODES {
        for raw in RAWS {
            for n in [1i64, -1, 2, 3, -10_000, i64::MAX] {
                let q = Decimal::<4>(raw).div_int_rounded(n, mode);
                assert!(q.0.unsigned_abs() <= raw.unsigned_abs());
            }
        }
    }
}
