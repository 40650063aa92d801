//! Edge cases of the single operations.

use core::str::FromStr;
use fin_decimal::arith::{dec_div, dec_mul};
use fin_decimal::limbs::{div_rem_u128_pow10, order_words, shl1, sig_limbs, Order};
use fin_decimal::pow10::{ipow10_i128, scale_word};
use fin_decimal::render::str_mag;
use fin_decimal::rounding::{order_twice_rem_u64, round_up_by_order};
use fin_decimal::word_div::{div_2by1_recip, pow10_norm, udiv_qrnnd};
use fin_decimal::{
    parse_decimal_i64, parse_decimal_i64_rounded, str_i64, Amount128, Amount256, Amount64,
    AmountErrorKind, AmountSign, Decimal, Decimal128, Decimal256, Rounding, I256,
};

#[test]
fn every_error_has_an_input() {
    assert_eq!(parse_decimal_i64("", 4), Err(AmountErrorKind::Empty));
    assert_eq!(parse_decimal_i64("+.", 4), Err(AmountErrorKind::Empty));
    assert_eq!(parse_decimal_i64("1,5", 4), Err(AmountErrorKind::InvalidDigit));
    assert_eq!(parse_decimal_i64(" 1", 4), Err(AmountErrorKind::InvalidDigit));
    assert_eq!(parse_decimal_i64("1\u{660}", 4), Err(AmountErrorKind::InvalidDigit));
    assert_eq!(
        parse_decimal_i64("922337203685477.58075", 4),
        Err(AmountErrorKind::Overflow)
    );
    assert_eq!(
        Amount64::from_decimal_parts(1, -5),
        Err(AmountErrorKind::Inexact)
    );
    assert_eq!(Amount64::from_i64(922_337_203_685_478), Err(AmountErrorKind::Overflow));
    assert_eq!(Amount64::from_i64(-922_337_203_685_478), Err(AmountErrorKind::Overflow));
    assert_eq!(
        Amount64::from_i64(922_337_203_685_477),
        Ok(Decimal(9_223_372_036_854_770_000))
    );
}

#[test]
fn errors_describe_themselves() {
    assert_eq!(
        AmountErrorKind::Empty.__description(),
        "cannot parse integer from empty string"
    );
    assert_eq!(
        AmountErrorKind::InvalidDigit.__description(),
        "invalid symbol found in string"
    );
    assert_eq!(
        AmountErrorKind::Overflow.__description(),
        "number too large to fit in target type"
    );
    assert_eq!(
        AmountErrorKind::Inexact.__description(),
        "value cannot be represented exactly at the target scale"
    );
    assert_eq!(AmountErrorKind::Overflow.kind(), &AmountErrorKind::Overflow);
}

#[test]
fn constants() {
    assert_eq!(Amount64::scale_int(), 10_000);
    assert_eq!(Amount64::scale_int_half(), 5_000);
    assert_eq!(Amount64::scale_int_100(), 100);
    assert_eq!(Amount64::int_max(), 922_337_203_685_477);
    assert_eq!(Amount64::int_min(), -922_337_203_685_477);
    assert_eq!(Amount64::min_value(), -Amount64::max_value());
    assert_eq!(Amount128::min_value(), -Amount128::max_value());
    assert_eq!(Amount256::min_value(), -Amount256::max_value());
    assert_eq!(Amount128::scale_int(), 10_000);
    assert_eq!(Amount128::scale_int_half(), 5_000);
    assert_eq!(Amount128::int_max(), i128::MAX / 10_000);
    assert_eq!(Amount128::int_min(), -(i128::MAX / 10_000));
    assert_eq!(Amount128::scale(), 4);
    assert_eq!(Amount256::scale(), 4);
    assert_eq!(Amount256::scale_int(), 10_000);
    assert_eq!(Amount256::scale_int_half(), 5_000);
    assert_eq!(Decimal256::<19>::one().to_i128(), 1);
    assert_eq!(Amount64::default(), Amount64::new());
    assert_eq!(Amount128::default(), Amount128::new());
    assert_eq!(Amount256::default(), Amount256::new());
    assert_eq!(I256::default(), I256::zero());
    assert_eq!(scale_word(19), 10_000_000_000_000_000_000);
    assert_eq!(scale_word(20), 0);
    assert_eq!(ipow10_i128(38), Some(10i128.pow(38)));
    assert_eq!(ipow10_i128(39), None);
    assert_eq!(ipow10_i128(-1), None);
}

#[test]
fn whole_numbers_without_a_fraction_stay() {
    assert_eq!(Decimal::<0>(7).round(), Decimal::<0>(7));
    assert_eq!(Decimal::<0>(-7).round(), Decimal::<0>(-7));
    assert_eq!(Decimal::<2>(123).round100(), Decimal::<2>(123));
    assert_eq!(Decimal128::<0>(7).round(), Decimal128::<0>(7));
    assert_eq!(Decimal::<0>(i64::MAX).ceil(), Decimal::<0>(i64::MAX));
    assert_eq!(Decimal::<4>(33_560).round100(), Decimal(33_600));
    assert_eq!(Decimal::<4>(33_540).round100(), Decimal(33_500));
}

#[test]
fn conversions_from_integers() {
    assert_eq!(Amount64::from(3i32).0, 30_000);
    assert_eq!(Amount64::from(-3i64).0, -30_000);
    assert_eq!(Amount64::from(i64::MAX).0, i64::MAX.wrapping_mul(10_000));
    assert_eq!(Amount128::from(3i32).0, 30_000);
    assert_eq!(Amount128::from(i64::MIN).0, i64::MIN as i128 * 10_000);
    assert_eq!(Amount128::from(i128::MAX), Amount128::max_value());
    assert_eq!(Amount128::from(i128::MIN), Amount128::min_value());
    assert_eq!(Amount128::from(-5i128).0, -50_000);
    assert_eq!(
        Amount128::from_i128(i128::MAX / 10_000 + 1),
        Err(AmountErrorKind::Overflow)
    );
    assert_eq!(Amount128::from_i64(-2), Ok(Decimal128(-20_000)));
    assert_eq!(Amount256::from_i64(-2).to_i128(), -2);
    assert_eq!(
        Amount256::from(i128::MIN).to_string(),
        "-170141183460469231731687303715884105728"
    );
    assert_eq!(Amount64::from_str("-12.99").unwrap().to_i64(), -12);
    assert_eq!(Amount128::from_str("-12.99").unwrap().to_i128(), -12);
    assert_eq!(Amount64::from(7).mantissa(), 70_000);
    assert_eq!(Amount128::from(7).mantissa(), 70_000);
}

#[test]
fn operators_with_integers() {
    let a = Decimal::<4>(15_000);
    assert_eq!(a + 2i64, Decimal(35_000));
    assert_eq!(a - 2i32, Decimal(-5_000));
    assert_eq!(a * 3i64, Decimal(45_000));
    assert_eq!(a * -3i32, Decimal(-45_000));
    // an integer on the left takes the decimal as the nearest integer
    assert_eq!(10i64 + a, 12);
    assert_eq!(10i64 - a, 8);
    assert_eq!(10i64 + Decimal::<4>(-15_000), 8);
    assert_eq!(10i64 + Decimal::<4>(14_999), 11);
    // without fractional digits it takes the next one
    assert_eq!(5i64 + Decimal::<0>(3), 9);
    assert_eq!(5i64 - Decimal::<0>(3), 1);
    assert_eq!(5i64 + Decimal::<0>(-3), 3);
    assert_eq!(20_000i64 * a, 30_000);
    assert!(a > 1i64 && a < 2i64 && a != 1i64);
    assert!(1i64 < a && 2i64 > a && 2i64 != a);
    assert!(Decimal::<4>(i64::MAX) < i64::MAX);
    assert!(i64::MIN < Decimal::<4>(i64::MIN));
    assert!(Amount64::from(3) == 3i64 && 3i64 == Amount64::from(3));
    let b = Decimal128::<4>(15_000);
    assert_eq!(b + 2i64, Decimal128(35_000));
    assert_eq!(b - 2i32, Decimal128(-5_000));
    assert_eq!(b * 3i64, Decimal128(45_000));
    assert_eq!(b * -3i32, Decimal128(-45_000));
    assert!(b < 2i64 && b > i64::MIN);
    let c = Amount256::from_str("1.5").unwrap();
    assert_eq!(c + 2i32, Amount256::from_str("3.5").unwrap());
    assert_eq!(c - 2i32, Amount256::from_str("-0.5").unwrap());
    assert!(c < 2i64 && c > i64::MIN);
}

#[test]
fn assigning_operators_and_folds() {
    let mut a = Amount64::from(10);
    a += Amount64::from(5);
    a -= Amount64::from(1);
    a *= Amount64::from(3);
    a /= Amount64::from(4);
    assert_eq!(a, Decimal(105_000));
    a %= Amount64::from(4);
    assert_eq!(a, Decimal(25_000));
    let mut b = Amount128::from(10);
    b += Amount128::from(5);
    b -= Amount128::from(1);
    b *= Amount128::from(3);
    b /= Amount128::from(4);
    b %= Amount128::from(4);
    assert_eq!(b, Decimal128(25_000));
    let mut c = Amount256::from(10);
    c += Amount256::from(5);
    c -= Amount256::from(1);
    c *= Amount256::from(3);
    c /= Amount256::from(4);
    c %= Amount256::from(4);
    assert_eq!(c, Amount256::from_str("2.5").unwrap());
    let items = [Amount64::from(1), Amount64::from(2), Amount64::from(4)];
    assert_eq!(items.iter().sum::<Amount64>(), Amount64::from(7));
    assert_eq!(items.iter().product::<Amount64>(), Amount64::from(8));
    assert_eq!(items.into_iter().sum::<Amount64>(), Amount64::from(7));
    assert_eq!(items.into_iter().product::<Amount64>(), Amount64::from(8));
    assert_eq!(Vec::<Amount64>::new().into_iter().sum::<Amount64>(), Amount64::zero());
    assert_eq!(Vec::<Amount64>::new().into_iter().product::<Amount64>(), Amount64::one());
    let wide = [Amount256::from(2), Amount256::from(3)];
    assert_eq!(wide.iter().sum::<Amount256>(), Amount256::from(5));
    assert_eq!(wide.iter().product::<Amount256>(), Amount256::from(6));
}

#[test]
fn signs_and_bounds() {
    assert_eq!(Amount64::from(-3).abs(), Amount64::from(3));
    assert_eq!(Amount64::from(-3).signum(), Amount64::minus_one());
    assert!(Amount64::from(-3).is_negative() && !Amount64::from(-3).is_positive());
    let (lo, hi) = (Amount64::minus_one(), Amount64::one());
    assert_eq!(Amount64::from(2).clamp(lo, hi), hi);
    assert_eq!(Amount64::from(-2).clamp(lo, hi), lo);
    assert_eq!(Amount64::zero().clamp(lo, hi), Amount64::zero());
    assert_eq!(lo.min(hi), lo);
    assert_eq!(lo.max(hi), hi);
    let (lo, hi) = (Amount256::minus_one(), Amount256::one());
    assert_eq!(Amount256::from(-2).clamp(lo, hi), lo);
    assert_eq!(lo.min(hi), lo);
    assert_eq!(lo.max(hi), hi);
    let (lo, hi) = (Amount128::minus_one(), Amount128::one());
    assert_eq!(lo.min(hi), lo);
    assert_eq!(lo.max(hi), hi);
    // the backing minimum outside the symmetric range
    let bottom = I256::min_value().checked_sub(I256::from_i128(1)).unwrap();
    assert_eq!(bottom.wrapping_neg(), bottom);
    assert_eq!(Amount256::from_bits(bottom).abs(), Amount256::from_bits(bottom));
    assert_eq!(-Amount256::from_bits(bottom), Amount256::from_bits(bottom));
    assert_eq!(Amount256::from_bits(bottom).to_bits(), bottom);
}

#[test]
fn division_by_minus_one_at_the_bottom() {
    assert_eq!(
        Decimal128::<4>(i128::MIN).div_int_rounded(-1, Rounding::HalfUp),
        Decimal128(i128::MIN)
    );
    assert_eq!(
        Decimal128::<4>(i128::MIN).div_int_rounded(1, Rounding::HalfUp),
        Decimal128(i128::MIN)
    );
    assert_eq!(
        Decimal128::<4>(-7).div_int_rounded(2, Rounding::HalfEven),
        Decimal128(-4)
    );
    assert_eq!(
        Decimal::<4>(i64::MIN).div_int_rounded(i64::MIN, Rounding::Up),
        Decimal(1)
    );
}

#[test]
fn checked_results_leave_out_the_asymmetric_value() {
    // one below the symmetric range
    assert_eq!(Amount64::min_value().checked_sub(Decimal(1)), Some(Decimal(i64::MIN)));
    assert_eq!(Decimal::<4>(i64::MIN).checked_sub(Decimal(1)), None);
    assert_eq!(Decimal::<0>(i64::MIN).checked_mul(Decimal(1)), None);
    assert_eq!(Decimal::<0>(i64::MIN).checked_div(Decimal(1)), None);
    assert_eq!(Amount64::max_value().checked_add(Decimal(1)), None);
    assert_eq!(
        Amount64::from(3).checked_mul(Amount64::from(4)),
        Some(Amount64::from(12))
    );
    assert_eq!(Amount128::min_value().checked_sub(Decimal128(2)), None);
}

#[test]
fn wide_scales_multiply_and_divide() {
    let one = Decimal::<19>(9_000_000_000_000_000_000);
    // 0.9 * 0.9 at 19 digits
    assert_eq!(one * one, Decimal::<19>(8_100_000_000_000_000_000));
    assert_eq!(one.checked_div(one), None);
    let a = Decimal256::<19>::from(3);
    assert_eq!(
        (Decimal256::<19>::from(1) / a).to_string(),
        "0.3333333333333333333"
    );
    assert_eq!(a.recip().to_string(), "0.3333333333333333333");
    assert_eq!(Decimal128::<19>::from(4).recip().to_string(), "0.25");
    assert_eq!(Amount64::from(4).recip(), Decimal(2_500));
}

#[test]
fn parse_rounds_on_the_magnitude() {
    for (text, down, up, even) in [
        ("1.00005", 10_000, 10_001, 10_000),
        ("-1.00005", -10_000, -10_001, -10_000),
        ("1.00015", 10_001, 10_002, 10_002),
        ("0.00001", 0, 1, 0),
    ] {
        assert_eq!(parse_decimal_i64_rounded(text, 4, Rounding::Down), Ok(down));
        assert_eq!(parse_decimal_i64_rounded(text, 4, Rounding::Up), Ok(up));
        assert_eq!(parse_decimal_i64_rounded(text, 4, Rounding::HalfEven), Ok(even));
    }
    assert_eq!(parse_decimal_i64("0.9", 19), Ok(9_000_000_000_000_000_000));
    assert_eq!(parse_decimal_i64("0.99", 19), Err(AmountErrorKind::Overflow));
    assert_eq!(parse_decimal_i64("0.5", 0), Ok(1));
    assert_eq!(parse_decimal_i64("0.4999", 0), Ok(0));
}

#[test]
fn text_at_a_precision() {
    let mut buf = [0u8; 40];
    let mut s = |v: i64, p: usize| {
        str_i64(v, 4, Some(p), AmountSign::Negative, &mut buf).map(|t| t.to_string())
    };
    assert_eq!(s(9_999, 0).as_deref(), Some("1"));
    assert_eq!(s(4_999, 0).as_deref(), Some("0"));
    assert_eq!(s(-1, 2).as_deref(), Some("-0.00"));
    assert_eq!(s(99_995, 3).as_deref(), Some("10.000"));
    assert_eq!(s(0, 3).as_deref(), Some("0.000"));
    assert_eq!(s(12_345, 38).as_deref(), Some("1.23450000000000000000000000000000000000"));
    assert_eq!(s(12_345, 39), None);
    assert_eq!(s(12_345, usize::MAX), None);
    // rounding off all nineteen digits, where twice the dropped part needs
    // more than a word
    let mut out = [0u8; 40];
    assert_eq!(
        str_mag(&[9_300_000_000_000_000_000], false, 19, Some(0), AmountSign::NoSign, &mut out),
        Some("1")
    );
    assert_eq!(
        str_mag(&[4_999_999_999_999_999_999], false, 19, Some(0), AmountSign::NoSign, &mut out),
        Some("0")
    );
}

#[test]
fn text_stands_at_the_right_end_of_the_buffer() {
    let mut buf = [b'#'; 8];
    assert_eq!(str_i64(-15_000, 4, None, AmountSign::Negative, &mut buf), Some("-1.5"));
    assert_eq!(&buf, b"####-1.5");
    // a precision that cannot fit leaves the buffer alone
    assert_eq!(str_i64(1, 4, Some(8), AmountSign::Negative, &mut buf), None);
    assert_eq!(&buf, b"####-1.5");
    // any other text that does not fit leaves its right end
    assert_eq!(str_i64(i64::MAX, 4, None, AmountSign::Negative, &mut buf), None);
    assert_eq!(&buf, b"477.5807");
    let mut none: [u8; 0] = [];
    assert_eq!(str_i64(0, 4, None, AmountSign::NoSign, &mut none), None);
}

#[test]
fn a_short_and_a_long_buffer_hold_the_same_text() {
    for frac in [0usize, 1, 4, 18, 19] {
        for raw in [0i64, 1, -1, 10, -100, 123_456_789, 1_000_000_000_000_000_000, i64::MAX, i64::MIN] {
            for sign in [AmountSign::NoSign, AmountSign::Negative, AmountSign::Always] {
                let mut short = [b'#'; 23];
                let mut long = [b'#'; 24];
                let s = str_i64(raw, frac, None, sign, &mut short).unwrap();
                let l = str_i64(raw, frac, None, sign, &mut long).unwrap();
                assert_eq!(s, l);
                let n = l.len();
                assert!(long[..24 - n].iter().all(|b| *b == b'#'));
            }
        }
    }
    let mut buf = [b'#'; 24];
    assert_eq!(
        str_i64(i64::MIN, 19, None, AmountSign::Always, &mut buf),
        Some("-0.9223372036854775808")
    );
    assert_eq!(&buf, b"##-0.9223372036854775808");
}

#[test]
fn long_precision_shows_the_marker() {
    assert_eq!(Amount64::from(1).to_unsigned_string(Some(126)).len(), 128);
    assert_eq!(Amount64::from(1).to_unsigned_string(Some(127)), "Amount::ERROR");
    assert_eq!(Amount64::from(-1).to_unsigned_string(Some(1)), "1.0");
    assert_eq!(Amount64::from(-1).to_unsigned_string(None), "1");
}

#[test]
fn backing_integer_text() {
    assert_eq!(
        I256::max_value().to_string(),
        "57896044618658097711785492504343953926634992332820282019728792003956564819967"
    );
    assert_eq!(I256::zero().to_string(), "0");
    assert_eq!(I256::from_i128(i128::MIN).to_string(), i128::MIN.to_string());
    assert_eq!(format!("{:?}", I256::zero()), "0");
    assert_eq!(
        format!("{:?}", I256::max_value()),
        I256::max_value().to_string()
    );
    let d = Decimal256::<4>(I256::from_i128(-12_345));
    assert_eq!(format!("{d:?}"), "Decimal256(-12345)");
}

#[test]
fn reciprocals_of_powers_of_ten() {
    for digits in 0u32..=19 {
        let (dn, s, v) = pow10_norm(digits);
        assert_eq!(dn, 10u64.pow(digits) << s);
        assert_eq!(s, 10u64.pow(digits).leading_zeros());
        assert_eq!(v as u128 + (1u128 << 64), u128::MAX / dn as u128);
    }
}

#[test]
fn word_arithmetic() {
    assert_eq!(order_twice_rem_u64(5, 10), Order::Equal);
    assert_eq!(order_twice_rem_u64(4, 10), Order::Less);
    assert_eq!(order_twice_rem_u64(u64::MAX - 1, u64::MAX), Order::Greater);
    assert!(round_up_by_order(Order::Equal, false, true, false, Rounding::HalfEven));
    assert!(!round_up_by_order(Order::Equal, false, false, false, Rounding::HalfEven));
    assert!(round_up_by_order(Order::Less, false, false, true, Rounding::Down));
    assert!(!round_up_by_order(Order::Greater, true, true, true, Rounding::Up));
    assert_eq!(sig_limbs(&[0, 0, 0]), 1);
    assert_eq!(sig_limbs(&[1, 2, 0]), 2);
    assert_eq!(order_words(&[9, 1], &[0, 2]), Order::Less);
    let mut l = [1u64 << 63, 1];
    assert_eq!(shl1(&mut l), 0);
    assert_eq!(l, [0, 3]);
    let mut l = [0, 1u64 << 63];
    assert_eq!(shl1(&mut l), 1);
    assert_eq!(l, [0, 0]);
    let n = u128::MAX / 3;
    assert_eq!(
        div_rem_u128_pow10::<7>(n),
        (n / 10_000_000, (n % 10_000_000) as u64)
    );
    let (dn, s, v) = pow10_norm(4);
    assert_eq!(dn, 10_000u64 << s);
    assert_eq!(v as u128, u128::MAX / dn as u128 - (1u128 << 64));
    let top = 1u64 << 63;
    assert_eq!(udiv_qrnnd(top - 1, 7, top), (u64::MAX - 1, 7));
    let recip = (u128::MAX / top as u128 - (1u128 << 64)) as u64;
    assert_eq!(div_2by1_recip(top - 1, 7, top, recip), (u64::MAX - 1, 7));
}

#[test]
fn decimal_cores() {
    assert_eq!(
        dec_mul::<4, 1, 2>(true, &[15_000], false, &[15_000], Rounding::HalfUp),
        Some((true, [22_500]))
    );
    assert_eq!(
        dec_mul::<0, 1, 2>(false, &[1 << 32], false, &[1 << 31], Rounding::HalfUp),
        None
    );
    // single-limb operands whose product needs the wide core
    assert_eq!(
        dec_mul::<0, 4, 8>(
            false,
            &[u64::MAX, 0, 0, 0],
            false,
            &[u64::MAX, 0, 0, 0],
            Rounding::HalfUp
        ),
        Some((false, [1, u64::MAX - 1, 0, 0]))
    );
    assert_eq!(
        dec_div::<4, 2, 3>(false, &[1, 0], true, &[0, 1], Rounding::Down),
        Some((true, [1, 0]))
    );
    assert_eq!(
        dec_div::<4, 2, 3>(false, &[1, 0], true, &[0, 0], Rounding::Down),
        None
    );
    // two-limb operands whose quotient needs the wide core
    assert_eq!(
        dec_div::<19, 4, 5>(false, &[0, 1 << 62, 0, 0], false, &[1, 0, 0, 0], Rounding::Down)
            .map(|(n, m)| (n, m[0], m[3])),
        Some((false, 0, 0))
    );
}
