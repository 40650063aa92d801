//! The limb arithmetic, the parser and the formatter.

use fin_decimal::knuth::div_knuth;
use fin_decimal::limbs::{
    cmp_words, div_words_by_pow10, div_words_by_word, is_zero, mul_add_word, mul_words,
};
use fin_decimal::parse::parse_decimal_mag_rounded;
use fin_decimal::pow10::upow10;
use fin_decimal::render::str_mag;
use fin_decimal::word_div::div_2by1;
use fin_decimal::{AmountErrorKind, AmountSign, Rounding};
use std::cmp::Ordering;

/// 10^19, the largest power of ten that fits in a u64.
const POW10_19: u64 = 10_000_000_000_000_000_000;

/// xorshift64* pseudo-random generator for deterministic tests.
struct Rng(u64);
impl Rng {
    fn next(&mut self) -> u64 {
        let mut x = self.0;
        x ^= x >> 12;
        x ^= x << 25;
        x ^= x >> 27;
        self.0 = x;
        x.wrapping_mul(0x2545F4914F6CDD1D)
    }
}

#[test]
fn test_div_2by1() {
    // Edge and random cases, checked against native u128 division.
    let mut rng = Rng(0x12345678DEADBEEF);
    let check = |hi: u64, lo: u64, d: u64| {
        let n = ((hi as u128) << 64) | lo as u128;
        let (q, r) = div_2by1(hi, lo, d);
        assert_eq!(q as u128, n / d as u128, "q for {n} / {d}");
        assert_eq!(r as u128, n % d as u128, "r for {n} / {d}");
    };
    check(0, 0, 1);
    check(0, u64::MAX, 1);
    check(0, u64::MAX, u64::MAX);
    check(u64::MAX - 1, u64::MAX, u64::MAX);
    check(1, 0, 2);
    check(1, 1, 2);
    check(0x7FFF_FFFF_FFFF_FFFF, u64::MAX, 1 << 63);
    check(POW10_19 - 1, u64::MAX, POW10_19);
    for _ in 0..20000 {
        let d = rng.next() | 1;
        let hi = rng.next() % d;
        let lo = rng.next();
        check(hi, lo, d);
        // small divisors too
        let ds = (rng.next() % 1000) + 1;
        check(rng.next() % ds, rng.next(), ds);
    }
}

#[test]
fn test_div_words_by_pow10() {
    // Cross-check the constant-divisor path against the generic word
    // division for several scales, sizes and magnitude shapes.
    fn check<const DIGITS: u8>(rng: &mut Rng) {
        let d = upow10(DIGITS as u32);
        for shape in 0..4 {
            // 1, 2, 3 or 4 significant limbs
            let mut u = [0u64; 4];
            for x in u.iter_mut().take(shape + 1) {
                *x = rng.next();
            }
            let mut a = u;
            let ra = div_words_by_word(&mut a, d);
            let mut b = u;
            let rb = div_words_by_pow10::<DIGITS>(&mut b);
            assert_eq!((a, ra), (b, rb), "DIGITS={DIGITS} u={u:?}");
            // Also with an 8-limb buffer as used by dec256_mul.
            let mut w = [0u64; 8];
            w[..4].copy_from_slice(&u);
            let mut wa = w;
            let ra = div_words_by_word(&mut wa, d);
            let mut wb = w;
            let rb = div_words_by_pow10::<DIGITS>(&mut wb);
            assert_eq!((wa, ra), (wb, rb), "DIGITS={DIGITS} w={w:?}");
        }
    }
    let mut rng = Rng(0x9E3779B97F4A7C15);
    for _ in 0..2000 {
        check::<0>(&mut rng);
        check::<1>(&mut rng);
        check::<4>(&mut rng);
        check::<8>(&mut rng);
        check::<19>(&mut rng);
    }
    // Zero value stays zero on the fast path.
    let mut z = [0u64; 4];
    assert_eq!(div_words_by_pow10::<4>(&mut z), 0);
    assert_eq!(z, [0u64; 4]);
}

#[test]
fn test_div_words_by_word() {
    let mut u = [u64::MAX, u64::MAX, u64::MAX, u64::MAX];
    let rem = div_words_by_word(&mut u, 10);
    // (2^256 - 1) % 10 == 5
    assert_eq!(rem, 5);
    // Rebuild: q * 10 + 5 == 2^256 - 1.
    assert!(!mul_add_word(&mut u, 10, 5));
    assert_eq!(u, [u64::MAX; 4]);
}

#[test]
fn test_mul_words() {
    let mut c = [0u64; 4];
    mul_words(&mut c, &[u64::MAX, u64::MAX], &[u64::MAX, u64::MAX]);
    // (2^128 - 1)^2 = 2^256 - 2^129 + 1
    assert_eq!(c, [1, 0, u64::MAX - 1, u64::MAX]);

    let mut rng = Rng(0xC0FFEE);
    for _ in 0..5000 {
        let a = ((rng.next() as u128) << 64) | rng.next() as u128;
        let b = rng.next() as u128;
        let mut c = [0u64; 3];
        mul_words(&mut c, &[a as u64, (a >> 64) as u64], &[b as u64]);
        // Verify low 128 bits against native u128 multiplication.
        let lo = a.wrapping_mul(b);
        assert_eq!(c[0], lo as u64);
        assert_eq!(c[1], (lo >> 64) as u64);
    }
}

#[test]
fn test_div_knuth_reconstruct() {
    // Validate q*v + r == u and r < v over random shapes.
    let mut rng = Rng(0xFEEDFACE);
    for iter in 0..20000 {
        let n = 2 + (rng.next() as usize) % 3; // 2..=4 divisor limbs
        let m = n + (rng.next() as usize) % (5 - n) + 1; // n+1..=5
        let mut u = [0u64; 5];
        let mut v = [0u64; 4];
        for x in u.iter_mut().take(m) {
            *x = rng.next();
        }
        for x in v.iter_mut().take(n) {
            *x = rng.next();
        }
        if v[n - 1] == 0 {
            v[n - 1] = 1 + (rng.next() >> 32);
        }
        // Sometimes force interesting top-limb relationships.
        if iter % 7 == 0 {
            u[m - 1] = v[n - 1];
        }
        if iter % 11 == 0 {
            v[n - 1] = 1 << 63;
        }

        let mut q = [0u64; 4];
        let mut r = [0u64; 4];
        div_knuth(&mut q[..m - n + 1], &mut r[..n], &u[..m], &v[..n]);

        // r < v
        assert_eq!(cmp_words(&r[..n], &v[..n]), Ordering::Less);
        // q * v + r == u  (reconstruct in 9 limbs)
        let mut prod = [0u64; 9];
        mul_words(&mut prod[..m + 1], &q[..m - n + 1], &v[..n]);
        let mut carry: u128 = 0;
        for i in 0..9 {
            let add = if i < n { r[i] as u128 } else { 0 };
            let s = prod[i] as u128 + add + carry;
            prod[i] = s as u64;
            carry = s >> 64;
        }
        assert_eq!(&prod[..m], &u[..m], "reconstruction failed");
        assert!(is_zero(&prod[m..]));
    }
}

#[test]
fn test_div_knuth_exact_and_edges() {
    // 2^192 / 2^128 == 2^64
    let u = [0u64, 0, 0, 1];
    let v = [0u64, 0, 1];
    let mut q = [0u64; 2];
    let mut r = [0u64; 3];
    div_knuth(&mut q, &mut r, &u, &v);
    assert_eq!(q, [0, 1]);
    assert!(is_zero(&r));

    // Divisor with top bit set (s == 0 path).
    let u = [5u64, 7, 9];
    let v = [1u64, 1 << 63];
    let mut q = [0u64; 2];
    let mut r = [0u64; 2];
    div_knuth(&mut q, &mut r, &u, &v);
    let mut prod = [0u64; 4];
    mul_words(&mut prod, &q, &v);
    let mut carry: u128 = 0;
    for i in 0..4 {
        let add = if i < 2 { r[i] as u128 } else { 0 };
        let s = prod[i] as u128 + add + carry;
        prod[i] = s as u64;
        carry = s >> 64;
    }
    assert_eq!(&prod[..3], &u);
    assert_eq!(prod[3], 0);
}

#[test]
fn test_parse_mag() {
    assert_eq!(
        parse_decimal_mag_rounded::<4>("1.0001", 4, Rounding::HalfUp),
        Ok((false, [10001, 0, 0, 0]))
    );
    assert_eq!(
        parse_decimal_mag_rounded::<4>("-1.00005", 4, Rounding::HalfUp),
        Ok((true, [10001, 0, 0, 0]))
    );
    assert_eq!(
        parse_decimal_mag_rounded::<4>("1.00005", 4, Rounding::HalfEven),
        Ok((false, [10000, 0, 0, 0]))
    );
    assert_eq!(
        parse_decimal_mag_rounded::<4>("", 4, Rounding::HalfUp),
        Err(AmountErrorKind::Empty)
    );
    assert_eq!(
        parse_decimal_mag_rounded::<4>("1.2.3", 4, Rounding::HalfUp),
        Err(AmountErrorKind::InvalidDigit)
    );
    // A magnitude needing more than one limb:
    // 2^128 == 340282366920938463463374607431768211456
    let (neg, mag) =
        parse_decimal_mag_rounded::<4>("340282366920938463463374607431768211456", 0, Rounding::HalfUp)
            .unwrap();
    assert!(!neg);
    assert_eq!(mag, [0, 0, 1, 0]);
    // Too many digits for 256 bits.
    let huge = "9".repeat(80);
    assert_eq!(
        parse_decimal_mag_rounded::<4>(&huge, 0, Rounding::HalfUp),
        Err(AmountErrorKind::Overflow)
    );
}

#[test]
fn test_str_mag() {
    let mut buf = [0u8; 128];
    let m = |v: u64| [v, 0, 0, 0];
    assert_eq!(
        str_mag(&m(10000), false, 4, None, AmountSign::Negative, &mut buf),
        Some("1")
    );
    assert_eq!(
        str_mag(&m(10001), false, 4, None, AmountSign::Negative, &mut buf),
        Some("1.0001")
    );
    assert_eq!(
        str_mag(&m(10001), true, 4, None, AmountSign::Negative, &mut buf),
        Some("-1.0001")
    );
    assert_eq!(
        str_mag(&m(10050), false, 4, Some(2), AmountSign::Negative, &mut buf),
        Some("1.01")
    );
    assert_eq!(
        str_mag(&m(10000), false, 4, Some(5), AmountSign::Negative, &mut buf),
        Some("1.00000")
    );
    assert_eq!(
        str_mag(&m(10000), false, 4, None, AmountSign::Always, &mut buf),
        Some("+1")
    );
    assert_eq!(
        str_mag(&m(0), false, 4, None, AmountSign::Always, &mut buf),
        Some("0")
    );
    // 2^128 with scale 4: 34028236692093846346337460743176821.1456
    assert_eq!(
        str_mag(
            &[0, 0, 1, 0],
            false,
            4,
            None,
            AmountSign::Negative,
            &mut buf
        ),
        Some("34028236692093846346337460743176821.1456")
    );
    // 20-digit single-limb magnitude: the direct path, no chunk division.
    assert_eq!(
        str_mag(&m(u64::MAX), false, 4, None, AmountSign::Negative, &mut buf),
        Some("1844674407370955.1615")
    );
    // 2^64, the smallest two-limb magnitude: one 19-digit chunk plus a
    // single leading digit.
    assert_eq!(
        str_mag(
            &[0, 1, 0, 0],
            false,
            0,
            None,
            AmountSign::Negative,
            &mut buf
        ),
        Some("18446744073709551616")
    );
    // 10^20 = [7766279631452241920, 5]: the low chunk is all zeros, so
    // the chunk path must still emit its 19 positional zero digits.
    assert_eq!(
        str_mag(
            &[7766279631452241920, 5, 0, 0],
            false,
            0,
            None,
            AmountSign::Negative,
            &mut buf
        ),
        Some("100000000000000000000")
    );
    // Round-trip with the parser.
    let s = "-1234567890123456789012345678901234567890123456789012345.67891";
    let (neg, mag) = parse_decimal_mag_rounded::<4>(s, 5, Rounding::HalfUp).unwrap();
    assert_eq!(
        str_mag(&mag, neg, 5, None, AmountSign::Negative, &mut buf),
        Some(s)
    );
    // Buffers under the fast-path minimum fall back to the general path
    // with identical output, and still reject values that do not fit.
    let mut small = [0u8; 8];
    assert_eq!(
        str_mag(&m(10001), true, 4, None, AmountSign::Negative, &mut small),
        Some("-1.0001")
    );
    assert_eq!(
        str_mag(
            &m(u64::MAX),
            false,
            4,
            None,
            AmountSign::Negative,
            &mut small
        ),
        None
    );
}
