//! Division of a two-limb number by one limb.

use crate::pow10;
use crate::value;
use vstd::prelude::*;

verus! {

/// The radix of half a limb, 2^32.
#[verifier::inline]
pub open spec fn half_base() -> nat {
    0x1_0000_0000
}

proof fn lemma_half_split(x: u64)
    ensures
        x == (x >> 32) * half_base() + (x & 0xffff_ffff),
        (x >> 32) < half_base(),
        (x & 0xffff_ffff) < half_base(),
        x >= 0x8000_0000_0000_0000 ==> (x >> 32) >= 0x8000_0000,
{
    assert(x == (x >> 32) * 0x1_0000_0000 + (x & 0xffff_ffff) && (x >> 32) < 0x1_0000_0000 && (x
        & 0xffff_ffff) < 0x1_0000_0000 && (x >= 0x8000_0000_0000_0000u64 ==> (x >> 32)
        >= 0x8000_0000u64)) by (bit_vector);
}

proof fn lemma_half_join(hi: u64, lo: u64)
    requires
        hi < half_base(),
        lo < half_base(),
    ensures
        ((hi << 32) | lo) == hi * half_base() + lo,
{
    assert(((hi << 32) | lo) == hi * 0x1_0000_0000 + lo) by (bit_vector)
        requires
            hi < 0x1_0000_0000u64,
            lo < 0x1_0000_0000u64,
    ;
}

/// The arithmetic of one half-digit estimate: `q` is the quotient of `n1` by
/// the divisor's high half, `r` that division's remainder with the next half
/// digit appended, and `m` what the divisor's low half takes off again.
proof fn lemma_half_estimate(n1: int, n0: int, d: int, dh: int, dl: int, q: int, r0: int)
    requires
        0x8000_0000 <= dh < half_base(),
        0 <= dl < half_base(),
        d == dh * half_base() + dl,
        0 <= n1 < d,
        0 <= n0 < half_base(),
        q == n1 / dh,
        r0 == n1 - q * dh,
    ensures
        0 <= q <= half_base() + 1,
        0 <= r0 < dh,
        0 <= q * dl <= 0xffff_ffff_ffff_ffff,
        q * d + (r0 * half_base() + n0) - q * dl == n1 * half_base() + n0,
        r0 * half_base() + n0 < d,
        q == 1 ==> q * dl < d,
        q == 0 ==> q * dl == 0,
{
    assert(n1 == q * dh + n1 % dh && 0 <= n1 % dh < dh) by (nonlinear_arith)
        requires
            q == n1 / dh,
            dh > 0,
    ;
    assert(q >= 0) by (nonlinear_arith)
        requires
            q == n1 / dh,
            dh > 0,
            n1 >= 0,
    ;
    assert(q <= half_base() + 1) by (nonlinear_arith)
        requires
            q * dh <= n1,
            n1 < dh * half_base() + dl,
            dl < half_base(),
            dh >= 0x8000_0000,
    ;
    assert(q * dl <= (half_base() + 1) * (half_base() - 1)) by (nonlinear_arith)
        requires
            0 <= q <= half_base() + 1,
            0 <= dl <= half_base() - 1,
    ;
    assert(q * dl >= 0) by (nonlinear_arith)
        requires
            q >= 0,
            dl >= 0,
    ;
    assert(q * d == q * dh * half_base() + q * dl) by (nonlinear_arith)
        requires
            d == dh * half_base() + dl,
    ;
    assert(0 * dl == 0 && 1 * dl == dl);
}

/// Bounds the quotient of `n1 * 2^32 + n0` by `d`.
proof fn lemma_half_quotient_small(q: int, r: int, d: int, n1: int, n0: int)
    requires
        q * d + r == n1 * half_base() + n0,
        0 <= r < d,
        0 <= n1 < d,
        0 <= n0 < half_base(),
    ensures
        0 <= q < half_base(),
{
    assert(q < half_base()) by (nonlinear_arith)
        requires
            q * d + r == n1 * half_base() + n0,
            0 <= r,
            n1 <= d - 1,
            n0 < half_base(),
            d > 0,
    ;
    assert(q >= 0) by (nonlinear_arith)
        requires
            q * d + r >= 0,
            r < d,
            d > 0,
    ;
}

/// Divides `n1 * 2^32 + n0`, where `n0` is a half digit, by the normalized
/// divisor `d` (top bit set) with `n1 < d`.
fn udiv_half(n1: u64, n0: u64, d: u64) -> (res: (u64, u64))
    requires
        d >= 0x8000_0000_0000_0000,
        n1 < d,
        n0 < half_base(),
    ensures
        res.0 * d + res.1 == n1 * half_base() + n0,
        res.1 < d,
        res.0 < half_base(),
{
    let d_high: u64 = d >> 32;
    let d_low: u64 = d & 0xffff_ffff;
    proof {
        lemma_half_split(d);
    }
    let mut q: u64 = n1 / d_high;
    let ghost q0: int = q as int;
    let ghost r0: int = n1 - q0 * d_high;
    proof {
        lemma_half_estimate(
            n1 as int,
            n0 as int,
            d as int,
            d_high as int,
            d_low as int,
            q0,
            r0,
        );
    }
    let mut r: u64 = n1 - q * d_high;
    let m: u64 = q * d_low;
    proof {
        lemma_half_join(r, n0);
    }
    r = (r << 32) | n0;
    let ghost s: int = r as int;
    // Fine tune the estimate. `wrapping_add(d)` may overflow; when it does the
    // logical value of r exceeds any m, detected via `r >= d`.
    if r < m {
        q -= 1;
        r = r.wrapping_add(d);
        assert((q0 - 1) * d == q0 * d - d) by (nonlinear_arith);
        if r >= d && r < m {
            q -= 1;
            r = r.wrapping_add(d);
            assert((q0 - 2) * d == q0 * d - 2 * d) by (nonlinear_arith);
        }
    }
    r = r.wrapping_sub(m);
    proof {
        assert(q * d + r == n1 * half_base() + n0);
        lemma_half_quotient_small(q as int, r as int, d as int, n1 as int, n0 as int);
    }
    (q, r)
}

/// Divides the two-limb value `n1 * 2^64 + n0` by `d`, which must be
/// normalized (top bit set) with `n1 < d`. Returns `(quotient, remainder)`.
///
/// Long division on 32-bit half digits.
pub fn udiv_qrnnd(n1: u64, n0: u64, d: u64) -> (res: (u64, u64))
    requires
        d >= 0x8000_0000_0000_0000,
        n1 < d,
    ensures
        res.0 * d + res.1 == n1 * value::base() + n0,
        res.1 < d,
{
    proof {
        lemma_half_split(n0);
    }
    let (q_high, r_high): (u64, u64) = udiv_half(n1, n0 >> 32, d);
    let (q_low, r_low): (u64, u64) = udiv_half(r_high, n0 & 0xffff_ffff, d);
    proof {
        lemma_half_join(q_high, q_low);
        assert((q_high * half_base() + q_low) * d == q_high * d * half_base() + q_low * d)
            by (nonlinear_arith);
    }
    ((q_high << 32) | q_low, r_low)
}

/// Shifting left by `s` bits, split at the limb boundary: what stays and what
/// moves into the next limb.
#[verifier::rlimit(40)]
pub proof fn lemma_shift_split(x: u64, s: u64)
    requires
        0 < s < 64,
    ensures
        (x << s) + (x >> ((64 - s) as u64)) * value::base() == x * vstd::arithmetic::power2::pow2(
            s as nat,
        ),
        (x >> ((64 - s) as u64)) < vstd::arithmetic::power2::pow2(s as nat),
        vstd::arithmetic::power2::pow2(s as nat) < value::base(),
        vstd::arithmetic::power2::pow2(s as nat) >= 2,
        (x << s) as nat % vstd::arithmetic::power2::pow2(s as nat) == 0,
        (x << s) + vstd::arithmetic::power2::pow2(s as nat) <= value::base(),
{
    let t: u64 = (64 - s) as u64;
    let hi: u64 = x >> t;
    let lo: u64 = x << s;
    let top: u64 = hi << t;
    let low: u64 = x & (((1u64 << t) - 1) as u64);
    assert(x == top + low && top <= x && lo == low << s && low < (1u64 << t) && hi < (1u64 << s)
        && (1u64 << s) >= 2) by (bit_vector)
        requires
            0 < s < 64,
            t == 64 - s,
            hi == x >> t,
            lo == x << s,
            top == hi << t,
            low == x & (((1u64 << t) - 1) as u64),
    ;
    let p: int = vstd::arithmetic::power2::pow2(s as nat) as int;
    let w: int = vstd::arithmetic::power2::pow2(t as nat) as int;
    vstd::bits::lemma_u64_pow2_no_overflow(s as nat);
    vstd::bits::lemma_u64_pow2_no_overflow(t as nat);
    vstd::bits::lemma_u64_shl_is_mul(1, s);
    vstd::bits::lemma_u64_shl_is_mul(1, t);
    vstd::arithmetic::power2::lemma_pow2_adds(s as nat, t as nat);
    vstd::arithmetic::power2::lemma2_to64();
    assert(hi * w + w <= p * w && low * p + p <= w * p) by (nonlinear_arith)
        requires
            hi + 1 <= p,
            low + 1 <= w,
            p >= 0,
            w >= 0,
    ;
    assert(w * p == p * w) by (nonlinear_arith);
    vstd::bits::lemma_u64_shl_is_mul(hi, t);
    vstd::bits::lemma_u64_shl_is_mul(low, s);
    assert((hi * w + low) * p == hi * (p * w) + low * p) by (nonlinear_arith);
    vstd::arithmetic::div_mod::lemma_mod_multiples_basic(low as int, p);
}

/// Joining a shifted limb with the bits carried in from the one below.
pub proof fn lemma_shift_join(hi: u64, lo: u64, s: u64)
    requires
        0 < s < 64,
    ensures
        ((hi << s) | (lo >> ((64 - s) as u64))) == (hi << s) + (lo >> ((64 - s) as u64)),
{
    let t: u64 = (64 - s) as u64;
    assert(((hi << s) | (lo >> t)) == (hi << s) + (lo >> t)) by (bit_vector)
        requires
            0 < s < 64,
            t == 64 - s,
    ;
}

/// Shifting a non-zero word by its leading zeros sets the top bit and loses
/// nothing.
pub proof fn lemma_normalize(d: u64, s: u64)
    requires
        d > 0,
        s == vstd::std_specs::bits::u64_leading_zeros(d),
    ensures
        s < 64,
        (d << s) == d * vstd::arithmetic::power2::pow2(s as nat),
        (d << s) >= 0x8000_0000_0000_0000,
        s == 0 ==> d >= 0x8000_0000_0000_0000,
{
    vstd::std_specs::bits::axiom_u64_leading_zeros(d);
    let k: u64 = (63 - s) as u64;
    assert((d << s) >= 0x8000_0000_0000_0000 && (s == 0 ==> d << s == d)) by (bit_vector)
        requires
            s < 64,
            k == 63 - s,
            (d >> k) & 1 != 0,
    ;
    if s == 0 {
        vstd::arithmetic::power2::lemma2_to64();
    } else {
        lemma_shift_split(d, s);
    }
}

/// A right shift is a division by the power of two.
pub proof fn lemma_shift_right(x: u64, s: u64)
    requires
        s < 64,
    ensures
        (x >> s) == x as nat / vstd::arithmetic::power2::pow2(s as nat),
        vstd::arithmetic::power2::pow2(s as nat) > 0,
{
    vstd::bits::lemma_u64_shr_is_div(x, s);
    vstd::bits::lemma_u64_pow2_no_overflow(s as nat);
    vstd::arithmetic::power2::lemma_pow2_pos(s as nat);
}

/// Undoing a common scale factor `p` after a division: the remainder carries
/// it, the quotient does not.
pub proof fn lemma_unscale(n: int, q: int, d: int, p: int, r: int)
    requires
        q * (d * p) + r == p * n,
        0 <= r < d * p,
        p > 0,
        d > 0,
    ensures
        q * d + r / p == n,
        0 <= r / p < d,
        r == p * (r / p),
{
    let k: int = n - q * d;
    assert(r == p * k) by (nonlinear_arith)
        requires
            q * (d * p) + r == p * n,
            k == n - q * d,
    ;
    vstd::arithmetic::div_mod::lemma_div_multiples_vanish(k, p);
    assert(0 <= k < d) by (nonlinear_arith)
        requires
            0 <= p * k,
            p * k < d * p,
            p > 0,
    ;
}

/// Divides `hi * 2^64 + lo` by `d`. Requires `hi < d` so the quotient fits a
/// single limb. Returns `(quotient, remainder)`.
pub fn div_2by1(hi: u64, lo: u64, d: u64) -> (res: (u64, u64))
    requires
        hi < d,
    ensures
        res.0 * d + res.1 == hi * value::base() + lo,
        res.1 < d,
{
    if hi == 0 {
        proof {
            vstd::arithmetic::div_mod::lemma_fundamental_div_mod(lo as int, d as int);
            let qq: int = (lo / d) as int;
            assert(d * qq == qq * d) by (nonlinear_arith);
        }
        return (lo / d, lo % d);
    }
    let s: u32 = d.leading_zeros();
    proof {
        lemma_normalize(d, s as u64);
    }
    if s == 0 {
        udiv_qrnnd(hi, lo, d)
    } else {
        let ghost p: int = vstd::arithmetic::power2::pow2(s as nat) as int;
        proof {
            lemma_shift_join(hi, lo, s as u64);
            lemma_shift_split(hi, s as u64);
            lemma_shift_split(lo, s as u64);
            assert(hi * p + p <= d * p) by (nonlinear_arith)
                requires
                    hi + 1 <= d,
                    p > 0,
            ;
            let h: u64 = hi >> ((64 - s) as u64);
            assert(h == 0);
        }
        let (q, r): (u64, u64) = udiv_qrnnd((hi << s) | (lo >> (64 - s)), lo << s, d << s);
        proof {
            assert(p * (hi * value::base() + lo) == hi * p * value::base() + lo * p)
                by (nonlinear_arith);
            lemma_unscale(hi * value::base() + lo, q as int, d as int, p, r as int);
            lemma_shift_right(r, s as u64);
        }
        (q, r >> s)
    }
}

/// The reciprocal of a normalized divisor: floor((2^128 - 1) / dn) - 2^64.
pub open spec fn reciprocal(dn: u64) -> int {
    0xffff_ffff_ffff_ffff_ffff_ffff_ffff_ffffint / (dn as int) - value::base()
}

/// Equal factors give equal products.
proof fn lemma_times(a: nat, b: nat, x: nat, y: nat)
    requires
        a == x,
        b == y,
    ensures
        a * b == x * y,
{
}

/// The powers of ten that fit a word, each shifted up to its top bit.
proof fn lemma_pow10_shifted()
    ensures
        pow10::pow10(0) * vstd::arithmetic::power2::pow2(63) == 0x8000_0000_0000_0000,
        pow10::pow10(1) * vstd::arithmetic::power2::pow2(60) == 0xa000_0000_0000_0000,
        pow10::pow10(2) * vstd::arithmetic::power2::pow2(57) == 0xc800_0000_0000_0000,
        pow10::pow10(3) * vstd::arithmetic::power2::pow2(54) == 0xfa00_0000_0000_0000,
        pow10::pow10(4) * vstd::arithmetic::power2::pow2(50) == 0x9c40_0000_0000_0000,
        pow10::pow10(5) * vstd::arithmetic::power2::pow2(47) == 0xc350_0000_0000_0000,
        pow10::pow10(6) * vstd::arithmetic::power2::pow2(44) == 0xf424_0000_0000_0000,
        pow10::pow10(7) * vstd::arithmetic::power2::pow2(40) == 0x9896_8000_0000_0000,
        pow10::pow10(8) * vstd::arithmetic::power2::pow2(37) == 0xbebc_2000_0000_0000,
        pow10::pow10(9) * vstd::arithmetic::power2::pow2(34) == 0xee6b_2800_0000_0000,
        pow10::pow10(10) * vstd::arithmetic::power2::pow2(30) == 0x9502_f900_0000_0000,
        pow10::pow10(11) * vstd::arithmetic::power2::pow2(27) == 0xba43_b740_0000_0000,
        pow10::pow10(12) * vstd::arithmetic::power2::pow2(24) == 0xe8d4_a510_0000_0000,
        pow10::pow10(13) * vstd::arithmetic::power2::pow2(20) == 0x9184_e72a_0000_0000,
        pow10::pow10(14) * vstd::arithmetic::power2::pow2(17) == 0xb5e6_20f4_8000_0000,
        pow10::pow10(15) * vstd::arithmetic::power2::pow2(14) == 0xe35f_a931_a000_0000,
        pow10::pow10(16) * vstd::arithmetic::power2::pow2(10) == 0x8e1b_c9bf_0400_0000,
        pow10::pow10(17) * vstd::arithmetic::power2::pow2(7) == 0xb1a2_bc2e_c500_0000,
        pow10::pow10(18) * vstd::arithmetic::power2::pow2(4) == 0xde0b_6b3a_7640_0000,
        pow10::pow10(19) * vstd::arithmetic::power2::pow2(0) == 0x8ac7_2304_89e8_0000,
{
    pow10::lemma_pow10_words();
    vstd::arithmetic::power2::lemma2_to64();
    vstd::arithmetic::power2::lemma2_to64_rest();
    lemma_times(pow10::pow10(0), vstd::arithmetic::power2::pow2(63), 1, 0x8000_0000_0000_0000);
    lemma_times(pow10::pow10(1), vstd::arithmetic::power2::pow2(60), 10, 0x1000_0000_0000_0000);
    lemma_times(pow10::pow10(2), vstd::arithmetic::power2::pow2(57), 100, 0x0200_0000_0000_0000);
    lemma_times(pow10::pow10(3), vstd::arithmetic::power2::pow2(54), 1000, 0x0040_0000_0000_0000);
    lemma_times(pow10::pow10(4), vstd::arithmetic::power2::pow2(50), 10000, 0x0004_0000_0000_0000);
    lemma_times(pow10::pow10(5), vstd::arithmetic::power2::pow2(47), 100000, 0x0000_8000_0000_0000);
    lemma_times(pow10::pow10(6), vstd::arithmetic::power2::pow2(44), 1000000, 0x0000_1000_0000_0000);
    lemma_times(pow10::pow10(7), vstd::arithmetic::power2::pow2(40), 10000000, 0x0000_0100_0000_0000);
    lemma_times(pow10::pow10(8), vstd::arithmetic::power2::pow2(37), 100000000, 0x0000_0020_0000_0000);
    lemma_times(pow10::pow10(9), vstd::arithmetic::power2::pow2(34), 1000000000, 0x0000_0004_0000_0000);
    lemma_times(pow10::pow10(10), vstd::arithmetic::power2::pow2(30), 10000000000, 0x0000_0000_4000_0000);
    lemma_times(pow10::pow10(11), vstd::arithmetic::power2::pow2(27), 100000000000, 0x0000_0000_0800_0000);
    lemma_times(pow10::pow10(12), vstd::arithmetic::power2::pow2(24), 1000000000000, 0x0000_0000_0100_0000);
    lemma_times(pow10::pow10(13), vstd::arithmetic::power2::pow2(20), 10000000000000, 0x0000_0000_0010_0000);
    lemma_times(pow10::pow10(14), vstd::arithmetic::power2::pow2(17), 100000000000000, 0x0000_0000_0002_0000);
    lemma_times(pow10::pow10(15), vstd::arithmetic::power2::pow2(14), 1000000000000000, 0x0000_0000_0000_4000);
    lemma_times(pow10::pow10(16), vstd::arithmetic::power2::pow2(10), 10000000000000000, 0x0000_0000_0000_0400);
    lemma_times(pow10::pow10(17), vstd::arithmetic::power2::pow2(7), 100000000000000000, 0x0000_0000_0000_0080);
    lemma_times(pow10::pow10(18), vstd::arithmetic::power2::pow2(4), 1000000000000000000, 0x0000_0000_0000_0010);
    lemma_times(pow10::pow10(19), vstd::arithmetic::power2::pow2(0), 10000000000000000000, 0x0000_0000_0000_0001);
}

/// Per-scale constants for reciprocal division by 10^digits: the normalized
/// divisor (top bit set), its normalization shift, and the reciprocal
/// `floor((2^128 - 1) / dn) - 2^64`. They are written down, so that no division
/// is made to get them.
pub fn pow10_norm(digits: u32) -> (res: (u64, u32, u64))
    requires
        digits <= 19,
    ensures
        res.1 < 64,
        res.0 == pow10::pow10(digits as nat) * vstd::arithmetic::power2::pow2(res.1 as nat),
        res.0 >= 0x8000_0000_0000_0000,
        res.2 == reciprocal(res.0),
{
    proof {
        lemma_pow10_shifted();
    }
    match digits {
        0 => (0x8000_0000_0000_0000, 63, 0xffff_ffff_ffff_ffff),
        1 => (0xa000_0000_0000_0000, 60, 0x9999_9999_9999_9999),
        2 => (0xc800_0000_0000_0000, 57, 0x47ae_147a_e147_ae14),
        3 => (0xfa00_0000_0000_0000, 54, 0x0624_dd2f_1a9f_be76),
        4 => (0x9c40_0000_0000_0000, 50, 0xa36e_2eb1_c432_ca57),
        5 => (0xc350_0000_0000_0000, 47, 0x4f8b_588e_368f_0846),
        6 => (0xf424_0000_0000_0000, 44, 0x0c6f_7a0b_5ed8_d36b),
        7 => (0x9896_8000_0000_0000, 40, 0xad7f_29ab_caf4_8578),
        8 => (0xbebc_2000_0000_0000, 37, 0x5798_ee23_08c3_9df9),
        9 => (0xee6b_2800_0000_0000, 34, 0x12e0_be82_6d69_4b2e),
        10 => (0x9502_f900_0000_0000, 30, 0xb7cd_fd9d_7bdb_ab7d),
        11 => (0xba43_b740_0000_0000, 27, 0x5fd7_fe17_9649_55fd),
        12 => (0xe8d4_a510_0000_0000, 24, 0x1979_9812_dea1_1197),
        13 => (0x9184_e72a_0000_0000, 20, 0xc25c_2684_9768_1c26),
        14 => (0xb5e6_20f4_8000_0000, 17, 0x6849_b86a_12b9_b01e),
        15 => (0xe35f_a931_a000_0000, 14, 0x203a_f9ee_7561_59b2),
        16 => (0x8e1b_c9bf_0400_0000, 10, 0xcd2b_297d_889b_c2b6),
        17 => (0xb1a2_bc2e_c500_0000, 7, 0x70ef_5464_6d49_6892),
        18 => (0xde0b_6b3a_7640_0000, 4, 0x2725_dd1d_243a_ba0e),
        _ => (0x8ac7_2304_89e8_0000, 0, 0xd83c_94fb_6d2a_c34a),
    }
}

/// Splitting a double word into its limbs.
pub proof fn lemma_double_split(x: u128)
    ensures
        x == ((x >> 64) as u64) * value::base() + (x as u64),
        (x >> 64) < value::base(),
{
    assert(x == ((x >> 64) as u64 as u128) * 0x1_0000_0000_0000_0000u128 + (x as u64 as u128) && (x
        >> 64) < 0x1_0000_0000_0000_0000u128) by (bit_vector);
}

/// The error bound behind reciprocal division: the remainder `rt` of the
/// candidate quotient `q1 + 1` lies between the two bounds that the fixups
/// tell apart by comparing with `q0`.
proof fn lemma_recip_bounds(u1: int, u0: int, d: int, v: int, q1: int, q0: int)
    requires
        0x8000_0000_0000_0000 <= d < value::base(),
        0 <= u1 < d,
        0 <= u0 < value::base(),
        v == 0xffff_ffff_ffff_ffff_ffff_ffff_ffff_ffffint / d - value::base(),
        v * u1 + u1 * value::base() + u0 == q1 * value::base() + q0,
        0 <= q0 < value::base(),
    ensures
        ({
            let rt: int = u1 * value::base() + u0 - (q1 + 1) * d;
            &&& rt >= -d
            &&& rt >= q0 + 1 - value::base()
            &&& rt < value::base() - d || rt < q0
        }),
{
    let b: int = value::base() as int;
    let rt: int = u1 * b + u0 - (q1 + 1) * d;
    let w: int = b + v;
    let k: int = b * b - w * d;
    assert(w * d <= b * b - 1 && b * b - 1 < w * d + d) by (nonlinear_arith)
        requires
            w == 0xffff_ffff_ffff_ffff_ffff_ffff_ffff_ffffint / d,
            b == 0x1_0000_0000_0000_0000,
            d > 0,
    ;
    assert(1 <= k <= d);
    // b * rt, with q1 * b replaced by what the estimate says it is.
    assert(b * rt == u1 * k + u0 * (b - d) + q0 * d - b * d) by {
        assert(u1 * w == v * u1 + u1 * b) by (nonlinear_arith)
            requires
                w == b + v,
        ;
        assert(b * ((q1 + 1) * d) == (q1 * b) * d + b * d) by (nonlinear_arith);
        assert((u1 * w + u0 - q0) * d == u1 * (w * d) + u0 * d - q0 * d) by (nonlinear_arith);
        assert(u1 * k == b * (u1 * b) - u1 * (w * d)) by (nonlinear_arith)
            requires
                k == b * b - w * d,
        ;
        assert(u0 * (b - d) == b * u0 - u0 * d) by (nonlinear_arith);
        assert(q1 * b == u1 * w + u0 - q0);
    }
    assert(u1 * k >= 0 && u0 * (b - d) >= 0) by (nonlinear_arith)
        requires
            u1 >= 0,
            k >= 0,
            u0 >= 0,
            b - d >= 0,
    ;
    assert(rt >= -d) by (nonlinear_arith)
        requires
            b * rt >= q0 * d - b * d,
            q0 >= 0,
            d >= 0,
            b > 0,
    ;
    assert(rt > q0 - b) by (nonlinear_arith)
        requires
            b * rt >= q0 * d - b * d,
            q0 < b,
            0 < d < b,
    ;
    assert(u1 * k <= (d - 1) * d) by (nonlinear_arith)
        requires
            0 <= u1 <= d - 1,
            0 <= k <= d,
    ;
    assert(u0 * (b - d) <= (b - 1) * (b - d)) by (nonlinear_arith)
        requires
            u0 <= b - 1,
            b - d >= 0,
    ;
    assert((d - 1) * d + (b - 1) * (b - d) + q0 * d - b * d < (b - d) * (b - d) + q0 * d)
        by (nonlinear_arith)
        requires
            0 < d < b,
    ;
    if rt >= b - d && rt >= q0 {
        assert((b - d) * (b - d) + q0 * d <= rt * b) by (nonlinear_arith)
            requires
                rt >= b - d,
                rt >= q0,
                0 < d < b,
        ;
        assert(rt * b == b * rt) by (nonlinear_arith);
    }
}

/// Divides `u1 * 2^64 + u0` by a normalized divisor `dn` (top bit set) with the
/// precomputed reciprocal `v`: multiplications and two fixups, no division.
/// Requires `u1 < dn`.
pub fn div_2by1_recip(u1: u64, u0: u64, dn: u64, v: u64) -> (res: (u64, u64))
    requires
        dn >= 0x8000_0000_0000_0000,
        u1 < dn,
        v == reciprocal(dn),
    ensures
        res.0 * dn + res.1 == u1 * value::base() + u0,
        res.1 < dn,
{
    proof {
        let b: int = value::base() as int;
        let w: int = b + v;
        let d: int = dn as int;
        assert(w * d <= b * b - 1) by (nonlinear_arith)
            requires
                w == 0xffff_ffff_ffff_ffff_ffff_ffff_ffff_ffffint / d,
                b == 0x1_0000_0000_0000_0000,
                d > 0,
        ;
        assert(u1 * w <= (d - 1) * w) by (nonlinear_arith)
            requires
                u1 <= d - 1,
                w >= 0,
        ;
        assert((d - 1) * w == w * d - w) by (nonlinear_arith);
        assert(u1 * w == v * u1 + u1 * b) by (nonlinear_arith)
            requires
                w == b + v,
        ;
        assert(v * u1 >= 0) by (nonlinear_arith);
    }
    let q: u128 = (v as u128) * (u1 as u128) + ((u1 as u128) * 0x1_0000_0000_0000_0000u128
        + u0 as u128);
    proof {
        lemma_double_split(q);
    }
    let q_top: u64 = (q >> 64) as u64;
    let q0: u64 = q as u64;
    proof {
        lemma_recip_bounds(
            u1 as int,
            u0 as int,
            dn as int,
            v as int,
            q_top as int,
            q0 as int,
        );
    }
    let ghost rt: int = u1 * value::base() + u0 - (q_top + 1) * dn;
    let mut q1: u64 = q_top.wrapping_add(1);
    let m: u64 = q1.wrapping_mul(dn);
    let mut r: u64 = u0.wrapping_sub(m);
    proof {
        lemma_wrapped_remainder(u1, u0, dn, q_top, q1, m, r, rt);
    }
    if r > q0 {
        q1 = q1.wrapping_sub(1);
        r = r.wrapping_add(dn);
        assert(q1 == q_top);
        assert((q_top + 1) * dn == q_top * dn + dn) by (nonlinear_arith);
        assert(r == rt + dn);
    } else {
        assert(q_top < 0xffff_ffff_ffff_ffff) by {
            assert(rt >= 0);
            if q_top == 0xffff_ffff_ffff_ffff {
                assert((q_top + 1) * dn > u1 * value::base() + u0) by (nonlinear_arith)
                    requires
                        q_top == 0xffff_ffff_ffff_ffff,
                        dn >= u1 + 1,
                        u0 < 0x1_0000_0000_0000_0000,
                ;
            }
        }
    }
    assert(q1 * dn + r == u1 * value::base() + u0);
    if r >= dn {
        assert(q1 < 0xffff_ffff_ffff_ffff) by {
            if q1 == 0xffff_ffff_ffff_ffff {
                assert(q1 * dn + dn > u1 * value::base() + u0) by (nonlinear_arith)
                    requires
                        q1 == 0xffff_ffff_ffff_ffff,
                        dn >= u1 + 1,
                        u0 < 0x1_0000_0000_0000_0000,
                ;
            }
        }
        assert((q1 + 1) * dn == q1 * dn + dn) by (nonlinear_arith);
        q1 += 1;
        r -= dn;
    }
    (q1, r)
}

/// The wrapped remainder is the true one, moved into the range of a word.
proof fn lemma_wrapped_remainder(
    u1: u64,
    u0: u64,
    dn: u64,
    q_top: u64,
    q1: u64,
    m: u64,
    r: u64,
    rt: int,
)
    requires
        rt == u1 * value::base() + u0 - (q_top + 1) * dn,
        -(value::base() as int) < rt < value::base(),
        q1 == q_top.wrapping_add(1),
        m == q1.wrapping_mul(dn),
        r == u0.wrapping_sub(m),
    ensures
        rt >= 0 ==> r == rt,
        rt < 0 ==> r == rt + value::base(),
{
    let b: int = value::base() as int;
    let c: int = if q_top == 0xffff_ffff_ffff_ffff {
        1
    } else {
        0
    };
    assert(q1 == q_top + 1 - c * b);
    let full: int = (q1 * dn) as int;
    let k: int = full / b;
    assert(m == full % b);
    assert(full == b * k + m) by {
        vstd::arithmetic::div_mod::lemma_fundamental_div_mod(full, b);
    }
    let e: int = if u0 < m {
        1
    } else {
        0
    };
    assert(r == u0 - m + e * b);
    // r and rt differ by a multiple of the radix.
    let z: int = u1 - c * dn - k - e;
    assert((q_top + 1) * dn == full + c * b * dn) by (nonlinear_arith)
        requires
            q1 == q_top + 1 - c * b,
            full == q1 * dn,
    ;
    assert(c * b * dn == b * (c * dn)) by (nonlinear_arith);
    assert(rt == r + b * z) by (nonlinear_arith)
        requires
            rt == u1 * b + u0 - (full + b * (c * dn)),
            full == b * k + m,
            r == u0 - m + e * b,
            z == u1 - c * dn - k - e,
    ;
    assert(z == 0 || z == -1) by (nonlinear_arith)
        requires
            rt == r + b * z,
            0 <= r < b,
            -b < rt < b,
            b > 0,
    ;
}

/// One step of long division by 10^DIGITS: divides `rem * 2^64 + limb` for
/// `rem < 10^DIGITS`, normalizing into the reciprocal division above.
pub fn div_2by1_pow10<const DIGITS: u8>(rem: u64, limb: u64) -> (res: (u64, u64))
    requires
        DIGITS <= 19,
        rem < pow10::p10(DIGITS),
    ensures
        res.0 * pow10::p10(DIGITS) + res.1 == rem * value::base() + limb,
        res.1 < pow10::p10(DIGITS),
{
    let (dn, s, v): (u64, u32, u64) = pow10_norm(DIGITS as u32);
    let ghost p: int = vstd::arithmetic::power2::pow2(s as nat) as int;
    let ghost d: int = pow10::p10(DIGITS) as int;
    let u1: u64;
    let u0: u64;
    proof {
        vstd::arithmetic::power2::lemma_pow2_pos(s as nat);
        assert(rem * p + p <= d * p) by (nonlinear_arith)
            requires
                rem + 1 <= d,
                p > 0,
        ;
        pow10::lemma_pow10_pos(DIGITS as nat);
    }
    if s == 0 {
        u1 = rem;
        u0 = limb;
        proof {
            vstd::arithmetic::power2::lemma2_to64();
            assert(p * (rem * value::base() + limb) == rem * value::base() + limb)
                by (nonlinear_arith)
                requires
                    p == 1,
            ;
        }
    } else {
        proof {
            lemma_shift_join(rem, limb, s as u64);
            lemma_shift_split(rem, s as u64);
            lemma_shift_split(limb, s as u64);
            let h: u64 = rem >> ((64 - s) as u64);
            assert(h == 0);
        }
        u1 = (rem << s) | (limb >> (64 - s));
        u0 = limb << s;
    }
    proof {
        assert(p * (rem * value::base() + limb) == rem * p * value::base() + limb * p)
            by (nonlinear_arith);
        assert(u1 * value::base() + u0 == p * (rem * value::base() + limb));
        assert(limb * p < p * value::base()) by (nonlinear_arith)
            requires
                0 <= limb < value::base(),
                p > 0,
        ;
        let x: int = rem * p;
        assert(x + p <= dn);
        assert(u1 * value::base() + u0 == x * value::base() + limb * p);
        assert(u1 * value::base() < (x + p) * value::base());
    }
    let (q, r): (u64, u64) = div_2by1_recip(u1, u0, dn, v);
    proof {
        lemma_unscale(rem * value::base() + limb, q as int, d, p, r as int);
        lemma_shift_right(r, s as u64);
    }
    (q, r >> s)
}

} // verus!
