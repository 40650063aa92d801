//! Multiplication and division of sign-magnitude decimals, rounded once.

use crate::knuth::div_knuth;
use crate::limbs::{
    div_words_by_pow10, div_words_by_word, is_zero, mul_add_word, mul_words, order_words, shl1,
    sig_limbs, Order,
};
use crate::pow10;
use crate::pow10::upow10;
use crate::rounding;
use crate::rounding::{order_twice_rem_u64, round_up_by_order, Rounding};
use crate::value;
use vstd::prelude::*;

verus! {

/// The top bit of the highest limb is half the radix of the whole number.
pub proof fn lemma_top_bit(s: Seq<u64>)
    requires
        s.len() >= 1,
    ensures
        (s.last() >> 63 != 0) <==> 2 * value::val(s) >= value::bpow(s.len()),
{
    let top: u64 = s.last();
    let k: nat = (s.len() - 1) as nat;
    let p: int = value::bpow(k) as int;
    let low: int = value::val(s.drop_last()) as int;
    value::lemma_val_bound(s.drop_last());
    value::lemma_bpow_pos(k);
    assert(top >> 63 != 0 <==> top >= 0x8000_0000_0000_0000u64) by (bit_vector);
    assert(value::val(s) == low + top * p);
    assert(value::bpow(s.len()) == value::base() * p);
    if top >= 0x8000_0000_0000_0000u64 {
        assert(top * p >= 0x8000_0000_0000_0000 * p) by (nonlinear_arith)
            requires
                top >= 0x8000_0000_0000_0000,
                p >= 0,
        ;
    } else {
        assert(top * p <= 0x7fff_ffff_ffff_ffff * p) by (nonlinear_arith)
            requires
                top <= 0x7fff_ffff_ffff_ffff,
                p >= 0,
        ;
    }
}

/// A number is odd exactly when its lowest limb is.
pub proof fn lemma_parity(s: Seq<u64>)
    requires
        s.len() >= 1,
    ensures
        (s[0] & 1 != 0) <==> value::val(s) % 2 == 1,
{
    let x: u64 = s[0];
    value::lemma_val_skip_step(s, 0);
    value::lemma_val_skip_ends(s);
    assert(x & 1 != 0 <==> x % 2 == 1) by (bit_vector);
    let h: nat = value::val(s.skip(1));
    assert(value::val(s) == x as nat + value::base() * h);
}

/// The low `W` limbs of a number whose higher limbs are all zero.
fn low_limbs<const W: usize>(src: &[u64]) -> (mag: [u64; W])
    requires
        src@.len() >= W,
        value::all_zero(src@.skip(W as int)),
    ensures
        value::val(mag@) == value::val(src@),
{
    let mut mag: [u64; W] = [0u64; W];
    let mut i: usize = 0;
    while i < W
        invariant
            i <= W <= src@.len(),
            mag@.len() == W,
            forall|k: int| 0 <= k < i ==> mag@[k] == src@[k],
        decreases W - i,
    {
        mag[i] = src[i];
        i += 1;
    }
    proof {
        assert(mag@ =~= src@.take(W as int));
        value::lemma_val_high_zero(src@, W as int);
    }
    mag
}

/// Extends a magnitude with zero limbs.
fn widen_limbs<const W: usize>(src: &[u64; 2]) -> (mag: [u64; W])
    requires
        W >= 2,
    ensures
        value::val(mag@) == value::val(src@),
{
    let mut mag: [u64; W] = [0u64; W];
    mag[0] = src[0];
    mag[1] = src[1];
    proof {
        assert(mag@.take(2) =~= src@);
        value::lemma_val_high_zero(mag@, 2);
    }
    mag
}

/// Moves a truncated magnitude up by one where `up` asks for it. `None` where
/// the result leaves the symmetric range of a `W`-limb signed number.
fn round_to_range<const W: usize>(trunc: [u64; W], up: bool) -> (res: Option<[u64; W]>)
    requires
        W >= 1,
    ensures
        ({
            let m: nat = value::val(trunc@) + (if up {
                1nat
            } else {
                0nat
            });
            &&& res is Some <==> 2 * m < value::bpow(W as nat)
            &&& res matches Some(mag) ==> value::val(mag@) == m
        }),
{
    let mut mag: [u64; W] = trunc;
    proof {
        value::lemma_val_bound(trunc@);
        value::lemma_bpow_pos(W as nat);
    }
    if up {
        let overflow: bool = mul_add_word(&mut mag, 1, 1);
        if overflow {
            return None;
        }
        proof {
            vstd::arithmetic::div_mod::lemma_small_mod(
                value::val(trunc@) + 1,
                value::bpow(W as nat),
            );
        }
    }
    proof {
        lemma_top_bit(mag@);
    }
    if mag[W - 1] >> 63 != 0 {
        return None;
    }
    Some(mag)
}

/// What a rounded product or quotient must be: the rounded magnitude `m` with
/// the sign `neg`, and absent exactly where `m` leaves the symmetric range.
pub open spec fn fits_symmetric<const W: usize>(
    res: Option<(bool, [u64; W])>,
    neg: bool,
    m: nat,
) -> bool {
    &&& res is Some <==> 2 * m < value::bpow(W as nat)
    &&& res matches Some((n, mag)) ==> n == neg && value::val(mag@) == m
}

/// The product core: schoolbook product, then one division by 10^DIGITS.
fn dec_mul_core<const DIGITS: u8, const W: usize, const W2: usize>(
    neg: bool,
    a_mag: &[u64; W],
    b_mag: &[u64; W],
    mode: Rounding,
) -> (res: Option<(bool, [u64; W])>)
    requires
        DIGITS <= 19,
        1 <= W <= 4,
        W2 == 2 * W,
    ensures
        fits_symmetric(
            res,
            neg,
            rounding::round_mag(
                value::val(a_mag@) * value::val(b_mag@),
                pow10::p10(DIGITS),
                neg,
                mode,
            ),
        ),
{
    let scale: u64 = upow10(DIGITS as u32);
    let ghost n: nat = value::val(a_mag@) * value::val(b_mag@);
    let ghost d: nat = pow10::p10(DIGITS);
    let ghost m: nat = rounding::round_mag(n, d, neg, mode);
    proof {
        pow10::lemma_p10_word(DIGITS);
        value::lemma_bpow_pos(W as nat);
    }
    let mut prod: [u64; W2] = [0u64; W2];
    mul_words(&mut prod, a_mag, b_mag);
    let half_up: bool = matches!(mode, Rounding::HalfUp);
    let ghost before: Seq<u64> = prod@;
    if half_up {
        // The product is at most (2^(64W) - 1)^2: adding half the divisor
        // carries nothing out.
        let _ = mul_add_word(&mut prod, 1, scale / 2);
        proof {
            lemma_product_room(a_mag@, b_mag@);
            vstd::arithmetic::div_mod::lemma_small_mod(
                n + (scale / 2) as nat,
                value::bpow(W2 as nat),
            );
        }
    }
    let ghost dividend: nat = value::val(prod@);
    let rem: u64 = div_words_by_pow10::<DIGITS>(&mut prod);
    let ghost q: nat = value::val(prod@);
    proof {
        rounding::lemma_round_mag_parts(dividend, d, q, rem as nat, neg, mode);
        if half_up {
            rounding::lemma_half_up_by_adding(n, d, neg);
            assert(m == q);
        } else {
            assert(m == q || m == q + 1);
        }
    }
    if !is_zero(&prod[W..W2]) {
        proof {
            assert(prod@.subrange(W as int, W2 as int) =~= prod@.skip(W as int));
            lemma_high_nonzero(prod@, W as int);
        }
        return None;
    }
    assert(prod@.subrange(W as int, W2 as int) =~= prod@.skip(W as int));
    let trunc: [u64; W] = low_limbs::<W>(&prod);
    proof {
        lemma_parity(trunc@);
    }
    let up: bool = !half_up && round_up_by_order(
        order_twice_rem_u64(rem, scale),
        rem == 0,
        trunc[0] & 1 != 0,
        neg,
        mode,
    );
    match round_to_range(trunc, up) {
        Some(mag) => Some((neg, mag)),
        None => None,
    }
}

/// Half a word can be added to a product of two numbers without leaving twice
/// their limbs.
proof fn lemma_product_room(a: Seq<u64>, b: Seq<u64>)
    requires
        a.len() == b.len(),
        a.len() >= 1,
    ensures
        value::val(a) * value::val(b) + 5_000_000_000_000_000_000 < value::bpow(2 * a.len()),
{
    value::lemma_val_bound(a);
    value::lemma_val_bound(b);
    value::lemma_bpow_add(a.len(), a.len());
    value::lemma_bpow_mono(1, a.len());
    value::lemma_bpow_small();
    let x: int = value::val(a) as int;
    let y: int = value::val(b) as int;
    let p: int = value::bpow(a.len()) as int;
    assert(x * y <= (p - 1) * (p - 1)) by (nonlinear_arith)
        requires
            0 <= x <= p - 1,
            0 <= y <= p - 1,
    ;
    assert((p - 1) * (p - 1) == p * p - 2 * p + 1) by (nonlinear_arith);
}

/// A nonzero limb at or above position `i` makes the number at least 2^(64 i).
proof fn lemma_high_nonzero(s: Seq<u64>, i: int)
    requires
        0 <= i <= s.len(),
        value::val(s.skip(i)) != 0,
    ensures
        value::val(s) >= value::bpow(i as nat),
{
    value::lemma_val_split(s, i);
    let b: int = value::bpow(i as nat) as int;
    let h: int = value::val(s.skip(i)) as int;
    assert(b * h >= b) by (nonlinear_arith)
        requires
            h >= 1,
            b >= 0,
    ;
}

/// Multiplies two sign-magnitude decimals and re-scales the product by
/// 10^DIGITS, rounding once with `mode`. The multiplication core shared by
/// every backing width; `W2` must equal `2 * W`.
///
/// Returns `None` on overflow of the symmetric range.
pub fn dec_mul<const DIGITS: u8, const W: usize, const W2: usize>(
    a_neg: bool,
    a_mag: &[u64; W],
    b_neg: bool,
    b_mag: &[u64; W],
    mode: Rounding,
) -> (res: Option<(bool, [u64; W])>)
    requires
        DIGITS <= 19,
        1 <= W <= 4,
        W2 == 2 * W,
    ensures
        fits_symmetric(
            res,
            a_neg != b_neg,
            rounding::round_mag(
                value::val(a_mag@) * value::val(b_mag@),
                pow10::p10(DIGITS),
                a_neg != b_neg,
                mode,
            ),
        ),
{
    let neg: bool = a_neg != b_neg;
    // Single-limb operands take the two-limb core, which replaces the WxW-limb
    // product with a 2x2 one for typical magnitudes. Its rare overflow falls
    // through to the wide core.
    if W > 2 && is_zero(&a_mag[1..W]) && is_zero(&b_mag[1..W]) {
        let a2: [u64; 2] = [a_mag[0], 0];
        let b2: [u64; 2] = [b_mag[0], 0];
        proof {
            lemma_single_limb(a_mag@, a2@);
            lemma_single_limb(b_mag@, b2@);
            value::lemma_bpow_mono(2, W as nat);
        }
        if let Some((n2, m2)) = dec_mul_core::<DIGITS, 2, 4>(neg, &a2, &b2, mode) {
            return Some((n2, widen_limbs::<W>(&m2)));
        }
    }
    dec_mul_core::<DIGITS, W, W2>(neg, a_mag, b_mag, mode)
}

/// The low limb alone carries the value where the others are zero.
proof fn lemma_single_limb(s: Seq<u64>, t: Seq<u64>)
    requires
        s.len() >= 1,
        value::val(s.subrange(1, s.len() as int)) == 0,
        t =~= seq![s[0], 0u64],
    ensures
        value::val(t) == value::val(s),
{
    assert(s.subrange(1, s.len() as int) =~= s.skip(1));
    value::lemma_val_skip_step(s, 0);
    value::lemma_val_skip_ends(s);
    value::lemma_val_two(s[0], 0);
}

/// A nonzero limb at position `n - 1` makes the number at least 2^(64 (n - 1)).
pub proof fn lemma_at_least(s: Seq<u64>, n: int)
    requires
        1 <= n <= s.len(),
        s[n - 1] != 0,
    ensures
        value::val(s) >= value::bpow((n - 1) as nat),
{
    value::lemma_val_skip_step(s, n - 1);
    lemma_high_nonzero(s, n - 1);
}

/// A number whose limbs from position `m` on are zero is below 2^(64 m).
pub proof fn lemma_low_only(s: Seq<u64>, m: int)
    requires
        0 <= m <= s.len(),
        value::all_zero(s.skip(m)),
    ensures
        value::val(s) == value::val(s.take(m)),
        value::val(s) < value::bpow(m as nat),
{
    value::lemma_val_high_zero(s, m);
    value::lemma_val_bound(s.take(m));
}

/// Quotient and remainder by a divisor of two or more significant limbs.
fn div_wide<const W: usize, const WP1: usize>(
    num: &[u64; WP1],
    b_mag: &[u64; W],
    n: usize,
) -> (res: ([u64; WP1], [u64; W]))
    requires
        2 <= n <= W <= 4,
        WP1 == W + 1,
        b_mag@[n - 1] != 0,
        value::all_zero(b_mag@.skip(n as int)),
    ensures
        value::val(num@) == value::val(res.0@) * value::val(b_mag@) + value::val(res.1@),
        value::val(res.1@) < value::val(b_mag@),
{
    let mut q: [u64; WP1] = [0u64; WP1];
    let mut r: [u64; W] = [0u64; W];
    let m: usize = sig_limbs(num);
    proof {
        lemma_low_only(num@, m as int);
        lemma_low_only(b_mag@, n as int);
        assert(b_mag@.subrange(0, n as int) =~= b_mag@.take(n as int));
        assert(num@.subrange(0, m as int) =~= num@.take(m as int));
    }
    if m < n {
        // Fewer numerator limbs than divisor limbs: quotient is zero and the
        // whole numerator is the remainder.
        let mut i: usize = 0;
        while i < m
            invariant
                i <= m < n <= W,
                m <= WP1,
                num@.len() == WP1,
                r@.len() == W,
                forall|k: int| 0 <= k < i ==> r@[k] == num@[k],
                forall|k: int| i <= k < W ==> r@[k] == 0,
            decreases m - i,
        {
            r[i] = num[i];
            i += 1;
        }
        proof {
            assert(r@.take(m as int) =~= num@.take(m as int));
            value::lemma_val_high_zero(r@, m as int);
            value::lemma_val_zero(q@);
            assert(0 * value::val(b_mag@) == 0);
            lemma_at_least(b_mag@, n as int);
            value::lemma_bpow_mono(m as nat, (n - 1) as nat);
        }
    } else {
        div_knuth(&mut q, &mut r, &num[0..m], &b_mag[0..n]);
    }
    (q, r)
}

/// Orders twice a remainder against its divisor.
fn order_twice_rem<const W: usize>(rem: &[u64; W], d: &[u64; W]) -> (r: Order)
    ensures
        r == crate::limbs::order_of(2 * value::val(rem@), value::val(d@)),
{
    let mut twice: [u64; W] = *rem;
    let carry: u64 = shl1(&mut twice);
    if carry != 0 {
        proof {
            value::lemma_val_bound(d@);
            value::lemma_bpow_pos(W as nat);
            assert(carry == 1);
            assert(1 * value::bpow(W as nat) == value::bpow(W as nat));
        }
        Order::Greater
    } else {
        assert(0 * value::bpow(W as nat) == 0);
        order_words(&twice, d)
    }
}

/// The quotient core: scale the dividend by 10^DIGITS, divide once, round.
fn dec_div_core<const DIGITS: u8, const W: usize, const WP1: usize>(
    neg: bool,
    a_mag: &[u64; W],
    b_mag: &[u64; W],
    mode: Rounding,
) -> (res: Option<(bool, [u64; W])>)
    requires
        DIGITS <= 19,
        1 <= W <= 4,
        WP1 == W + 1,
        value::val(b_mag@) != 0,
    ensures
        fits_symmetric(
            res,
            neg,
            rounding::round_mag(
                value::val(a_mag@) * pow10::p10(DIGITS),
                value::val(b_mag@),
                neg,
                mode,
            ),
        ),
{
    let ghost d: nat = value::val(b_mag@);
    let ghost dividend: nat = value::val(a_mag@) * pow10::p10(DIGITS);
    let scale: [u64; 1] = [upow10(DIGITS as u32)];
    let mut num: [u64; WP1] = [0u64; WP1];
    mul_words(&mut num, a_mag, &scale);
    proof {
        assert(scale@ =~= seq![scale@[0]]);
        value::lemma_val_one(scale@[0]);
        value::lemma_bpow_pos(W as nat);
    }
    let n: usize = sig_limbs(b_mag);
    let q: [u64; WP1];
    let rem_order: Order;
    let rem_zero: bool;
    let ghost rem: nat;
    if n == 1 {
        // Single-limb divisor: word-based long division.
        let w: u64 = b_mag[0];
        proof {
            lemma_low_only(b_mag@, 1);
            assert(b_mag@.take(1) =~= seq![w]);
            value::lemma_val_one(w);
        }
        let word: u64 = div_words_by_word(&mut num, w);
        q = num;
        rem_order = order_twice_rem_u64(word, w);
        rem_zero = word == 0;
        proof {
            rem = word as nat;
        }
    } else {
        let (quo, r): ([u64; WP1], [u64; W]) = div_wide::<W, WP1>(&num, b_mag, n);
        q = quo;
        rem_order = order_twice_rem::<W>(&r, b_mag);
        rem_zero = is_zero(&r);
        proof {
            rem = value::val(r@);
        }
    }
    proof {
        rounding::lemma_round_mag_parts(dividend, d, value::val(q@), rem, neg, mode);
        assert(q@.subrange(W as int, WP1 as int) =~= q@.skip(W as int));
    }
    if !is_zero(&q[W..WP1]) {
        proof {
            lemma_high_nonzero(q@, W as int);
        }
        return None;
    }
    let trunc: [u64; W] = low_limbs::<W>(&q);
    proof {
        lemma_parity(trunc@);
    }
    let up: bool = round_up_by_order(rem_order, rem_zero, trunc[0] & 1 != 0, neg, mode);
    match round_to_range(trunc, up) {
        Some(mag) => Some((neg, mag)),
        None => None,
    }
}

/// Divides two sign-magnitude decimals (scaling the dividend by 10^DIGITS
/// first) with the given rounding mode. The division core shared by every
/// backing width; `WP1` must equal `W + 1` (the scaled dividend gains one
/// limb). Single-limb divisors take word division; wider divisors take
/// Knuth's algorithm D over significant limbs only.
///
/// Returns `None` if `b` is zero or on overflow of the symmetric range.
pub fn dec_div<const DIGITS: u8, const W: usize, const WP1: usize>(
    a_neg: bool,
    a_mag: &[u64; W],
    b_neg: bool,
    b_mag: &[u64; W],
    mode: Rounding,
) -> (res: Option<(bool, [u64; W])>)
    requires
        DIGITS <= 19,
        1 <= W <= 4,
        WP1 == W + 1,
    ensures
        value::val(b_mag@) == 0 ==> res is None,
        value::val(b_mag@) != 0 ==> fits_symmetric(
            res,
            a_neg != b_neg,
            rounding::round_mag(
                value::val(a_mag@) * pow10::p10(DIGITS),
                value::val(b_mag@),
                a_neg != b_neg,
                mode,
            ),
        ),
{
    if is_zero(b_mag) {
        return None;
    }
    let neg: bool = a_neg != b_neg;
    // Two-limb operands take the narrow core; its `None` only means that the
    // quotient overflows two limbs, so it falls through.
    if W > 2 && is_zero(&a_mag[2..W]) && is_zero(&b_mag[2..W]) {
        let a2: [u64; 2] = [a_mag[0], a_mag[1]];
        let b2: [u64; 2] = [b_mag[0], b_mag[1]];
        proof {
            lemma_two_limbs(a_mag@, a2@);
            lemma_two_limbs(b_mag@, b2@);
            value::lemma_bpow_mono(2, W as nat);
        }
        if let Some((n2, m2)) = dec_div_core::<DIGITS, 2, 3>(neg, &a2, &b2, mode) {
            return Some((n2, widen_limbs::<W>(&m2)));
        }
    }
    dec_div_core::<DIGITS, W, WP1>(neg, a_mag, b_mag, mode)
}

/// The two low limbs alone carry the value where the others are zero.
proof fn lemma_two_limbs(s: Seq<u64>, t: Seq<u64>)
    requires
        s.len() >= 2,
        value::all_zero(s.subrange(2, s.len() as int)),
        t =~= seq![s[0], s[1]],
    ensures
        value::val(t) == value::val(s),
{
    assert(s.subrange(2, s.len() as int) =~= s.skip(2));
    assert(t =~= s.take(2));
    value::lemma_val_high_zero(s, 2);
}

} // verus!
