//! Rounding modes and what they do to a quotient.

use crate::limbs::Order;
use vstd::prelude::*;

verus! {

/// `Rounding` represents the different strategies that can be used.
///
/// `Rounding::HalfEven` - Rounds toward the nearest even number, e.g. 5.5 -> 6, 4.5 -> 4
/// `Rounding::HalfUp` - Rounds up if the value >= 5, otherwise rounds down, e.g. 6.5 -> 7 (default),
/// `Rounding::HalfDown` - Rounds down if the value =< 5, otherwise rounds up, e.g.
/// 4.5 -> 4, 4.51 -> 5,  1.4999 -> 1
/// `Rounding::Down` - Always round down.
/// `Rounding::Up` - Always round up.
#[derive(Debug, Clone, Copy, PartialEq, Eq, Structural)]
pub enum Rounding {
    /// Rounds toward the nearest even number, e.g. 5.5 -> 6, 4.5 -> 4
    HalfEven,
    /// Rounds up if the value >= 5, otherwise rounds down, e.g. 6.5 -> 7 (default)
    HalfUp,
    /// Rounds down if the value <= 5, otherwise rounds up, e.g. 4.5 -> 4, 4.51 -> 5
    HalfDown,
    /// Always rounds down.
    Down,
    /// Always rounds up.
    Up,
}

/// Whether a truncated magnitude moves up by one, given the remainder `rem` of
/// the division by `d` that truncated it.
///
/// The half modes compare `2 * rem` against `d`. `Down` and `Up` are
/// directional: flooring a negative value means rounding its magnitude up.
pub open spec fn rounds_up(rem: nat, d: nat, odd: bool, neg: bool, mode: Rounding) -> bool {
    rem != 0 && match mode {
        Rounding::HalfEven => 2 * rem > d || (2 * rem == d && odd),
        Rounding::HalfUp => 2 * rem >= d,
        Rounding::HalfDown => 2 * rem > d,
        Rounding::Down => neg,
        Rounding::Up => !neg,
    }
}

/// The magnitude of `n / d`, rounded once. `neg` is the sign of the value that
/// the magnitude belongs to.
pub open spec fn round_mag(n: nat, d: nat, neg: bool, mode: Rounding) -> nat {
    if rounds_up(n % d, d, (n / d) % 2 == 1, neg, mode) {
        n / d + 1
    } else {
        n / d
    }
}

/// The absolute value.
pub open spec fn mag_of(x: int) -> nat {
    if x < 0 {
        (-x) as nat
    } else {
        x as nat
    }
}

/// The number with a given sign and magnitude.
pub open spec fn signed(neg: bool, mag: nat) -> int {
    if neg {
        -(mag as int)
    } else {
        mag as int
    }
}

/// `n / d` (with `d > 0`), rounded once to an integer.
pub open spec fn round_div(n: int, d: nat, mode: Rounding) -> int {
    signed(n < 0, round_mag(mag_of(n), d, n < 0, mode))
}

/// `a / b` (with `b != 0`), rounded once to an integer.
pub open spec fn round_quot(a: int, b: int, mode: Rounding) -> int {
    let neg: bool = (a < 0) != (b < 0);
    signed(neg, round_mag(mag_of(a), mag_of(b), neg, mode))
}

/// Orders `2 * rem` against `d` without overflow, given `rem < d`.
pub fn order_twice_rem_u64(rem: u64, d: u64) -> (r: Order)
    requires
        rem < d,
    ensures
        r == crate::limbs::order_of((2 * rem) as nat, d as nat),
{
    let other: u64 = d - rem;
    if rem < other {
        Order::Less
    } else if rem > other {
        Order::Greater
    } else {
        Order::Equal
    }
}

/// Decides whether a truncated magnitude should be rounded up, given the
/// ordering of `2 * remainder` against the divisor.
pub fn round_up_by_order(
    twice_rem_vs_div: Order,
    rem_is_zero: bool,
    quo_is_odd: bool,
    is_neg: bool,
    mode: Rounding,
) -> (r: bool)
    ensures
        forall|rem: nat, d: nat|
            #![trigger rounds_up(rem, d, quo_is_odd, is_neg, mode)]
            twice_rem_vs_div == crate::limbs::order_of(2 * rem, d) && rem_is_zero == (rem == 0)
                ==> r == rounds_up(rem, d, quo_is_odd, is_neg, mode),
{
    if rem_is_zero {
        return false;
    }
    match mode {
        Rounding::HalfEven => match twice_rem_vs_div {
            Order::Greater => true,
            Order::Equal => quo_is_odd,
            Order::Less => false,
        },
        Rounding::HalfUp => match twice_rem_vs_div {
            Order::Less => false,
            _ => true,
        },
        Rounding::HalfDown => match twice_rem_vs_div {
            Order::Greater => true,
            _ => false,
        },
        Rounding::Down => is_neg,
        Rounding::Up => !is_neg,
    }
}

/// Adding half the divisor before truncating rounds half away from zero, for a
/// divisor that is even or one.
pub proof fn lemma_half_up_by_adding(n: nat, d: nat, neg: bool)
    requires
        d == 1 || (d > 0 && d % 2 == 0),
    ensures
        (n + d / 2) / d == round_mag(n, d, neg, Rounding::HalfUp),
{
    let q: int = (n / d) as int;
    let r: int = (n % d) as int;
    let h: int = (d / 2) as int;
    vstd::arithmetic::div_mod::lemma_fundamental_div_mod(n as int, d as int);
    vstd::arithmetic::div_mod::lemma_mod_bound(n as int, d as int);
    assert(d * q == q * d) by (nonlinear_arith);
    if r != 0 && 2 * r >= d {
        assert((q + 1) * d == q * d + d) by (nonlinear_arith);
        vstd::arithmetic::div_mod::lemma_fundamental_div_mod_converse(
            n + h,
            d as int,
            q + 1,
            r + h - d,
        );
    } else {
        vstd::arithmetic::div_mod::lemma_fundamental_div_mod_converse(n + h, d as int, q, r + h);
    }
}

/// Quotient and remainder pin the rounded magnitude.
pub proof fn lemma_round_mag_parts(n: nat, d: nat, q: nat, r: nat, neg: bool, mode: Rounding)
    requires
        n == q * d + r,
        r < d,
    ensures
        n / d == q,
        n % d == r,
        round_mag(n, d, neg, mode) == (if rounds_up(r, d, q % 2 == 1, neg, mode) {
            q + 1
        } else {
            q
        }),
{
    assert(q * d == d * q) by (nonlinear_arith);
    vstd::arithmetic::div_mod::lemma_fundamental_div_mod_converse(
        n as int,
        d as int,
        q as int,
        r as int,
    );
}

/// `n / d` with its fraction cut off.
pub open spec fn trunc_div(n: int, d: nat) -> int {
    signed(n < 0, mag_of(n) / d)
}

/// What cutting off the fraction of `n / d` leaves over; it has the sign of `n`.
pub open spec fn trunc_rem(n: int, d: nat) -> int {
    signed(n < 0, mag_of(n) % d)
}

/// The product of two numbers, the second at `digits` fractional digits,
/// rounded once to the scale of the first.
pub open spec fn product(a: int, b: int, digits: u8, mode: Rounding) -> int {
    round_div(a * b, crate::pow10::p10(digits), mode)
}

/// The quotient of two numbers of one scale, rounded once to `digits`
/// fractional digits.
pub open spec fn quotient(a: int, b: int, digits: u8, mode: Rounding) -> int {
    round_quot(a * crate::pow10::p10(digits), b, mode)
}

/// Strictly inside the symmetric range around zero.
pub open spec fn within(v: int, bound: int) -> bool {
    -bound < v < bound
}

/// Rounding a zero changes nothing.
pub proof fn lemma_round_zero(d: nat, neg: bool, mode: Rounding)
    requires
        d > 0,
    ensures
        round_mag(0, d, neg, mode) == 0,
{
    vstd::arithmetic::div_mod::lemma_fundamental_div_mod_converse(0, d as int, 0, 0);
}

/// A product seen through signs and magnitudes.
pub proof fn lemma_product_parts(a: int, b: int, digits: u8, mode: Rounding)
    ensures
        ({
            let neg: bool = (a < 0) != (b < 0);
            product(a, b, digits, mode) == signed(
                neg,
                round_mag(mag_of(a) * mag_of(b), crate::pow10::p10(digits), neg, mode),
            )
        }),
{
    let neg: bool = (a < 0) != (b < 0);
    let d: nat = crate::pow10::p10(digits);
    crate::pow10::lemma_pow10_pos(digits as nat);
    lemma_round_zero(d, true, mode);
    lemma_round_zero(d, false, mode);
    let x: int = mag_of(a) as int;
    let y: int = mag_of(b) as int;
    assert((-x) * y == -(x * y)) by (nonlinear_arith);
    assert(x * (-y) == -(x * y)) by (nonlinear_arith);
    assert((-x) * (-y) == x * y) by (nonlinear_arith);
    assert(x * y >= 0) by (nonlinear_arith)
        requires
            x >= 0,
            y >= 0,
    ;
    assert(a * b == (if neg {
        -(x * y)
    } else {
        x * y
    }));
    assert(mag_of(a * b) == mag_of(a) * mag_of(b));
    if x * y != 0 {
        assert(neg == (a * b < 0));
    } else {
        assert(a * b == 0);
    }
}

/// A quotient seen through signs and magnitudes.
pub proof fn lemma_quotient_parts(a: int, b: int, digits: u8, mode: Rounding)
    ensures
        ({
            let neg: bool = (a < 0) != (b < 0);
            quotient(a, b, digits, mode) == signed(
                neg,
                round_mag(mag_of(a) * crate::pow10::p10(digits), mag_of(b), neg, mode),
            )
        }),
{
    let d: int = crate::pow10::p10(digits) as int;
    crate::pow10::lemma_pow10_pos(digits as nat);
    let x: int = mag_of(a) as int;
    assert((-x) * d == -(x * d)) by (nonlinear_arith);
    assert(x * d >= 0) by (nonlinear_arith)
        requires
            x >= 0,
            d >= 0,
    ;
    if x > 0 {
        assert(x * d > 0) by (nonlinear_arith)
            requires
                x > 0,
                d > 0,
        ;
    }
    assert(mag_of(a * d) == mag_of(a) * crate::pow10::p10(digits));
    assert((a * d < 0) == (a < 0));
}

/// Rounding down is flooring.
pub proof fn lemma_round_down(n: int, d: nat)
    requires
        d > 0,
    ensures
        round_div(n, d, Rounding::Down) == n / d as int,
{
    let m: int = mag_of(n) as int;
    let q: int = m / d as int;
    let r: int = m % d as int;
    vstd::arithmetic::div_mod::lemma_fundamental_div_mod(m, d as int);
    vstd::arithmetic::div_mod::lemma_mod_bound(m, d as int);
    if n < 0 {
        assert(d * (-q) == -(d * q)) by (nonlinear_arith);
        assert(d * (-q - 1) == -(d * q) - d) by (nonlinear_arith);
        assert((-q) * d == d * (-q)) by (nonlinear_arith);
        assert((-q - 1) * d == d * (-q - 1)) by (nonlinear_arith);
        if r == 0 {
            vstd::arithmetic::div_mod::lemma_fundamental_div_mod_converse(n, d as int, -q, 0);
        } else {
            vstd::arithmetic::div_mod::lemma_fundamental_div_mod_converse(
                n,
                d as int,
                -q - 1,
                d - r,
            );
        }
    }
}

/// Rounding is the mirror image on the other side of zero, with the directed
/// modes exchanged.
pub proof fn lemma_round_mirror(n: int, d: nat, mode: Rounding)
    requires
        d > 0,
    ensures
        round_div(-n, d, mode) == -round_div(n, d, mirrored(mode)),
{
    lemma_round_zero(d, false, mode);
    lemma_round_zero(d, false, mirrored(mode));
    if n == 0 {
        vstd::arithmetic::div_mod::lemma_fundamental_div_mod_converse(0, d as int, 0, 0);
    }
}

/// The mode that does on one side of zero what `mode` does on the other.
pub open spec fn mirrored(mode: Rounding) -> Rounding {
    match mode {
        Rounding::Down => Rounding::Up,
        Rounding::Up => Rounding::Down,
        m => m,
    }
}

/// Rounding up is the ceiling.
pub proof fn lemma_round_up(n: int, d: nat)
    requires
        d > 0,
    ensures
        round_div(n, d, Rounding::Up) == -((-n) / d as int),
{
    lemma_round_mirror(-n, d, Rounding::Up);
    lemma_round_down(-n, d);
}

/// A rounded number of whole units is less than one unit away.
pub proof fn lemma_round_close(n: int, d: nat, mode: Rounding)
    requires
        d > 0,
    ensures
        n - d < round_div(n, d, mode) * d < n + d,
        n % d as int == 0 ==> round_div(n, d, mode) * d == n,
{
    let m: int = mag_of(n) as int;
    let q: int = m / d as int;
    let r: int = m % d as int;
    vstd::arithmetic::div_mod::lemma_fundamental_div_mod(m, d as int);
    vstd::arithmetic::div_mod::lemma_mod_bound(m, d as int);
    assert(d * q == q * d) by (nonlinear_arith);
    assert((q + 1) * d == q * d + d) by (nonlinear_arith);
    assert((-q) * d == -(q * d)) by (nonlinear_arith);
    assert((-(q + 1)) * d == -((q + 1) * d)) by (nonlinear_arith);
    if n % d as int == 0 && n < 0 {
        let k: int = n / d as int;
        vstd::arithmetic::div_mod::lemma_fundamental_div_mod(n, d as int);
        assert(m == (-k) * d) by {
            assert((-k) * d == -(d * k)) by (nonlinear_arith);
        }
        vstd::arithmetic::div_mod::lemma_mod_multiples_basic(-k, d as int);
    }
}

/// Raising to a power by squaring, each product rounded half up: `None` where
/// a product leaves the symmetric range.
pub open spec fn power(base: int, acc: int, exp: nat, digits: u8, bound: int) -> Option<int>
    decreases exp,
{
    if exp == 0 {
        Some(acc)
    } else {
        let next: int = if exp % 2 == 1 {
            product(base, acc, digits, Rounding::HalfUp)
        } else {
            acc
        };
        let square: int = product(base, base, digits, Rounding::HalfUp);
        if !within(next, bound) {
            None
        } else if exp == 1 {
            Some(next)
        } else if !within(square, bound) {
            None
        } else {
            power(square, next, exp / 2, digits, bound)
        }
    }
}

/// Cutting off the fraction: what is kept and what is left over add up, and
/// neither is larger than the whole.
pub proof fn lemma_trunc_parts(n: int, d: nat)
    requires
        d > 0,
    ensures
        n == trunc_div(n, d) * d + trunc_rem(n, d),
        mag_of(trunc_div(n, d)) <= mag_of(n),
        mag_of(trunc_rem(n, d)) <= mag_of(n),
        mag_of(trunc_rem(n, d)) < d,
        n < 0 ==> trunc_div(n, d) <= 0 && trunc_rem(n, d) <= 0,
        n >= 0 ==> trunc_div(n, d) >= 0 && trunc_rem(n, d) >= 0,
        mag_of(n) / d <= mag_of(n),
        mag_of(n) % d <= mag_of(n),
{
    let m: int = mag_of(n) as int;
    let q: int = m / d as int;
    vstd::arithmetic::div_mod::lemma_fundamental_div_mod(m, d as int);
    vstd::arithmetic::div_mod::lemma_mod_bound(m, d as int);
    assert(d * q == q * d) by (nonlinear_arith);
    assert((-q) * d == -(q * d)) by (nonlinear_arith);
    assert(q * d >= q) by (nonlinear_arith)
        requires
            q >= 0,
            d >= 1,
    ;
    assert(q >= 0) by {
        vstd::arithmetic::div_mod::lemma_div_pos_is_pos(m, d as int);
    }
}

/// Floor and ceiling enclose a number, each less than one unit away.
pub proof fn lemma_floor_ceil(n: int, d: nat)
    requires
        d > 0,
    ensures
        n / d as int * d <= n < n / d as int * d + d,
        n <= -((-n) / d as int) * d < n + d,
{
    let q: int = n / d as int;
    let c: int = (-n) / d as int;
    vstd::arithmetic::div_mod::lemma_fundamental_div_mod(n, d as int);
    vstd::arithmetic::div_mod::lemma_mod_bound(n, d as int);
    vstd::arithmetic::div_mod::lemma_fundamental_div_mod(-n, d as int);
    vstd::arithmetic::div_mod::lemma_mod_bound(-n, d as int);
    assert(d * q == q * d) by (nonlinear_arith);
    assert((-c) * d == -(d * c)) by (nonlinear_arith);
}

/// A rounded quotient by a whole number is no larger than the dividend.
pub proof fn lemma_quot_bound(m: nat, d: nat, neg: bool, mode: Rounding)
    requires
        d > 0,
    ensures
        round_mag(m, d, neg, mode) <= m,
        d >= 2 ==> 2 * (m / d) <= m,
        m / d <= m,
        d >= 2 && m > 0 ==> m / d < m,
        d == 1 ==> m % d == 0,
{
    let q: int = (m / d) as int;
    vstd::arithmetic::div_mod::lemma_fundamental_div_mod(m as int, d as int);
    vstd::arithmetic::div_mod::lemma_mod_bound(m as int, d as int);
    vstd::arithmetic::div_mod::lemma_div_pos_is_pos(m as int, d as int);
    assert(d >= 2 ==> d * q >= 2 * q) by (nonlinear_arith)
        requires
            q >= 0,
    ;
    assert(d >= 1 ==> d * q >= q) by (nonlinear_arith)
        requires
            q >= 0,
    ;
}

} // verus!
