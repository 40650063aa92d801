//! What rounded numbers, powers and rescaled mantissas are, as relations between
//! their inputs and results.

use crate::decimal64;
use crate::decimal128;
use crate::error::AmountErrorKind;
use crate::i256;
use crate::laws;
use crate::parts;
use crate::pow10;
use crate::rounding;
use crate::rounding::Rounding;
use crate::value;
use vstd::arithmetic::div_mod;
use vstd::arithmetic::power;
use vstd::arithmetic::power2;
use vstd::prelude::*;

verus! {

/// `r` is the fraction `n / d` rounded: it is less than one away, `Down` never
/// above and `Up` never below; the half modes are at most a half away, and take
/// a tie to an even number, away from zero or toward zero.
pub open spec fn rounds_to(n: int, d: int, mode: Rounding, r: int) -> bool {
    let e: int = r * d - n;
    &&& -d < e < d
    &&& match mode {
        Rounding::Down => e <= 0,
        Rounding::Up => e >= 0,
        Rounding::HalfEven => -d <= 2 * e <= d && (2 * e == d || 2 * e == -d ==> r % 2 == 0),
        Rounding::HalfUp => -d <= 2 * e <= d && (2 * e == d ==> n > 0) && (2 * e == -d ==> n < 0),
        Rounding::HalfDown => -d <= 2 * e <= d && (2 * e == d ==> n < 0) && (2 * e == -d ==> n
            > 0),
    }
}

/// **A fraction rounds to one number.** No two numbers are the same fraction
/// rounded in the same mode.
pub proof fn rounding_is_unique(n: int, d: int, mode: Rounding, r: int, q: int)
    requires
        d > 0,
        rounds_to(n, d, mode, r),
        rounds_to(n, d, mode, q),
    ensures
        r == q,
{
    let k: int = r - q;
    assert(r * d - q * d == k * d) by (nonlinear_arith)
        requires
            k == r - q,
    ;
    assert(k >= 2 ==> k * d >= 2 * d) by (nonlinear_arith)
        requires
            d > 0,
    ;
    assert(k <= -2 ==> k * d <= -2 * d) by (nonlinear_arith)
        requires
            d > 0,
    ;
    assert(k == 1 ==> k * d == d) by (nonlinear_arith);
    assert(k == -1 ==> k * d == -d) by (nonlinear_arith);
}

/// **Rounded division** by a positive number of units.
pub proof fn division_rounds(n: int, d: nat, mode: Rounding)
    requires
        d > 0,
    ensures
        rounds_to(n, d as int, mode, rounding::round_div(n, d, mode)),
{
    let k: int = n / d as int;
    laws::lemma_round_by_remainder(n, d, mode);
    div_mod::lemma_fundamental_div_mod(n, d as int);
    div_mod::lemma_mod_bound(n, d as int);
    assert(k * d == d * k) by (nonlinear_arith);
    assert((k + 1) * d == d * k + d) by (nonlinear_arith);
    if n == 0 {
        div_mod::lemma_fundamental_div_mod_converse(0, d as int, 0, 0);
    }
}

/// **Products.** The product of two decimals is the exact product of their
/// backing integers over one scale, rounded once.
pub proof fn product_rounds(a: int, b: int, digits: u8, mode: Rounding)
    ensures
        rounds_to(
            a * b,
            power::pow(10, digits as nat),
            mode,
            rounding::product(a, b, digits, mode),
        ),
{
    powers_of_ten(digits as nat);
    pow10::lemma_pow10_pos(digits as nat);
    division_rounds(a * b, pow10::p10(digits), mode);
}

/// **Division by an integer.** The quotient of two integers is their exact
/// fraction, rounded once; a negative divisor negates both.
pub proof fn int_quotient_rounds(a: int, b: int, mode: Rounding)
    requires
        b != 0,
    ensures
        b > 0 ==> rounds_to(a, b, mode, rounding::round_quot(a, b, mode)),
        b < 0 ==> rounds_to(-a, -b, mode, rounding::round_quot(a, b, mode)),
{
    let d: nat = rounding::mag_of(b);
    rounding::lemma_round_zero(d, true, mode);
    rounding::lemma_round_zero(d, false, mode);
    if b > 0 {
        division_rounds(a, d, mode);
    } else {
        division_rounds(-a, d, mode);
    }
}

/// **Quotients.** The quotient of two decimals is the exact fraction of their
/// backing integers at one scale, rounded once.
pub proof fn quotient_rounds(a: int, b: int, digits: u8, mode: Rounding)
    requires
        b != 0,
    ensures
        ({
            let s: int = power::pow(10, digits as nat);
            let r: int = rounding::quotient(a, b, digits, mode);
            &&& b > 0 ==> rounds_to(a * s, b, mode, r)
            &&& b < 0 ==> rounds_to(-(a * s), -b, mode, r)
        }),
{
    powers_of_ten(digits as nat);
    int_quotient_rounds(a * pow10::p10(digits), b, mode);
}

/// **Powers of ten.** The scales are the powers of ten of their digit counts,
/// where these fit the word they are kept in.
pub proof fn powers_of_ten(n: nat)
    ensures
        pow10::pow10(n) == power::pow(10, n),
    decreases n,
{
    reveal(power::pow);
    if n > 0 {
        powers_of_ten((n - 1) as nat);
    }
}

/// **Scales.** One is stored as the power of ten of the digit count, up to 18
/// digits in an `i64` and up to 19 in the wide types; beyond these nothing is.
pub proof fn scales_are_powers(digits: u8, e: int)
    ensures
        pow10::p10(digits) == power::pow(10, digits as nat),
        digits <= 18 ==> decimal64::scale64(digits) == power::pow(
            10,
            digits as nat,
        ),
        digits > 18 ==> decimal64::scale64(digits) == 0,
        digits <= 19 ==> pow10::wide_scale(digits) == power::pow(
            10,
            digits as nat,
        ),
        digits > 19 ==> pow10::wide_scale(digits) == 0,
        0 <= e <= 18 ==> pow10::ipow10_spec(e) == power::pow(10, e as nat),
        e < 0 ==> pow10::ipow10_spec(e) == 1,
        e > 18 ==> pow10::ipow10_spec(e) == 0,
{
    powers_of_ten(digits as nat);
    power::lemma_pow0(10);
    if e >= 0 {
        powers_of_ten(e as nat);
    }
}

/// **Ranges.** The bounds of the backings are powers of two, and being within a
/// bound is symmetric.
pub proof fn ranges_are_powers_of_two(v: int, bound: int, w: nat)
    ensures
        decimal64::two63() == power2::pow2(63),
        decimal128::two127() == power2::pow2(127),
        i256::two255() == power2::pow2(255),
        i256::two128() == power2::pow2(128),
        value::bpow(w) == power2::pow2(64 * w),
        rounding::within(v, bound) <==> v < bound && -v < bound,
    decreases w,
{
    power2::lemma2_to64();
    power2::lemma2_to64_rest();
    power2::lemma_pow2_adds(64, 63);
    power2::lemma_pow2_adds(64, 64);
    power2::lemma_pow2_adds(128, 127);
    let x: int = power2::pow2(127) as int;
    let y: int = power2::pow2(128) as int;
    assert(y * x == i256::two255()) by (nonlinear_arith)
        requires
            x == 0x8000_0000_0000_0000_0000_0000_0000_0000int,
            y == 0x1_0000_0000_0000_0000_0000_0000_0000_0000int,
    ;
    if w > 0 {
        ranges_are_powers_of_two(v, bound, (w - 1) as nat);
        power2::lemma_pow2_adds(64, (64 * (w - 1)) as nat);
    }
}

/// **Powers, step by step.** Starting from `acc`, the zeroth power is `acc` and
/// the first is one product. An even power is half that power of the square, an
/// odd one the same after one more product. There is none exactly where one of
/// these products leaves the range.
pub proof fn powers_double(a: int, acc: int, k: nat, digits: u8, bound: int)
    requires
        k > 0,
    ensures
        ({
            let sq: int = rounding::product(a, a, digits, Rounding::HalfUp);
            let next: int = rounding::product(a, acc, digits, Rounding::HalfUp);
            &&& rounding::power(a, acc, 0, digits, bound) == Some(acc)
            &&& rounding::power(a, acc, 1, digits, bound) == (if -bound < next < bound {
                Some(next)
            } else {
                None::<int>
            })
            &&& -bound < acc < bound && -bound < sq < bound ==> rounding::power(
                a,
                acc,
                2 * k,
                digits,
                bound,
            ) == rounding::power(sq, acc, k, digits, bound)
            &&& -bound < next < bound && -bound < sq < bound ==> rounding::power(
                a,
                acc,
                2 * k + 1,
                digits,
                bound,
            ) == rounding::power(sq, next, k, digits, bound)
            &&& !(-bound < acc < bound && -bound < sq < bound) ==> rounding::power(
                a,
                acc,
                2 * k,
                digits,
                bound,
            ) is None
            &&& !(-bound < next < bound && -bound < sq < bound) ==> rounding::power(
                a,
                acc,
                2 * k + 1,
                digits,
                bound,
            ) is None
        }),
{
    assert((2 * k) % 2 == 0 && (2 * k) / 2 == k);
    assert((2 * k + 1) % 2 == 1 && (2 * k + 1) / 2 == k);
}

/// **The third power** is the value times its square, each product rounded half
/// up.
pub proof fn cube_is_two_products(a: int, digits: u8, bound: int)
    requires
        rounding::within(a, bound),
        rounding::within(rounding::product(a, a, digits, Rounding::HalfUp), bound),
    ensures
        ({
            let sq: int = rounding::product(a, a, digits, Rounding::HalfUp);
            let cube: int = rounding::product(sq, a, digits, Rounding::HalfUp);
            rounding::power(a, power::pow(10, digits as nat), 3, digits, bound) == (if -bound
                < cube < bound {
                Some(cube)
            } else {
                None::<int>
            })
        }),
{
    powers_of_ten(digits as nat);
    laws::one_is_neutral(a, digits, Rounding::HalfUp);
    powers_double(a, pow10::p10(digits) as int, 1, digits, bound);
    powers_double(
        rounding::product(a, a, digits, Rounding::HalfUp),
        a,
        1,
        digits,
        bound,
    );
}

/// **Powers of whole numbers are exact.** Where no digit is lost, the power of
/// a decimal is the power of its value: `b` raised to `n`, as long as that is in
/// range.
pub proof fn whole_powers_are_exact(b: int, n: nat, digits: u8, bound: int)
    requires
        b != 0,
        -bound < power::pow(b, n) * power::pow(10, digits as nat) < bound,
    ensures
        rounding::power(
            b * power::pow(10, digits as nat),
            power::pow(10, digits as nat),
            n,
            digits,
            bound,
        ) == Some(power::pow(b, n) * power::pow(10, digits as nat)),
{
    powers_of_ten(digits as nat);
    pow10::lemma_pow10_pos(digits as nat);
    let s: int = pow10::p10(digits) as int;
    assert(1 * power::pow(b, n) == power::pow(b, n));
    assert(1 * s == s);
    lemma_whole_power(b, 1, n, digits, bound);
}

/// The product of two whole numbers, each times the scale, is exact.
proof fn lemma_whole_product(x: int, y: int, digits: u8)
    ensures
        rounding::product(
            x * pow10::p10(digits),
            y * pow10::p10(digits),
            digits,
            Rounding::HalfUp,
        ) == (x * y) * pow10::p10(digits),
{
    let s: int = pow10::p10(digits) as int;
    pow10::lemma_pow10_pos(digits as nat);
    assert((x * s) * (y * s) == ((x * y) * s) * s) by (nonlinear_arith);
    laws::whole_values_stay((x * y) * s, pow10::p10(digits), Rounding::HalfUp);
}

/// A factor that is not zero does not shrink a magnitude.
proof fn lemma_factor_grows(x: int, y: int)
    requires
        y != 0,
    ensures
        rounding::mag_of(x) <= rounding::mag_of(x * y),
        x != 0 ==> x * y != 0,
{
    assert(x >= 0 && y >= 1 ==> x * y >= x) by (nonlinear_arith);
    assert(x >= 0 && y <= -1 ==> x * y <= -x) by (nonlinear_arith);
    assert(x <= 0 && y >= 1 ==> x * y <= x) by (nonlinear_arith);
    assert(x <= 0 && y <= -1 ==> x * y >= -x) by (nonlinear_arith);
}

/// A power of a number that is not zero is not zero.
proof fn lemma_pow_nonzero(b: int, n: nat)
    requires
        b != 0,
    ensures
        power::pow(b, n) != 0,
    decreases n,
{
    reveal(power::pow);
    if n > 0 {
        lemma_pow_nonzero(b, (n - 1) as nat);
        lemma_factor_grows(b, power::pow(b, (n - 1) as nat));
    }
}

/// Scaling keeps magnitudes in order.
proof fn lemma_scaled_within(x: int, y: int, s: int, bound: int)
    requires
        s > 0,
        rounding::mag_of(x) <= rounding::mag_of(y),
        -bound < y * s < bound,
    ensures
        rounding::within(x * s, bound),
{
    let m: int = rounding::mag_of(y) as int;
    assert(x <= m ==> x * s <= m * s) by (nonlinear_arith)
        requires
            s > 0,
    ;
    assert(x >= -m ==> x * s >= -(m * s)) by (nonlinear_arith)
        requires
            s > 0,
    ;
    assert((-m) * s == -(m * s)) by (nonlinear_arith);
}

/// A power of a whole number from a whole accumulator.
proof fn lemma_whole_power(b: int, acc: int, n: nat, digits: u8, bound: int)
    requires
        b != 0,
        acc != 0,
        -bound < (acc * power::pow(b, n)) * pow10::p10(digits) < bound,
    ensures
        rounding::power(
            b * pow10::p10(digits),
            acc * pow10::p10(digits),
            n,
            digits,
            bound,
        ) == Some((acc * power::pow(b, n)) * pow10::p10(digits)),
    decreases n,
{
    let s: int = pow10::p10(digits) as int;
    let goal: int = acc * power::pow(b, n);
    pow10::lemma_pow10_pos(digits as nat);
    if n == 0 {
        power::lemma_pow0(b);
        assert(acc * 1 == acc);
    } else {
        let k: nat = n / 2;
        let sq: int = b * b;
        let next: int = if n % 2 == 1 {
            b * acc
        } else {
            acc
        };
        lemma_whole_product(b, acc, digits);
        lemma_whole_product(b, b, digits);
        power::lemma_pow1(b);
        lemma_pow_nonzero(b, (n - 1) as nat);
        power::lemma_pow_adds(b, 1, (n - 1) as nat);
        assert(goal == (b * acc) * power::pow(b, (n - 1) as nat)) by (nonlinear_arith)
            requires
                goal == acc * power::pow(b, n),
                power::pow(b, n) == b * power::pow(b, (n - 1) as nat),
        ;
        lemma_factor_grows(b * acc, power::pow(b, (n - 1) as nat));
        lemma_factor_grows(acc, b);
        assert(acc * b == b * acc) by (nonlinear_arith);
        lemma_scaled_within(next, goal, s, bound);
        if n == 1 {
            power::lemma_pow0(b);
            assert((b * acc) * 1 == b * acc);
        } else {
            power::lemma_pow_adds(b, 2, (n - 2) as nat);
            power::lemma_pow_adds(b, 1, 1);
            lemma_pow_nonzero(b, (n - 2) as nat);
            let h: int = acc * power::pow(b, (n - 2) as nat);
            lemma_factor_grows(acc, power::pow(b, (n - 2) as nat));
            assert(goal == sq * h) by (nonlinear_arith)
                requires
                    goal == acc * power::pow(b, n),
                    power::pow(b, n) == sq * power::pow(b, (n - 2) as nat),
                    h == acc * power::pow(b, (n - 2) as nat),
            ;
            lemma_factor_grows(sq, h);
            lemma_scaled_within(sq, goal, s, bound);
            power::lemma_pow_multiplies(b, 2, k);
            assert(next * power::pow(sq, k) == goal) by {
                if n % 2 == 1 {
                    assert(n - 1 == 2 * k);
                } else {
                    assert(n == 2 * k);
                }
            }
            lemma_factor_grows(b, b);
            lemma_factor_grows(b, acc);
            lemma_whole_power(sq, next, k, digits, bound);
        }
    }
}

/// **Powers of zero** are zero.
pub proof fn zero_powers_are_zero(acc: int, n: nat, digits: u8, bound: int)
    requires
        n > 0,
        rounding::within(acc, bound),
    ensures
        rounding::power(0, acc, n, digits, bound) == Some(0int),
    decreases n,
{
    pow10::lemma_pow10_pos(digits as nat);
    assert(0 * acc == 0);
    laws::whole_values_stay(0, pow10::p10(digits), Rounding::HalfUp);
    assert(0 * pow10::p10(digits) == 0);
    if n > 1 {
        zero_powers_are_zero(
            if n % 2 == 1 {
                0
            } else {
                acc
            },
            n / 2,
            digits,
            bound,
        );
    }
}

/// **Mantissa and exponent, exactly.** A number that stands for `m * 10^shift`
/// is given back where it is in range and is an overflow where it is not. Only
/// where there is no such number are digits lost.
pub proof fn exact_parts_are_exact(m: int, shift: int, lo: int, hi: int, v: int)
    ensures
        ({
            let up: int = power::pow(
                10,
                if shift > 0 {
                    shift as nat
                } else {
                    0
                },
            );
            let down: int = power::pow(
                10,
                if shift < 0 {
                    (-shift) as nat
                } else {
                    0
                },
            );
            let r: Result<int, AmountErrorKind> = parts::exact_parts(m, shift, lo, hi);
            &&& v * down == m * up && lo <= v <= hi ==> r == Ok::<int, AmountErrorKind>(v)
            &&& v * down == m * up && !(lo <= v <= hi) ==> r == Err::<int, AmountErrorKind>(
                AmountErrorKind::Overflow,
            )
            &&& r == Ok::<int, AmountErrorKind>(v) ==> v * down == m * up && lo <= v <= hi
            &&& r == Err::<int, AmountErrorKind>(AmountErrorKind::Inexact) <==> shift < 0 && m
                % down != 0
            &&& r is Err ==> r == Err::<int, AmountErrorKind>(AmountErrorKind::Inexact) || r
                == Err::<int, AmountErrorKind>(AmountErrorKind::Overflow)
        }),
{
    power::lemma_pow0(10);
    assert(v * 1 == v);
    assert(m * 1 == m);
    if shift >= 0 {
        powers_of_ten(shift as nat);
    } else {
        let d: int = pow10::pow10(-shift as nat) as int;
        powers_of_ten(-shift as nat);
        pow10::lemma_pow10_pos(-shift as nat);
        div_mod::lemma_fundamental_div_mod(m, d);
        div_mod::lemma_mod_bound(m, d);
        assert(d * (m / d) == (m / d) * d) by (nonlinear_arith);
        if v * d == m {
            assert(v * d == d * v) by (nonlinear_arith);
            div_mod::lemma_fundamental_div_mod_converse(m, d, v, 0);
        }
    }
}

/// **Mantissa and exponent, rounded.** The result is the number that
/// `m * 10^shift` is, its magnitude rounded where digits are dropped; it is an
/// overflow exactly where that number is out of range.
pub proof fn rounded_parts_are_rounded(
    m: int,
    shift: int,
    mode: Rounding,
    lo: int,
    hi: int,
    v: int,
)
    ensures
        ({
            let up: int = power::pow(10, shift as nat);
            let down: int = power::pow(10, (-shift) as nat);
            let right: bool = if shift >= 0 {
                v == m * up
            } else if m >= 0 {
                rounds_to(m, down, mode, v)
            } else {
                rounds_to(-m, down, mode, -v)
            };
            let r: Result<int, AmountErrorKind> = parts::rounded_parts(m, shift, mode, lo, hi);
            &&& right && lo <= v <= hi ==> r == Ok::<int, AmountErrorKind>(v)
            &&& right && !(lo <= v <= hi) ==> r == Err::<int, AmountErrorKind>(
                AmountErrorKind::Overflow,
            )
            &&& r == Ok::<int, AmountErrorKind>(v) ==> right && lo <= v <= hi
            &&& r is Err ==> r == Err::<int, AmountErrorKind>(AmountErrorKind::Overflow)
        }),
{
    if shift >= 0 {
        powers_of_ten(shift as nat);
    } else {
        let d: nat = pow10::pow10(-shift as nat);
        powers_of_ten(-shift as nat);
        pow10::lemma_pow10_pos(-shift as nat);
        let n: nat = rounding::mag_of(m);
        let q: int = rounding::round_mag(n, d, false, mode) as int;
        division_rounds(n as int, d, mode);
        assert(rounding::round_div(n as int, d, mode) == q);
        if m >= 0 {
            if rounds_to(m, d as int, mode, v) {
                rounding_is_unique(m, d as int, mode, v, q);
            }
        } else {
            if rounds_to(-m, d as int, mode, -v) {
                rounding_is_unique(-m, d as int, mode, -v, q);
            }
        }
    }
}

/// **Sign and magnitude.** A number is its magnitude with its sign, and no
/// magnitude is negative.
pub proof fn signs_and_magnitudes(x: int, m: nat)
    ensures
        x >= 0 ==> rounding::mag_of(x) == x,
        x < 0 ==> rounding::mag_of(x) == -x,
        rounding::signed(x < 0, rounding::mag_of(x)) == x,
        rounding::signed(false, m) == m,
        rounding::signed(true, m) + m == 0,
{
}

} // verus!
