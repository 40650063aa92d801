//! What holds across the operations of the library.

use crate::bytes;
use crate::decimal128;
use crate::decimal128::Decimal128;
use crate::decimal256;
use crate::decimal256::Decimal256;
use crate::decimal64;
use crate::decimal64::Decimal;
use crate::error::AmountErrorKind;
use crate::i256::I256;
use crate::parse;
use crate::parts;
use crate::pow10;
use crate::render;
use crate::render::AmountSign;
use crate::rounding;
use crate::rounding::Rounding;
use crate::text;
use crate::value;
use vstd::prelude::*;

verus! {

/// The digits that text without leading zeros is made of.
proof fn lemma_digits_plain(n: nat)
    ensures
        text::is_plain(render::dec_digits(n)),
        text::digits_value(render::dec_digits(n)) == n,
        text::digit_count(render::dec_digits(n)) == render::dec_digits(n).len(),
        text::frac_count(render::dec_digits(n)) == 0,
        !text::has_point(render::dec_digits(n)),
    decreases n,
{
    let t: Seq<u8> = render::dec_digits(n);
    let k: int = t.len() - 1;
    if n < 10 {
        assert(t.drop_last() =~= Seq::<u8>::empty());
        assert(t.take(0) =~= Seq::<u8>::empty());
        assert(t.take(1) =~= t);
        assert(!text::has_point(t.take(0)));
        text::lemma_step(t, 0);
    } else {
        lemma_digits_plain(n / 10);
        render::lemma_dec_digits(n);
        assert(t.drop_last() =~= render::dec_digits(n / 10));
        assert(t.take(k) =~= render::dec_digits(n / 10));
        assert(t.take(k + 1) =~= t);
        text::lemma_step(t, k);
    }
}

/// Appending digits to text that is plain so far.
proof fn lemma_append_digits(b: Seq<u8>, n: nat, k: nat)
    requires
        text::is_plain(b),
    ensures
        ({
            let t: Seq<u8> = b + render::fixed_digits(n, k);
            &&& text::is_plain(t)
            &&& text::digits_value(t) == text::digits_value(b) * pow10::pow10(k) + n
                % pow10::pow10(k)
            &&& text::digit_count(t) == text::digit_count(b) + k
            &&& text::has_point(t) <==> text::has_point(b)
            &&& text::frac_count(t) == text::frac_count(b) + (if text::has_point(b) {
                k
            } else {
                0
            })
        }),
    decreases k,
{
    let d: Seq<u8> = render::fixed_digits(n, k);
    let t: Seq<u8> = b + d;
    let v: int = text::digits_value(b) as int;
    if k == 0 {
        assert(t =~= b);
        assert(pow10::pow10(0) == 1);
        assert(v * 1 == v);
        assert(n % 1 == 0);
    } else {
        let j: nat = (k - 1) as nat;
        let h: nat = n / 10;
        lemma_append_digits(b, h, j);
        render::lemma_fixed_digits(n, k);
        render::lemma_fixed_digits(h, j);
        let m: int = t.len() - 1;
        assert(t.take(m) =~= b + render::fixed_digits(h, j));
        assert(t.take(m + 1) =~= t);
        text::lemma_step(t, m);
        let p: int = pow10::pow10(j) as int;
        pow10::lemma_pow10_pos(j);
        assert(pow10::pow10(k) == 10 * p);
        assert(10 * (v * p) == v * (10 * p)) by (nonlinear_arith);
        assert(10 * (h as int % p) + n % 10 == n as int % (10 * p)) by {
            let x: int = n as int;
            vstd::arithmetic::div_mod::lemma_breakdown(x, 10, p);
        }
    }
}

/// Text with a fixed number of fractional digits denotes its number.
pub proof fn lemma_plain_text(x: nat, f: nat)
    ensures
        text::is_plain(render::plain_text(x, f)),
        text::digits_value(render::plain_text(x, f)) == x,
        text::frac_count(render::plain_text(x, f)) == f,
        text::digit_count(render::plain_text(x, f)) > 0,
        render::plain_text(x, f).len() > 0,
        text::is_digit(render::plain_text(x, f)[0]),
        render::is_ascii(render::plain_text(x, f)),
{
    let t: Seq<u8> = render::plain_text(x, f);
    let p: nat = pow10::pow10(f);
    let i: nat = if f == 0 {
        x
    } else {
        x / p
    };
    let a: Seq<u8> = render::dec_digits(i);
    lemma_digits_plain(i);
    render::lemma_dec_digits(i);
    render::lemma_fixed_digits(x, f);
    assert(a[0] == render::ascii(render::digit_at(i, (a.len() - 1) as nat)));
    if f > 0 {
        let b: Seq<u8> = a + seq![0x2eu8];
        let k: int = a.len() as int;
        assert(b.take(k) =~= a);
        assert(b.take(k + 1) =~= b);
        text::lemma_step(b, k);
        lemma_append_digits(b, x, f);
        assert(t =~= b + render::fixed_digits(x, f));
        pow10::lemma_pow10_pos(f);
        vstd::arithmetic::div_mod::lemma_fundamental_div_mod(x as int, p as int);
        assert(p * i == i * p) by (nonlinear_arith);
    }
    render::lemma_plain_ascii(x, f);
}

/// Trimming keeps the number.
pub proof fn lemma_trim_value(n: nat, f: nat)
    ensures
        render::trim(n, f).1 <= f,
        render::trim(n, f).0 * pow10::pow10((f - render::trim(n, f).1) as nat) == n,
    decreases f,
{
    let x: nat = render::trim(n, f).0;
    let pf: nat = render::trim(n, f).1;
    if f > 0 && n % 10 == 0 {
        lemma_trim_value(n / 10, (f - 1) as nat);
        let k: nat = (f - 1 - pf) as nat;
        let p: int = pow10::pow10(k) as int;
        assert(pow10::pow10(k + 1) == 10 * p);
        assert(x * (10 * p) == 10 * (x * p)) by (nonlinear_arith);
    } else {
        assert(pow10::pow10(0) == 1);
        assert(x * 1 == x);
    }
}

/// Scaling up and back down by a power of ten is exact in every mode.
proof fn lemma_round_exact(n: nat, d: nat, neg: bool, mode: Rounding)
    requires
        d > 0,
    ensures
        rounding::round_mag(n * d, d, neg, mode) == n,
{
    rounding::lemma_round_mag_parts(n * d, d, n, 0, neg, mode);
}

/// The sign and the digits of a text come apart again.
pub proof fn lemma_signed_text(n: nat, neg: bool, f: nat, precision: Option<usize>, sign: AmountSign)
    ensures
        ({
            let t: Seq<u8> = render::decimal_text(n, neg, f, precision, sign);
            &&& t.len() > 0
            &&& text::unsigned_part(t) == render::body_text(n, f, precision)
            &&& text::is_negative(t) == (sign != AmountSign::NoSign && neg && n != 0)
            &&& render::is_ascii(t)
        }),
{
    let t: Seq<u8> = render::decimal_text(n, neg, f, precision, sign);
    let s: Seq<u8> = render::sign_text(neg, n == 0, sign);
    let b: Seq<u8> = render::body_text(n, f, precision);
    match precision {
        None => lemma_plain_text(render::trim(n, f).0, render::trim(n, f).1),
        Some(p) => lemma_plain_text(render::at_precision(n, f, p as nat), p as nat),
    }
    if s.len() > 0 {
        assert(t.skip(1) =~= b);
    } else {
        assert(t =~= b);
    }
}

/// **Text round trip.** What a decimal is written as is read back as that
/// decimal, in every rounding mode: `from_str(x.to_string()) == x`. It holds
/// of every value in the symmetric range, with or without a plus sign.
pub proof fn text_round_trip(v: int, digits: u8, w: nat, sign: AmountSign, mode: Rounding)
    requires
        sign != AmountSign::NoSign,
        2 * rounding::mag_of(v) < value::bpow(w),
    ensures
        parse::parse_int(
            render::as_chars(
                render::decimal_text(rounding::mag_of(v), v < 0, digits as nat, None, sign),
            ),
            digits as nat,
            w,
            mode,
        ) == Ok::<int, AmountErrorKind>(v),
{
    let n: nat = rounding::mag_of(v);
    let f: nat = digits as nat;
    let t: Seq<u8> = render::decimal_text(n, v < 0, f, None, sign);
    let x: nat = render::trim(n, f).0;
    let pf: nat = render::trim(n, f).1;
    lemma_signed_text(n, v < 0, f, None, sign);
    lemma_plain_text(x, pf);
    lemma_trim_value(n, f);
    render::lemma_ascii_text(t);
}

/// **Padded text round trip.** Text at a precision of at least the scale holds
/// every digit, so it is read back exactly as well.
pub proof fn padded_text_round_trip(
    v: int,
    digits: u8,
    precision: usize,
    w: nat,
    sign: AmountSign,
    mode: Rounding,
)
    requires
        sign != AmountSign::NoSign,
        precision >= digits,
        2 * rounding::mag_of(v) < value::bpow(w),
    ensures
        parse::parse_int(
            render::as_chars(
                render::decimal_text(
                    rounding::mag_of(v),
                    v < 0,
                    digits as nat,
                    Some(precision),
                    sign,
                ),
            ),
            digits as nat,
            w,
            mode,
        ) == Ok::<int, AmountErrorKind>(v),
{
    let n: nat = rounding::mag_of(v);
    let f: nat = digits as nat;
    let p: nat = precision as nat;
    let t: Seq<u8> = render::decimal_text(n, v < 0, f, Some(precision), sign);
    let x: nat = render::at_precision(n, f, p);
    lemma_signed_text(n, v < 0, f, Some(precision), sign);
    lemma_plain_text(x, p);
    render::lemma_ascii_text(t);
    let k: nat = (p - f) as nat;
    pow10::lemma_pow10_pos(k);
    lemma_round_exact(n, pow10::pow10(k), false, mode);
    assert(pow10::pow10(0) == 1);
    assert(n * 1 == n);
    if p == f {
        assert(x * 1 == x);
    }
}

/// **Trailing zeros.** A zero after the last fractional digit changes neither
/// the value that a text denotes nor whether it fits.
pub proof fn trailing_zero_is_dropped(s: Seq<u8>, scale: nat, limit: nat, mode: Rounding)
    requires
        text::is_plain(text::unsigned_part(s)),
        text::has_point(text::unsigned_part(s)),
        text::digit_count(text::unsigned_part(s)) > 0,
    ensures
        parse::parse_mag(s.push(0x30), scale, limit, mode) == parse::parse_mag(
            s,
            scale,
            limit,
            mode,
        ),
{
    let b: Seq<u8> = text::unsigned_part(s);
    let c: Seq<u8> = b.push(0x30);
    let k: int = b.len() as int;
    assert(s.len() > 0) by {
        if s.len() == 0 {
            assert(b =~= s);
        }
    }
    assert(text::unsigned_part(s.push(0x30)) =~= c);
    assert(c.take(k) =~= b);
    assert(c.take(k + 1) =~= c);
    text::lemma_step(c, k);
    let n: nat = text::digits_value(b);
    let f: nat = text::frac_count(b);
    if f < scale {
        let p: int = pow10::pow10((scale - f - 1) as nat) as int;
        assert(pow10::pow10((scale - f) as nat) == 10 * p);
        assert((10 * n) * p == n * (10 * p)) by (nonlinear_arith);
    } else {
        let e: nat = (f - scale) as nat;
        let d: nat = pow10::pow10(e);
        pow10::lemma_pow10_pos(e);
        assert(pow10::pow10(e + 1) == 10 * d);
        lemma_round_tenfold(n, d, mode);
        if e == 0 {
            assert(pow10::pow10(0) == 1);
            assert(n * 1 == n);
            rounding::lemma_round_mag_parts(n, 1, n, 0, false, mode);
        }
    }
}

/// Rounding a fraction does not depend on a common factor of ten.
proof fn lemma_round_tenfold(n: nat, d: nat, mode: Rounding)
    requires
        d > 0,
    ensures
        rounding::round_mag(10 * n, 10 * d, false, mode) == rounding::round_mag(
            n,
            d,
            false,
            mode,
        ),
{
    let q: nat = n / d;
    let r: nat = n % d;
    vstd::arithmetic::div_mod::lemma_fundamental_div_mod(n as int, d as int);
    vstd::arithmetic::div_mod::lemma_mod_bound(n as int, d as int);
    assert(d * q == q * d) by (nonlinear_arith);
    assert(q * (10 * d) == 10 * (q * d)) by (nonlinear_arith);
    rounding::lemma_round_mag_parts(10 * n, 10 * d, q, 10 * r, false, mode);
}

/// **Parts round trip.** `from_decimal_parts` gives back what
/// `to_decimal_parts` took apart: a value at its own scale is exact.
pub proof fn parts_round_trip(v: int, digits: u8, lo: int, hi: int)
    requires
        lo <= v <= hi,
    ensures
        parts::exact_parts(v, -(digits as int) + digits, lo, hi) == Ok::<int, AmountErrorKind>(v),
{
    assert(pow10::pow10(0) == 1);
    assert(v * 1 == v);
}

/// **Exact where possible.** Where the exact conversion succeeds, the rounding
/// one gives the same value in every mode; it is never `Inexact`. Dropping
/// digits of a mantissa that lies in the range, which that of a 128-bit decimal
/// always does, never fails.
pub proof fn rounded_parts_extend_exact(m: int, shift: int, mode: Rounding, lo: int, hi: int)
    ensures
        parts::rounded_parts(m, shift, mode, lo, hi) != Err::<int, AmountErrorKind>(
            AmountErrorKind::Inexact,
        ),
        parts::exact_parts(m, shift, lo, hi) != Err::<int, AmountErrorKind>(
            AmountErrorKind::Inexact,
        ) ==> parts::rounded_parts(m, shift, mode, lo, hi) == parts::exact_parts(
            m,
            shift,
            lo,
            hi,
        ),
        shift < 0 && lo <= m <= hi && lo <= 0 <= hi ==> parts::rounded_parts(
            m,
            shift,
            mode,
            lo,
            hi,
        ) is Ok,
{
    if shift < 0 {
        let d: nat = pow10::pow10(-shift as nat);
        pow10::lemma_pow10_pos(-shift as nat);
        parts::lemma_exact(m, d);
        rounding::lemma_quot_bound(rounding::mag_of(m), d, false, mode);
    }
}

/// **Whole and fraction.** A value is the sum of its integer part and its
/// fraction, neither of which has the opposite sign; the fraction is less than
/// one unit.
pub proof fn trunc_plus_fract(v: int, digits: u8)
    ensures
        ({
            let s: nat = pow10::p10(digits);
            let t: int = rounding::trunc_div(v, s) * s;
            let f: int = rounding::trunc_rem(v, s);
            &&& t + f == v
            &&& -s < f < s
            &&& v >= 0 ==> 0 <= t && 0 <= f
            &&& v <= 0 ==> t <= 0 && f <= 0
        }),
{
    let s: nat = pow10::p10(digits);
    pow10::lemma_pow10_pos(digits as nat);
    rounding::lemma_trunc_parts(v, s);
    let q: int = rounding::trunc_div(v, s);
    assert(q >= 0 ==> q * s >= 0) by (nonlinear_arith);
    assert(q <= 0 ==> q * s <= 0) by (nonlinear_arith);
}

/// **Directed rounding encloses.** `Down` is the floor and `Up` the ceiling:
/// the value lies between them, they are less than one unit away from it, and
/// every mode gives one of the two.
pub proof fn directed_modes_enclose(v: int, d: nat, mode: Rounding)
    requires
        d > 0,
    ensures
        ({
            let lo: int = rounding::round_div(v, d, Rounding::Down);
            let hi: int = rounding::round_div(v, d, Rounding::Up);
            let r: int = rounding::round_div(v, d, mode);
            &&& lo == v / d as int
            &&& hi == -((-v) / d as int)
            &&& lo * d <= v <= hi * d
            &&& lo <= hi <= lo + 1
            &&& r == lo || r == hi
        }),
{
    rounding::lemma_round_down(v, d);
    rounding::lemma_round_up(v, d);
    rounding::lemma_floor_ceil(v, d);
}

/// **Half modes are nearest.** The half modes never move a value by more than
/// half a unit, and only a tie can be rounded either way: `HalfUp` takes a tie
/// away from zero, `HalfDown` toward zero and `HalfEven` to an even number.
pub proof fn half_modes_are_nearest(v: int, d: nat, mode: Rounding)
    requires
        d > 0,
        mode != Rounding::Down,
        mode != Rounding::Up,
    ensures
        ({
            let r: int = rounding::round_div(v, d, mode);
            let e: int = r * d - v;
            &&& -(d as int) <= 2 * e <= d
            &&& 2 * e == d || 2 * e == -(d as int) ==> match mode {
                Rounding::HalfEven => r % 2 == 0,
                Rounding::HalfUp => rounding::mag_of(r * d) > rounding::mag_of(v),
                _ => rounding::mag_of(r * d) < rounding::mag_of(v),
            }
        }),
{
    let m: int = rounding::mag_of(v) as int;
    let q: int = m / d as int;
    let x: int = m % d as int;
    vstd::arithmetic::div_mod::lemma_fundamental_div_mod(m, d as int);
    vstd::arithmetic::div_mod::lemma_mod_bound(m, d as int);
    assert(d * q == q * d) by (nonlinear_arith);
    assert((q + 1) * d == q * d + d) by (nonlinear_arith);
    assert((-q) * d == -(q * d)) by (nonlinear_arith);
    assert((-(q + 1)) * d == -((q + 1) * d)) by (nonlinear_arith);
}

/// **Ties need an even divisor.** With an odd divisor there is no tie to
/// break, so the half modes agree.
pub proof fn odd_divisors_have_no_ties(v: int, d: nat, mode: Rounding)
    requires
        d % 2 == 1,
        mode != Rounding::Down,
        mode != Rounding::Up,
    ensures
        rounding::round_div(v, d, mode) == rounding::round_div(v, d, Rounding::HalfUp),
{
}

/// **Symmetry.** The half modes round a negated value to the negated result;
/// `Down` and `Up` change places.
pub proof fn rounding_is_symmetric(v: int, d: nat, mode: Rounding)
    requires
        d > 0,
    ensures
        rounding::round_div(-v, d, mode) == -rounding::round_div(
            v,
            d,
            rounding::mirrored(mode),
        ),
{
    rounding::lemma_round_mirror(v, d, mode);
}

/// **Rounding is idempotent.** A whole number of units rounds to itself in
/// every mode, so rounding twice is rounding once.
pub proof fn whole_values_stay(k: int, d: nat, mode: Rounding)
    requires
        d > 0,
    ensures
        rounding::round_div(k * d, d, mode) == k,
{
    let m: int = rounding::mag_of(k) as int;
    let p: int = d as int;
    lemma_round_exact(m as nat, d, true, mode);
    lemma_round_exact(m as nat, d, false, mode);
    assert((-m) * p == -(m * p)) by (nonlinear_arith);
    assert(m * p >= 0) by (nonlinear_arith)
        requires
            m >= 0,
            p >= 0,
    ;
    if m > 0 {
        assert(m * p > 0) by (nonlinear_arith)
            requires
                m > 0,
                p > 0,
        ;
    }
}

/// **Rounding is monotone.** A larger value never rounds to a smaller one.
pub proof fn rounding_is_monotone(a: int, b: int, d: nat, mode: Rounding)
    requires
        d > 0,
        a <= b,
    ensures
        rounding::round_div(a, d, mode) <= rounding::round_div(b, d, mode),
{
    let x: int = a / d as int;
    let y: int = b / d as int;
    directed_modes_enclose(a, d, mode);
    directed_modes_enclose(b, d, mode);
    vstd::arithmetic::div_mod::lemma_div_is_ordered(a, b, d as int);
    if x == y {
        lemma_monotone_in_unit(a, b, d, mode);
    }
}

/// Monotonicity between two neighbouring whole numbers.
proof fn lemma_monotone_in_unit(a: int, b: int, d: nat, mode: Rounding)
    requires
        d > 0,
        a <= b,
        a / d as int == b / d as int,
    ensures
        rounding::round_div(a, d, mode) <= rounding::round_div(b, d, mode),
{
    let k: int = a / d as int;
    vstd::arithmetic::div_mod::lemma_fundamental_div_mod(a, d as int);
    vstd::arithmetic::div_mod::lemma_fundamental_div_mod(b, d as int);
    vstd::arithmetic::div_mod::lemma_mod_bound(a, d as int);
    vstd::arithmetic::div_mod::lemma_mod_bound(b, d as int);
    lemma_round_by_remainder(a, d, mode);
    lemma_round_by_remainder(b, d, mode);
}

/// Rounding from the floor: up by one where the part above the floor asks for
/// it.
pub proof fn lemma_round_by_remainder(v: int, d: nat, mode: Rounding)
    requires
        d > 0,
    ensures
        ({
            let k: int = v / d as int;
            let r: int = v % d as int;
            rounding::round_div(v, d, mode) == k + (if r != 0 && (match mode {
                Rounding::HalfEven => 2 * r > d || (2 * r == d && k % 2 == 1),
                Rounding::HalfUp => 2 * r > d || (2 * r == d && v > 0),
                Rounding::HalfDown => 2 * r > d || (2 * r == d && v < 0),
                Rounding::Down => false,
                Rounding::Up => true,
            }) {
                1int
            } else {
                0int
            })
        }),
{
    let k: int = v / d as int;
    let r: int = v % d as int;
    vstd::arithmetic::div_mod::lemma_fundamental_div_mod(v, d as int);
    vstd::arithmetic::div_mod::lemma_mod_bound(v, d as int);
    if v < 0 {
        let m: int = -v;
        assert(d * (-k) == -(d * k)) by (nonlinear_arith);
        assert(d * (-k - 1) == -(d * k) - d) by (nonlinear_arith);
        assert((-k) * d == d * (-k)) by (nonlinear_arith);
        assert((-k - 1) * d == d * (-k - 1)) by (nonlinear_arith);
        if r == 0 {
            vstd::arithmetic::div_mod::lemma_fundamental_div_mod_converse(m, d as int, -k, 0);
        } else {
            vstd::arithmetic::div_mod::lemma_fundamental_div_mod_converse(
                m,
                d as int,
                -k - 1,
                d - r,
            );
        }
    }
}

/// **Products commute**, whatever the mode.
pub proof fn product_commutes(a: int, b: int, digits: u8, mode: Rounding)
    ensures
        rounding::product(a, b, digits, mode) == rounding::product(b, a, digits, mode),
{
    assert(a * b == b * a) by (nonlinear_arith);
}

/// **One and zero.** One is neutral for products and quotients, and zero times
/// anything is zero.
pub proof fn one_is_neutral(a: int, digits: u8, mode: Rounding)
    ensures
        rounding::product(a, pow10::p10(digits) as int, digits, mode) == a,
        rounding::quotient(a, pow10::p10(digits) as int, digits, mode) == a,
        rounding::product(a, 0, digits, mode) == 0,
{
    let d: nat = pow10::p10(digits);
    pow10::lemma_pow10_pos(digits as nat);
    whole_values_stay(a, d, mode);
    assert(a * 0 == 0);
    whole_values_stay(0, d, mode);
    rounding::lemma_quotient_parts(a, d as int, digits, mode);
    lemma_round_exact(rounding::mag_of(a), d, a < 0, mode);
}

/// **A number over itself** is one.
pub proof fn self_quotient_is_one(a: int, digits: u8, mode: Rounding)
    requires
        a != 0,
    ensures
        rounding::quotient(a, a, digits, mode) == pow10::p10(digits),
{
    let d: nat = pow10::p10(digits);
    let m: nat = rounding::mag_of(a);
    rounding::lemma_quotient_parts(a, a, digits, mode);
    assert(m * d == d * m) by (nonlinear_arith);
    lemma_round_exact(d, m, false, mode);
}

/// **Signs of a product.** Negating one factor negates the product, with the
/// directed modes exchanged.
pub proof fn product_sign(a: int, b: int, digits: u8, mode: Rounding)
    ensures
        rounding::product(-a, b, digits, mode) == -rounding::product(
            a,
            b,
            digits,
            rounding::mirrored(mode),
        ),
{
    pow10::lemma_pow10_pos(digits as nat);
    assert((-a) * b == -(a * b)) by (nonlinear_arith);
    rounding::lemma_round_mirror(a * b, pow10::p10(digits), mode);
}

/// **Division by an integer** is division by that integer as a decimal.
pub proof fn int_division_agrees(a: int, n: int, digits: u8, mode: Rounding)
    requires
        n != 0,
    ensures
        rounding::round_quot(a, n, mode) == rounding::quotient(
            a,
            n * pow10::p10(digits),
            digits,
            mode,
        ),
{
    let s: nat = pow10::p10(digits);
    let p: int = s as int;
    pow10::lemma_pow10_pos(digits as nat);
    let x: int = rounding::mag_of(a) as int;
    let y: int = rounding::mag_of(n) as int;
    assert((-y) * p == -(y * p)) by (nonlinear_arith);
    assert(y * p > 0) by (nonlinear_arith)
        requires
            y > 0,
            p > 0,
    ;
    rounding::lemma_quotient_parts(a, n * p, digits, mode);
    let neg: bool = (a < 0) != (n < 0);
    let q: nat = (x / y) as nat;
    let r: nat = (x % y) as nat;
    vstd::arithmetic::div_mod::lemma_fundamental_div_mod(x, y);
    vstd::arithmetic::div_mod::lemma_mod_bound(x, y);
    assert(x * p == q * (y * p) + r * p) by (nonlinear_arith)
        requires
            x == y * q + r,
    ;
    assert(r * p < y * p && (r == 0 <==> r * p == 0)) by (nonlinear_arith)
        requires
            0 <= r < y,
            p > 0,
    ;
    rounding::lemma_round_mag_parts((x * p) as nat, (y * p) as nat, q, (r * p) as nat, neg, mode);
    assert((2 * r) * p == 2 * (r * p)) by (nonlinear_arith);
    assert((2 * r > y <==> (2 * r) * p > y * p) && (2 * r == y <==> (2 * r) * p == y * p))
        by (nonlinear_arith)
        requires
            p > 0,
    ;
}

/// **Remainders.** A value is a whole multiple of the divisor plus the
/// remainder, which is smaller than the divisor and has the sign of the value.
pub proof fn remainder_completes(a: int, b: int)
    requires
        b != 0,
    ensures
        ({
            let d: nat = rounding::mag_of(b);
            let r: int = rounding::trunc_rem(a, d);
            &&& a == rounding::trunc_div(a, d) * d + r
            &&& rounding::mag_of(r) < d
            &&& a >= 0 ==> r >= 0
            &&& a <= 0 ==> r <= 0
        }),
{
    rounding::lemma_trunc_parts(a, rounding::mag_of(b));
}

/// **Powers.** The zeroth power is one and the first is the value itself.
pub proof fn small_powers(a: int, digits: u8, bound: int)
    requires
        rounding::within(a, bound),
    ensures
        rounding::power(a, pow10::p10(digits) as int, 0, digits, bound) == Some(
            pow10::p10(digits) as int,
        ),
        rounding::power(a, pow10::p10(digits) as int, 1, digits, bound) == Some(a),
{
    one_is_neutral(a, digits, Rounding::HalfUp);
}

/// **The second power** is the square, rounded half up.
pub proof fn square_is_product(a: int, digits: u8, bound: int)
    requires
        rounding::within(pow10::p10(digits) as int, bound),
        rounding::within(rounding::product(a, a, digits, Rounding::HalfUp), bound),
    ensures
        rounding::power(a, pow10::p10(digits) as int, 2, digits, bound) == Some(
            rounding::product(a, a, digits, Rounding::HalfUp),
        ),
{
    let sq: int = rounding::product(a, a, digits, Rounding::HalfUp);
    one_is_neutral(sq, digits, Rounding::HalfUp);
    reveal_with_fuel(rounding::power, 3);
}

/// **Wider backings agree.** What fits a narrow backing fits every wider one,
/// so a checked result of a narrow type is also that of the wider types.
pub proof fn wider_backings_agree<const DIGITS: u8>(
    v: int,
    r64: Option<Decimal<DIGITS>>,
    r128: Option<Decimal128<DIGITS>>,
    r256: Option<Decimal256<DIGITS>>,
)
    requires
        decimal64::checked64(r64, v),
        decimal128::checked128(r128, v),
        decimal256::checked256(r256, v),
    ensures
        r64 matches Some(a) ==> r128 matches Some(b) && a.0 == b.0,
        r128 matches Some(a) ==> r256 matches Some(b) && a.0 == b.0@,
{
}

/// **Wider backings parse alike.** Text that a narrow backing accepts denotes
/// the same value for every wider one.
pub proof fn wider_backings_parse_alike(s: Seq<char>, scale: nat, w: nat, x: nat, mode: Rounding)
    requires
        w <= x,
        parse::parse_int(s, scale, w, mode) is Ok,
    ensures
        parse::parse_int(s, scale, x, mode) == parse::parse_int(s, scale, w, mode),
{
    value::lemma_bpow_mono(w, x);
}

/// **Bytes round trip**, in both directions and both byte orders.
pub proof fn bytes_round_trip(x: nat, b: Seq<u8>)
    requires
        x < bytes::pow256(b.len()),
    ensures
        bytes::le_value(bytes::le_bytes(x, b.len())) == x,
        bytes::le_bytes(bytes::le_value(b), b.len()) == b,
        bytes::le_value(bytes::le_bytes(x, b.len()).reverse().reverse()) == x,
        bytes::le_bytes(bytes::le_value(b.reverse()), b.len()).reverse() == b,
{
    bytes::lemma_value_of_bytes(x, b.len());
    bytes::lemma_bytes_of_value(b);
    bytes::lemma_bytes_of_value(b.reverse());
    assert(bytes::le_bytes(x, b.len()).reverse().reverse() =~= bytes::le_bytes(x, b.len()));
    assert(b.reverse().reverse() =~= b);
}

/// **Swapping bytes twice** changes nothing.
pub proof fn swap_bytes_twice(x: nat, n: nat)
    requires
        x < bytes::pow256(n),
    ensures
        ({
            let y: nat = bytes::le_value(bytes::le_bytes(x, n).reverse());
            &&& y < bytes::pow256(n)
            &&& bytes::le_value(bytes::le_bytes(y, n).reverse()) == x
        }),
{
    let b: Seq<u8> = bytes::le_bytes(x, n);
    bytes::lemma_le_bytes_len(x, n);
    bytes::lemma_value_of_bytes(x, n);
    bytes::lemma_bytes_of_value(b.reverse());
    assert(b.reverse().reverse() =~= b);
}

/// **Bits determine the value**: backing integers with the same bits are equal.
pub proof fn bits_determine_value<const DIGITS: u8>(
    a: Decimal<DIGITS>,
    b: Decimal<DIGITS>,
    c: Decimal128<DIGITS>,
    d: Decimal128<DIGITS>,
    x: I256,
    y: I256,
)
    ensures
        a.bits() == b.bits() ==> a == b,
        c.bits() == d.bits() ==> c == d,
        x.bits() == y.bits() ==> x == y,
{
}

/// **Text and parts agree.** Reading digits with a decimal point gives what
/// rescaling the same digits as a mantissa gives, in every mode.
pub proof fn text_and_parts_agree(s: Seq<u8>, scale: nat, limit: nat, mode: Rounding)
    requires
        s.len() > 0,
        text::is_plain(text::unsigned_part(s)),
        text::digit_count(text::unsigned_part(s)) > 0,
    ensures
        ({
            let b: Seq<u8> = text::unsigned_part(s);
            let m: int = rounding::signed(text::is_negative(s), text::digits_value(b));
            match parse::parse_mag(s, scale, limit, mode) {
                Ok((neg, mag)) => parts::rounded_parts(
                    m,
                    scale - text::frac_count(b),
                    mode,
                    1 - limit,
                    limit - 1,
                ) == Ok::<int, AmountErrorKind>(rounding::signed(neg, mag)),
                Err(e) => e == AmountErrorKind::Overflow && parts::rounded_parts(
                    m,
                    scale - text::frac_count(b),
                    mode,
                    1 - limit,
                    limit - 1,
                ) == Err::<int, AmountErrorKind>(AmountErrorKind::Overflow),
            }
        }),
{
    let b: Seq<u8> = text::unsigned_part(s);
    let n: nat = text::digits_value(b);
    let f: nat = text::frac_count(b);
    if f <= scale {
        let p: int = pow10::pow10((scale - f) as nat) as int;
        let k: int = n as int;
        assert((-k) * p == -(k * p)) by (nonlinear_arith);
    } else {
        let d: nat = pow10::pow10((f - scale) as nat);
        pow10::lemma_pow10_pos((f - scale) as nat);
        rounding::lemma_round_zero(d, false, mode);
    }
}

/// **The grammar.** Plain text is digits with at most one point among them,
/// and it holds a digit exactly when it is neither empty nor a lone point.
pub proof fn plain_text_is_digits_and_a_point(b: Seq<u8>)
    ensures
        text::is_plain(b) <==> {
            &&& forall|i: int| 0 <= i < b.len() ==> text::is_digit(b[i]) || text::is_point(b[i])
            &&& forall|i: int, j: int|
                0 <= i < j < b.len() ==> !(text::is_point(b[i]) && text::is_point(b[j]))
        },
        text::is_plain(b) ==> (text::digit_count(b) > 0 <==> b.len() >= 2 || (b.len() == 1
            && text::is_digit(b[0]))),
    decreases b.len(),
{
    if b.len() > 0 {
        let n: int = b.len() - 1;
        let t: Seq<u8> = b.drop_last();
        assert(b.take(n) =~= t);
        assert(b.take(n + 1) =~= b);
        text::lemma_step(b, n);
        plain_text_is_digits_and_a_point(t);
        text::lemma_good_bound(t);
        if text::is_plain(b) {
            assert forall|i: int| 0 <= i < b.len() implies text::is_digit(b[i]) || text::is_point(
                b[i],
            ) by {
                if i < n {
                    assert(b[i] == t[i]);
                }
            }
            assert forall|i: int, j: int| 0 <= i < j < b.len() implies !(text::is_point(b[i])
                && text::is_point(b[j])) by {
                assert(b[i] == t[i]);
                if j < n {
                    assert(b[j] == t[j]);
                }
            }
        } else {
            if text::is_plain(t) && text::is_point(b[n]) {
                let k: int = choose|k: int| 0 <= k < t.len() && text::is_point(#[trigger] t[k]);
                assert(text::is_point(b[k]));
            } else if !text::is_plain(t) {
                assert forall|i: int| 0 <= i < t.len() implies b[i] == t[i] by {}
            }
        }
    }
}

/// **Zero has every exponent.** A zero mantissa is exact at any exponent.
pub proof fn zero_fits_every_exponent(shift: int, mode: Rounding, lo: int, hi: int)
    requires
        lo <= 0 <= hi,
    ensures
        parts::exact_parts(0, shift, lo, hi) == Ok::<int, AmountErrorKind>(0),
        parts::rounded_parts(0, shift, mode, lo, hi) == Ok::<int, AmountErrorKind>(0),
{
    let p: int = pow10::pow10(shift as nat) as int;
    assert(0 * p == 0);
    if shift < 0 {
        let d: nat = pow10::pow10(-shift as nat);
        pow10::lemma_pow10_pos(-shift as nat);
        vstd::arithmetic::div_mod::lemma_fundamental_div_mod_converse(0, d as int, 0, 0);
        rounding::lemma_round_zero(d, false, mode);
    }
}

/// **Division by an integer shrinks.** In every mode the quotient is no larger
/// in magnitude than the dividend.
pub proof fn int_division_shrinks(a: int, n: int, mode: Rounding)
    requires
        n != 0,
    ensures
        rounding::mag_of(rounding::round_quot(a, n, mode)) <= rounding::mag_of(a),
{
    let neg: bool = (a < 0) != (n < 0);
    rounding::lemma_quot_bound(rounding::mag_of(a), rounding::mag_of(n), neg, mode);
}

} // verus!
