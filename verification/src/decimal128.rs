//! 128-bit backed decimal fixed-point type.
//!
//! [`Decimal128`] follows the same power-of-10 scaling design as
//! [`Decimal`](crate::Decimal), widened to an `i128` backing. Addition and
//! subtraction stay native integer operations; multiplication and division go
//! through a 256-bit intermediate built from 64-bit limbs and are re-scaled
//! with a single word division (the divisor 10^DIGITS always fits in 64 bits).

use crate::arith::{dec_div, dec_mul};
use crate::bytes;
use crate::bytes::{from_le, i128_bits, i128_from_bits, reversed, to_le};
use crate::decimal64::i64_sign_mag;
use crate::error::AmountErrorKind;
use crate::i256::join;
use crate::knuth::div_knuth;
use crate::limbs::{div_rem_u128_pow10, div_words_by_word};
use crate::parse;
use crate::parse::parse_decimal_mag_rounded;
use crate::parts;
use crate::parts::{abs128, rescale_exact, rescale_rounded, signed128};
use crate::pow10;
use crate::pow10::scale_word;
use crate::render;
use crate::rounding;
use crate::rounding::{order_twice_rem_u64, round_up_by_order, Rounding};
use crate::value;
use crate::word_div;
use core::cmp::Ordering;
use vstd::pervasive::unreached;
use vstd::prelude::*;
use vstd::std_specs::cmp::{PartialEqSpecImpl, PartialOrdSpecImpl};

verus! {

/// 2^127: every symmetric value lies strictly between its negative and it.
pub open spec fn two127() -> int {
    0x8000_0000_0000_0000_0000_0000_0000_0000int
}

/// The two limbs of a double word.
fn split(m: u128) -> (mag: [u64; 2])
    ensures
        value::val(mag@) == m,
        mag@[1] == 0 <==> m < value::base(),
{
    let mag: [u64; 2] = [m as u64, (m >> 64) as u64];
    proof {
        word_div::lemma_double_split(m);
        assert(mag@ =~= seq![mag@[0], mag@[1]]);
        value::lemma_val_two(mag@[0], mag@[1]);
    }
    mag
}

/// Splits an i128 into a sign and a two-limb magnitude.
pub fn i128_sign_mag(v: i128) -> (r: (bool, [u64; 2]))
    ensures
        r.0 == (v < 0),
        value::val(r.1@) == rounding::mag_of(v as int),
{
    (v < 0, split(abs128(v)))
}

/// Rebuilds an i128 from a sign and a two-limb magnitude with the top bit
/// clear (guaranteed by the shared cores' symmetric-range check).
pub fn i128_from_sign_mag(neg: bool, mag: [u64; 2]) -> (v: i128)
    requires
        value::val(mag@) < two127(),
    ensures
        v == rounding::signed(neg, value::val(mag@)),
{
    proof {
        assert(mag@ =~= seq![mag@[0], mag@[1]]);
        value::lemma_val_two(mag@[0], mag@[1]);
    }
    signed128(neg, join(mag[1], mag[0]))
}

/// Truncated remainder on sign-magnitude limbs: word division for a divisor of
/// one limb, Knuth's algorithm D for one of two.
pub fn i128_rem(a: i128, b: i128) -> (r: i128)
    requires
        b != 0,
    ensures
        r == rounding::trunc_rem(a as int, rounding::mag_of(b as int)),
{
    let am: u128 = abs128(a);
    let bm: u128 = abs128(b);
    let ghost d: nat = bm as nat;
    proof {
        rounding::lemma_trunc_parts(a as int, d);
    }
    let bl: [u64; 2] = split(bm);
    let rem: u128 = if bl[1] == 0 {
        let mut q: [u64; 2] = split(am);
        proof {
            assert(bl@ =~= seq![bl@[0], bl@[1]]);
            value::lemma_val_two(bl@[0], bl@[1]);
        }
        let w: u64 = div_words_by_word(&mut q, bl[0]);
        proof {
            rounding::lemma_round_mag_parts(
                am as nat,
                d,
                value::val(q@),
                w as nat,
                false,
                Rounding::Down,
            );
        }
        w as u128
    } else if am < bm {
        // the divisor is larger, so the dividend is the remainder
        proof {
            vstd::arithmetic::div_mod::lemma_small_mod(am as nat, d);
        }
        am
    } else {
        let al: [u64; 2] = split(am);
        let mut q: [u64; 1] = [0u64; 1];
        let mut r: [u64; 2] = [0u64; 2];
        div_knuth(&mut q, &mut r, &al, &bl);
        proof {
            rounding::lemma_round_mag_parts(
                am as nat,
                d,
                value::val(q@),
                value::val(r@),
                false,
                Rounding::Down,
            );
            assert(r@ =~= seq![r@[0], r@[1]]);
            value::lemma_val_two(r@[0], r@[1]);
        }
        join(r[1], r[0])
    };
    signed128(a < 0, rem)
}

/// Decimal fixed-point number backed by a 128-bit signed integer, with
/// `DIGITS` fractional decimal digits (`DIGITS <= 19`).
///
/// Same decimal semantics as [`Decimal`](crate::Decimal), with roughly twice
/// the range: about ±1.7 * 10^(38 - DIGITS).
#[derive(Debug, Clone, Copy, Eq, Ord, Hash)]
pub struct Decimal128<const DIGITS: u8>(pub i128);

/// Amount128 is a 128-bit integer based decimal type with 4 decimal digits precision.
pub type Amount128 = Decimal128<4>;

/// Rate128 is a 128-bit integer based decimal type with 8 decimal digits precision.
pub type Rate128 = Decimal128<8>;

impl<const DIGITS: u8> PartialEq for Decimal128<DIGITS> {
    fn eq(&self, other: &Self) -> (r: bool) {
        self.0 == other.0
    }
}

impl<const DIGITS: u8> PartialEqSpecImpl for Decimal128<DIGITS> {
    open spec fn obeys_eq_spec() -> bool {
        true
    }

    open spec fn eq_spec(&self, other: &Self) -> bool {
        self.0 == other.0
    }
}

impl<const DIGITS: u8> PartialOrd for Decimal128<DIGITS> {
    fn partial_cmp(&self, other: &Self) -> (r: Option<Ordering>) {
        if self.0 < other.0 {
            Some(Ordering::Less)
        } else if self.0 > other.0 {
            Some(Ordering::Greater)
        } else {
            Some(Ordering::Equal)
        }
    }
}

impl<const DIGITS: u8> PartialOrdSpecImpl for Decimal128<DIGITS> {
    open spec fn obeys_partial_cmp_spec() -> bool {
        true
    }

    open spec fn partial_cmp_spec(&self, other: &Self) -> Option<Ordering> {
        if self.0 < other.0 {
            Some(Ordering::Less)
        } else if self.0 > other.0 {
            Some(Ordering::Greater)
        } else {
            Some(Ordering::Equal)
        }
    }
}

impl<const DIGITS: u8> Default for Decimal128<DIGITS> {
    fn default() -> (r: Self)
        ensures
            r.0 == 0,
    {
        Decimal128(0)
    }
}

impl<const DIGITS: u8> Decimal128<DIGITS> {
    /// The decimal scale: the number of fractional digits.
    pub fn scale() -> (r: i32)
        ensures
            r == DIGITS,
    {
        DIGITS as i32
    }

    /// The multiplier used to scale values up. Equal to 10^DIGITS.
    pub fn scale_int() -> (r: i128)
        requires
            DIGITS <= 19,
        ensures
            r == pow10::wide_scale(DIGITS),
    {
        scale_word(DIGITS) as i128
    }

    /// The largest value that can be represented by this type.
    pub fn max_value() -> (r: Self)
        ensures
            r.0 == two127() - 1,
    {
        Decimal128(i128::MAX)
    }

    /// The smallest value that can be represented by this type: the range is
    /// symmetric.
    pub fn min_value() -> (r: Self)
        ensures
            r.0 == 1 - two127(),
    {
        Decimal128(-i128::MAX)
    }

    /// The value '1'.
    pub fn one() -> (r: Self)
        requires
            DIGITS <= 19,
        ensures
            r.0 == pow10::wide_scale(DIGITS),
    {
        Decimal128(Self::scale_int())
    }

    /// The value '-1'.
    pub fn minus_one() -> (r: Self)
        requires
            DIGITS <= 19,
        ensures
            r.0 == -pow10::wide_scale(DIGITS),
    {
        Decimal128(-(scale_word(DIGITS) as i128))
    }

    /// The value '0'.
    pub fn zero() -> (r: Self)
        ensures
            r.0 == 0,
    {
        Decimal128(0)
    }

    /// The smallest integer value that can be represented by this type.
    pub fn int_min() -> (r: i128)
        requires
            DIGITS <= 19,
        ensures
            r == -((two127() - 1) / pow10::wide_scale(DIGITS)),
    {
        -Self::int_max()
    }

    /// The largest integer value that can be represented by this type.
    pub fn int_max() -> (r: i128)
        requires
            DIGITS <= 19,
        ensures
            r == (two127() - 1) / pow10::wide_scale(DIGITS),
            0 <= r,
    {
        proof {
            pow10::lemma_p10_word(DIGITS);
        }
        (i128::MAX as u128 / scale_word(DIGITS) as u128) as i128
    }

    /// Half of the scaling factor, used for rounding.
    pub fn scale_int_half() -> (r: i128)
        requires
            DIGITS <= 19,
        ensures
            r == pow10::wide_scale(DIGITS) / 2,
    {
        (scale_word(DIGITS) / 2) as i128
    }

    /// Constructs a new decimal integer with value 0.
    pub fn new() -> (r: Self)
        ensures
            r.0 == 0,
    {
        Decimal128(0)
    }

    /// Tries to convert an i128 to a Decimal128.
    pub fn from_i128(val: i128) -> (r: Result<Self, AmountErrorKind>)
        requires
            DIGITS <= 19,
        ensures
            r == (if rounding::within(val * pow10::wide_scale(DIGITS), two127()) {
                Ok(Decimal128::<DIGITS>((val * pow10::wide_scale(DIGITS)) as i128))
            } else {
                Err(AmountErrorKind::Overflow)
            }),
    {
        proof {
            pow10::lemma_p10_word(DIGITS);
            lemma_int_range(val as int, pow10::wide_scale(DIGITS));
        }
        if val <= Self::int_max() && val >= Self::int_min() {
            Ok(Decimal128(val * Self::scale_int()))
        } else {
            Err(AmountErrorKind::Overflow)
        }
    }

    /// Tries to convert an i64 to a Decimal128.
    pub fn from_i64(val: i64) -> (r: Result<Self, AmountErrorKind>)
        requires
            DIGITS <= 19,
        ensures
            r == (if rounding::within(val * pow10::wide_scale(DIGITS), two127()) {
                Ok(Decimal128::<DIGITS>((val * pow10::wide_scale(DIGITS)) as i128))
            } else {
                Err(AmountErrorKind::Overflow)
            }),
    {
        Self::from_i128(val as i128)
    }

    /// Converts the Decimal128 back into an i128 (truncating the fractional part).
    pub fn to_i128(self) -> (r: i128)
        requires
            DIGITS <= 19,
        ensures
            r == rounding::trunc_div(self.0 as int, pow10::p10(DIGITS)),
    {
        let (q, rem): (u128, u64) = div_rem_u128_pow10::<DIGITS>(abs128(self.0));
        proof {
            pow10::lemma_p10_word(DIGITS);
            rounding::lemma_trunc_parts(self.0 as int, pow10::p10(DIGITS));
            rounding::lemma_round_mag_parts(
                rounding::mag_of(self.0 as int),
                pow10::p10(DIGITS),
                q as nat,
                rem as nat,
                false,
                Rounding::Down,
            );
        }
        signed128(self.0 < 0, q)
    }

    /// Returns the raw backing value.
    ///
    /// This is the unscaled mantissa: the stored integer such that the value
    /// equals `mantissa * 10^(-SCALE)`.
    pub fn mantissa(self) -> (r: i128)
        ensures
            r == self.0,
    {
        self.0
    }

    /// Decomposes the value into `(mantissa, exponent)` such that the value
    /// equals `mantissa * 10^exponent`.
    pub fn to_decimal_parts(self) -> (r: (i128, i32))
        ensures
            r.0 == self.0,
            r.1 == -(DIGITS as int),
    {
        (self.0, -(DIGITS as i32))
    }
}

/// An integer fits once scaled exactly when it is at most the largest integer.
proof fn lemma_int_range(v: int, s: int)
    requires
        s > 0,
    ensures
        -((two127() - 1) / s) <= v <= (two127() - 1) / s <==> rounding::within(v * s, two127()),
{
    let m: int = two127() - 1;
    let q: int = m / s;
    vstd::arithmetic::div_mod::lemma_fundamental_div_mod(m, s);
    vstd::arithmetic::div_mod::lemma_mod_bound(m, s);
    assert(v <= q ==> v * s <= s * q) by (nonlinear_arith)
        requires
            s > 0,
    ;
    assert(v >= q + 1 ==> v * s >= s * q + s) by (nonlinear_arith)
        requires
            s > 0,
    ;
    assert(v >= -q ==> v * s >= -(s * q)) by (nonlinear_arith)
        requires
            s > 0,
    ;
    assert(v <= -q - 1 ==> v * s <= -(s * q) - s) by (nonlinear_arith)
        requires
            s > 0,
    ;
}

/// A decimal result as a number of its smallest units.
pub open spec fn raw_result<const DIGITS: u8>(
    r: Result<Decimal128<DIGITS>, AmountErrorKind>,
) -> Result<int, AmountErrorKind> {
    match r {
        Ok(d) => Ok(d.0 as int),
        Err(e) => Err(e),
    }
}

/// A checked result: the exact value `v` where it lies in the symmetric range,
/// otherwise none.
pub open spec fn checked128<const DIGITS: u8>(r: Option<Decimal128<DIGITS>>, v: int) -> bool {
    &&& r is Some <==> rounding::within(v, two127())
    &&& r matches Some(d) ==> d.0 == v
}

impl<const DIGITS: u8> Decimal128<DIGITS> {
    /// Builds a value from `(mantissa, exponent)`, where the represented number
    /// is `mantissa * 10^exponent`.
    ///
    /// The value is rescaled to this type's fixed scale. Scaling up multiplies
    /// by a power of ten and is `Overflow` where the result does not fit the
    /// backing integer. Scaling down is exact-or-error: it succeeds only when
    /// the dropped digits are all zero, otherwise it is `Inexact`.
    pub fn from_decimal_parts(mantissa: i128, exponent: i32) -> (r: Result<Self, AmountErrorKind>)
        ensures
            raw_result(r) == parts::exact_parts(
                mantissa as int,
                exponent + DIGITS,
                i128::MIN as int,
                i128::MAX as int,
            ),
    {
        match rescale_exact(mantissa, exponent, DIGITS) {
            Ok(v) => Ok(Decimal128(v)),
            Err(e) => Err(e),
        }
    }

    /// Builds a value from `(mantissa, exponent)`, rounding to this type's scale
    /// with the given [`Rounding`] mode when the input carries more fractional
    /// digits than can be held exactly.
    ///
    /// This is the deliberately-inexact counterpart of
    /// [`from_decimal_parts`](Self::from_decimal_parts): it is never `Inexact`.
    /// The only failure is `Overflow`, when the value does not fit the backing
    /// integer. Scaling *up* is always exact, so the rounding mode only matters
    /// when digits are dropped.
    pub fn from_decimal_parts_rounded(mantissa: i128, exponent: i32, mode: Rounding) -> (r: Result<
        Self,
        AmountErrorKind,
    >)
        ensures
            raw_result(r) == parts::rounded_parts(
                mantissa as int,
                exponent + DIGITS,
                mode,
                i128::MIN as int,
                i128::MAX as int,
            ),
    {
        match rescale_rounded(mantissa, exponent, DIGITS, mode) {
            Ok(v) => Ok(Decimal128(v)),
            Err(e) => Err(e),
        }
    }

    /// Parses a decimal string, rounding any fractional digits beyond this
    /// type's scale with the given [`Rounding`] mode.
    pub fn from_str_rounded(src: &str, mode: Rounding) -> (r: Result<Self, AmountErrorKind>)
        requires
            DIGITS <= 19,
        ensures
            raw_result(r) == parse::parse_int(src@, DIGITS as nat, 2, mode),
    {
        match parse_decimal_mag_rounded::<2>(src, DIGITS, mode) {
            Ok((neg, mag)) => {
                proof {
                    crate::arith::lemma_top_bit(mag@);
                    value::lemma_bpow_small();
                }
                if mag[1] >> 63 != 0 {
                    return Err(AmountErrorKind::Overflow);
                }
                Ok(Decimal128(i128_from_sign_mag(neg, mag)))
            },
            Err(e) => Err(e),
        }
    }

    /// Parses a decimal string with [`Rounding::HalfUp`]. Intended for literals
    /// in the source, which are known to be valid.
    pub fn from_str_const(src: &str) -> (r: Self)
        requires
            DIGITS <= 19,
            parse::parse_int(src@, DIGITS as nat, 2, Rounding::HalfUp) is Ok,
        ensures
            Ok::<int, AmountErrorKind>(r.0 as int) == parse::parse_int(
                src@,
                DIGITS as nat,
                2,
                Rounding::HalfUp,
            ),
    {
        match Self::from_str_rounded(src, Rounding::HalfUp) {
            Ok(v) => v,
            Err(_) => unreached(),
        }
    }

    /// Computes the absolute value of self.
    pub fn abs(self) -> (r: Self)
        requires
            self.0 != i128::MIN,
        ensures
            r.0 == rounding::mag_of(self.0 as int),
    {
        if self.0 < 0 {
            Decimal128(-self.0)
        } else {
            self
        }
    }

    /// Checked integer addition. Computes `self + rhs`, returning `None` if overflow occurred.
    pub fn checked_add(self, rhs: Self) -> (r: Option<Self>)
        ensures
            r is Some <==> i128::MIN <= self.0 + rhs.0 <= i128::MAX,
            r matches Some(d) ==> d.0 == self.0 + rhs.0,
    {
        match self.0.checked_add(rhs.0) {
            Some(v) => Some(Decimal128(v)),
            None => None,
        }
    }

    /// Checked integer subtraction. Computes `self - rhs`, returning `None` if overflow occurred.
    pub fn checked_sub(self, rhs: Self) -> (r: Option<Self>)
        ensures
            r is Some <==> i128::MIN <= self.0 - rhs.0 <= i128::MAX,
            r matches Some(d) ==> d.0 == self.0 - rhs.0,
    {
        match self.0.checked_sub(rhs.0) {
            Some(v) => Some(Decimal128(v)),
            None => None,
        }
    }

    /// Sign and 4-limb magnitude (zero-extended), for the shared formatting code.
    pub fn sign_mag4(self) -> (r: (bool, [u64; 4]))
        ensures
            r.0 == (self.0 < 0),
            value::val(r.1@) == rounding::mag_of(self.0 as int),
    {
        let (neg, m): (bool, [u64; 2]) = i128_sign_mag(self.0);
        let mag: [u64; 4] = [m[0], m[1], 0, 0];
        proof {
            value::lemma_val_halves(mag@);
            assert(m@ =~= seq![m@[0], m@[1]]);
            value::lemma_val_two(m@[0], m@[1]);
        }
        (neg, mag)
    }

    /// The rounded product, if it lies in the symmetric range.
    fn product<const RHS_DIGITS: u8>(self, rhs: Decimal128<RHS_DIGITS>, mode: Rounding) -> (r: Option<
        Self,
    >)
        requires
            RHS_DIGITS <= 19,
        ensures
            checked128(r, rounding::product(self.0 as int, rhs.0 as int, RHS_DIGITS, mode)),
    {
        let (an, am): (bool, [u64; 2]) = i128_sign_mag(self.0);
        let (bn, bm): (bool, [u64; 2]) = i128_sign_mag(rhs.0);
        proof {
            rounding::lemma_product_parts(self.0 as int, rhs.0 as int, RHS_DIGITS, mode);
            value::lemma_bpow_small();
        }
        match dec_mul::<RHS_DIGITS, 2, 4>(an, &am, bn, &bm, mode) {
            Some((neg, mag)) => Some(Decimal128(i128_from_sign_mag(neg, mag))),
            None => None,
        }
    }

    /// The rounded quotient, if there is one in the symmetric range.
    fn quotient<const TO_DIGITS: u8>(self, rhs: Self, mode: Rounding) -> (r: Option<
        Decimal128<TO_DIGITS>,
    >)
        requires
            TO_DIGITS <= 19,
        ensures
            rhs.0 == 0 ==> r is None,
            rhs.0 != 0 ==> checked128(
                r,
                rounding::quotient(self.0 as int, rhs.0 as int, TO_DIGITS, mode),
            ),
    {
        let (an, am): (bool, [u64; 2]) = i128_sign_mag(self.0);
        let (bn, bm): (bool, [u64; 2]) = i128_sign_mag(rhs.0);
        proof {
            rounding::lemma_quotient_parts(self.0 as int, rhs.0 as int, TO_DIGITS, mode);
            value::lemma_bpow_small();
        }
        match dec_div::<TO_DIGITS, 2, 3>(an, &am, bn, &bm, mode) {
            Some((neg, mag)) => Some(Decimal128(i128_from_sign_mag(neg, mag))),
            None => None,
        }
    }

    /// Checked integer multiplication. Computes `self * rhs`, returning `None` if overflow occurred.
    pub fn checked_mul(self, rhs: Self) -> (r: Option<Self>)
        requires
            DIGITS <= 19,
        ensures
            checked128(
                r,
                rounding::product(self.0 as int, rhs.0 as int, DIGITS, Rounding::HalfUp),
            ),
    {
        self.product(rhs, Rounding::HalfUp)
    }

    /// Checked integer division. Computes `self / rhs`, returning `None` if `rhs == 0` or the division results in overflow.
    pub fn checked_div(self, rhs: Self) -> (r: Option<Self>)
        requires
            DIGITS <= 19,
        ensures
            rhs.0 == 0 ==> r is None,
            rhs.0 != 0 ==> checked128(
                r,
                rounding::quotient(self.0 as int, rhs.0 as int, DIGITS, Rounding::HalfUp),
            ),
    {
        self.quotient::<DIGITS>(rhs, Rounding::HalfUp)
    }

    /// Takes the reciprocal (inverse) of a number, 1/x.
    pub fn recip(self) -> (r: Self)
        requires
            DIGITS <= 19,
            self.0 != 0,
            rounding::within(
                rounding::quotient(pow10::wide_scale(DIGITS), self.0 as int, DIGITS, Rounding::HalfUp),
                two127(),
            ),
        ensures
            r.0 == rounding::quotient(
                pow10::wide_scale(DIGITS),
                self.0 as int,
                DIGITS,
                Rounding::HalfUp,
            ),
    {
        Self::one().div_rounded(self, Rounding::HalfUp)
    }

    /// Returns the integer part of a number.
    pub fn trunc(self) -> (r: Self)
        requires
            DIGITS <= 19,
        ensures
            r.0 == rounding::trunc_div(self.0 as int, pow10::p10(DIGITS)) * pow10::p10(DIGITS),
    {
        proof {
            pow10::lemma_p10_word(DIGITS);
            rounding::lemma_trunc_parts(self.0 as int, pow10::p10(DIGITS));
        }
        Decimal128(self.0 - self.fract().0)
    }

    /// Returns the largest integer less than or equal to a number.
    pub fn floor(self) -> (r: Self)
        requires
            DIGITS <= 19,
            self.0 as int / pow10::wide_scale(DIGITS) * pow10::wide_scale(DIGITS) >= i128::MIN,
        ensures
            r.0 == self.0 as int / pow10::wide_scale(DIGITS) * pow10::wide_scale(DIGITS),
    {
        proof {
            pow10::lemma_p10_word(DIGITS);
            rounding::lemma_round_down(self.0 as int, pow10::p10(DIGITS));
            rounding::lemma_floor_ceil(self.0 as int, pow10::p10(DIGITS));
        }
        Decimal128(round_units::<DIGITS>(self.0, Rounding::Down))
    }

    /// Returns the smallest integer greater than or equal to a number.
    pub fn ceil(self) -> (r: Self)
        requires
            DIGITS <= 19,
            -(-(self.0 as int) / pow10::wide_scale(DIGITS)) * pow10::wide_scale(DIGITS) <= i128::MAX,
        ensures
            r.0 == -(-(self.0 as int) / pow10::wide_scale(DIGITS)) * pow10::wide_scale(DIGITS),
    {
        proof {
            pow10::lemma_p10_word(DIGITS);
            rounding::lemma_round_up(self.0 as int, pow10::p10(DIGITS));
            rounding::lemma_floor_ceil(self.0 as int, pow10::p10(DIGITS));
        }
        Decimal128(round_units::<DIGITS>(self.0, Rounding::Up))
    }

    /// Returns the nearest integer to a number. Round half-way cases away from
    /// `0.0`.
    pub fn round(self) -> (r: Self)
        requires
            DIGITS <= 19,
            self.rounds_in_range(pow10::wide_scale(DIGITS), Rounding::HalfUp),
        ensures
            r.0 == self.rounded_raw(pow10::wide_scale(DIGITS), Rounding::HalfUp),
    {
        self.round_to(Rounding::HalfUp)
    }

    /// The multiple of `unit` smallest units that this value rounds to.
    pub open spec fn rounded_raw(self, unit: int, mode: Rounding) -> int {
        rounding::round_div(self.0 as int, unit as nat, mode) * unit
    }

    /// Rounding to a multiple of `unit` stays inside the backing integer.
    pub open spec fn rounds_in_range(self, unit: int, mode: Rounding) -> bool {
        i128::MIN <= self.rounded_raw(unit, mode) <= i128::MAX
    }

    /// Explicitly rounds the value using the specified rounding mode.
    pub fn round_to(self, mode: Rounding) -> (r: Self)
        requires
            DIGITS <= 19,
            self.rounds_in_range(pow10::wide_scale(DIGITS), mode),
        ensures
            r.0 == self.rounded_raw(pow10::wide_scale(DIGITS), mode),
    {
        Decimal128(round_units::<DIGITS>(self.0, mode))
    }

    /// Multiply by another decimal, explicitly applying the given rounding mode.
    ///
    /// The right-hand side may have a different scale: the exact product is
    /// rounded once to `self`'s scale, so an amount times a high-precision
    /// rate needs no intermediate conversion.
    pub fn mul_rounded<const RHS_DIGITS: u8>(self, rhs: Decimal128<RHS_DIGITS>, mode: Rounding) -> (r:
        Self)
        requires
            RHS_DIGITS <= 19,
            rounding::within(
                rounding::product(self.0 as int, rhs.0 as int, RHS_DIGITS, mode),
                two127(),
            ),
        ensures
            r.0 == rounding::product(self.0 as int, rhs.0 as int, RHS_DIGITS, mode),
    {
        match self.product(rhs, mode) {
            Some(v) => v,
            None => unreached(),
        }
    }

    /// Divide by another decimal, explicitly applying the given rounding mode.
    pub fn div_rounded(self, rhs: Self, mode: Rounding) -> (r: Self)
        requires
            DIGITS <= 19,
            rhs.0 != 0,
            rounding::within(
                rounding::quotient(self.0 as int, rhs.0 as int, DIGITS, mode),
                two127(),
            ),
        ensures
            r.0 == rounding::quotient(self.0 as int, rhs.0 as int, DIGITS, mode),
    {
        self.div_rounded_to::<DIGITS>(rhs, mode)
    }

    /// Divide by another decimal of the same scale, producing the quotient at
    /// an explicitly chosen scale with the given rounding mode. The exact
    /// quotient is rounded once at `TO_DIGITS` digits, so a proportion of two
    /// amounts can be taken directly as a higher-precision rate.
    pub fn div_rounded_to<const TO_DIGITS: u8>(self, rhs: Self, mode: Rounding) -> (r: Decimal128<
        TO_DIGITS,
    >)
        requires
            TO_DIGITS <= 19,
            rhs.0 != 0,
            rounding::within(
                rounding::quotient(self.0 as int, rhs.0 as int, TO_DIGITS, mode),
                two127(),
            ),
        ensures
            r.0 == rounding::quotient(self.0 as int, rhs.0 as int, TO_DIGITS, mode),
    {
        match self.quotient::<TO_DIGITS>(rhs, mode) {
            Some(v) => v,
            None => unreached(),
        }
    }

    /// Divide by an integer, explicitly applying the given rounding mode: the
    /// exact quotient is rounded once at the type's own scale. Equivalent to
    /// `div_rounded` by `Decimal128::from(n)` but skips re-scaling the
    /// dividend: the divisor is a single word, so this is plain word division.
    ///
    /// The one quotient that the backing integer cannot hold, of its most
    /// negative value by -1, wraps to that value.
    pub fn div_int_rounded(self, n: i64, mode: Rounding) -> (r: Self)
        requires
            n != 0,
        ensures
            r.0 == (if self.0 == i128::MIN && n == -1 {
                i128::MIN as int
            } else {
                rounding::round_quot(self.0 as int, n as int, mode)
            }),
    {
        let (an, am): (bool, [u64; 2]) = i128_sign_mag(self.0);
        let mut mag: [u64; 2] = am;
        let neg: bool = an != (n < 0);
        let (_, dm): (bool, [u64; 1]) = i64_sign_mag(n);
        proof {
            assert(dm@ =~= seq![dm@[0]]);
            value::lemma_val_one(dm@[0]);
        }
        let d: u64 = dm[0];
        let rem: u64 = div_words_by_word(&mut mag, d);
        let ghost m: nat = rounding::mag_of(self.0 as int);
        proof {
            rounding::lemma_round_mag_parts(m, d as nat, value::val(mag@), rem as nat, neg, mode);
            rounding::lemma_quot_bound(m, d as nat, neg, mode);
            crate::arith::lemma_parity(mag@);
            assert(mag@ =~= seq![mag@[0], mag@[1]]);
            value::lemma_val_two(mag@[0], mag@[1]);
        }
        let up: bool = round_up_by_order(
            order_twice_rem_u64(rem, d),
            rem == 0,
            mag[0] & 1 != 0,
            neg,
            mode,
        );
        let q: u128 = join(mag[1], mag[0]);
        let k: u128 = if up {
            q + 1
        } else {
            q
        };
        if !neg && k > i128::MAX as u128 {
            return Decimal128(i128::MIN);
        }
        Decimal128(signed128(neg, k))
    }

    /// Returns the fractional part of a number.
    pub fn fract(self) -> (r: Self)
        requires
            DIGITS <= 19,
        ensures
            r.0 == rounding::trunc_rem(self.0 as int, pow10::p10(DIGITS)),
    {
        let (q, rem): (u128, u64) = div_rem_u128_pow10::<DIGITS>(abs128(self.0));
        proof {
            pow10::lemma_p10_word(DIGITS);
            rounding::lemma_trunc_parts(self.0 as int, pow10::p10(DIGITS));
            rounding::lemma_round_mag_parts(
                rounding::mag_of(self.0 as int),
                pow10::p10(DIGITS),
                q as nat,
                rem as nat,
                false,
                Rounding::Down,
            );
        }
        Decimal128(signed128(self.0 < 0, rem as u128))
    }

    /// Returns `true` if `self` is positive and `false` if the number is zero or negative.
    pub fn is_positive(self) -> (r: bool)
        ensures
            r == (self.0 > 0),
    {
        self.0 > 0
    }

    /// Returns `true` if `self` is negative and `false` if the number is zero or positive.
    pub fn is_negative(self) -> (r: bool)
        ensures
            r == (self.0 < 0),
    {
        self.0 < 0
    }

    /// Returns a number that represents the sign of `self`.
    ///
    /// - `1.0` if the number is positive
    /// - `-1.0` if the number is negative
    /// - `0` if the number is `0`
    pub fn signum(self) -> (r: Self)
        requires
            DIGITS <= 19,
        ensures
            r.0 == (if self.0 > 0 {
                pow10::wide_scale(DIGITS)
            } else if self.0 < 0 {
                -pow10::wide_scale(DIGITS)
            } else {
                0
            }),
    {
        if self.0 < 0 {
            Self::minus_one()
        } else if self.0 > 0 {
            Self::one()
        } else {
            Self::zero()
        }
    }
}

impl<const DIGITS: u8> Decimal128<DIGITS> {
    /// The backing integer as an unsigned double word with the same bits.
    pub open spec fn bits(self) -> nat {
        bytes::bits128(self.0 as int)
    }

    /// Raw transmutation to the backing scaled integer.
    pub fn to_bits(self) -> (r: i128)
        ensures
            r == self.0,
    {
        self.0
    }

    /// Raw transmutation from a backing scaled integer.
    pub fn from_bits(v: i128) -> (r: Self)
        ensures
            r.0 == v,
    {
        Decimal128(v)
    }

    /// Return the memory representation of this integer as a byte array in big-endian (network) byte order.
    pub fn to_be_bytes(self) -> (r: [u8; 16])
        ensures
            r@ == bytes::le_bytes(self.bits(), 16).reverse(),
    {
        reversed(&self.to_le_bytes())
    }

    /// Return the memory representation of this integer as a byte array in little-endian byte order.
    pub fn to_le_bytes(self) -> (r: [u8; 16])
        ensures
            r@ == bytes::le_bytes(self.bits(), 16),
    {
        proof {
            bytes::lemma_pow256_words();
        }
        to_le::<16>(i128_bits(self.0))
    }

    /// Create an integer value from its representation as a byte array in big endian.
    pub fn from_be_bytes(bytes: [u8; 16]) -> (r: Self)
        ensures
            r.bits() == bytes::le_value(bytes@.reverse()),
    {
        Self::from_le_bytes(reversed(&bytes))
    }

    /// Create an integer value from its representation as a byte array in little endian.
    pub fn from_le_bytes(bytes: [u8; 16]) -> (r: Self)
        ensures
            r.bits() == bytes::le_value(bytes@),
    {
        proof {
            bytes::lemma_pow256_words();
        }
        Decimal128(i128_from_bits(from_le(&bytes)))
    }

    /// Raises a number to an integer power.
    pub fn powi(self, exp: u32) -> (r: Self)
        requires
            DIGITS <= 19,
            rounding::power(self.0 as int, pow10::wide_scale(DIGITS), exp as nat, DIGITS, two127()) is Some,
        ensures
            Some(r.0 as int) == rounding::power(
                self.0 as int,
                pow10::wide_scale(DIGITS),
                exp as nat,
                DIGITS,
                two127(),
            ),
    {
        let mut exp: u32 = exp;
        let mut base: Self = self;
        let mut acc: Self = Self::one();
        let ghost goal: Option<int> = rounding::power(
            self.0 as int,
            pow10::wide_scale(DIGITS),
            exp as nat,
            DIGITS,
            two127(),
        );
        while exp > 1
            invariant
                DIGITS <= 19,
                goal is Some,
                goal == rounding::power(
                    base.0 as int,
                    acc.0 as int,
                    exp as nat,
                    DIGITS,
                    two127(),
                ),
            decreases exp,
        {
            if exp % 2 == 1 {
                acc = base.mul_rounded(acc, Rounding::HalfUp);
            }
            exp = exp / 2;
            base = base.mul_rounded(base, Rounding::HalfUp);
        }
        // Deal with the final bit of the exponent separately, since
        // squaring the base afterwards is not necessary and may cause a
        // needless overflow.
        if exp == 1 {
            acc = base.mul_rounded(acc, Rounding::HalfUp);
        }
        acc
    }

    /// Restrict a value to a certain interval.
    /// Returns max if self is greater than max, and min if self is less than min.
    /// Otherwise this returns self.
    pub fn clamp(self, min: Self, max: Self) -> (r: Self)
        ensures
            r == (if self.0 < min.0 {
                min
            } else if self.0 > max.0 {
                max
            } else {
                self
            }),
            min.0 <= max.0 ==> min.0 <= r.0 <= max.0,
    {
        if self.0 < min.0 {
            min
        } else if self.0 > max.0 {
            max
        } else {
            self
        }
    }

    /// Returns the minimum of the two numbers.
    pub fn min(self, other: Self) -> (r: Self)
        ensures
            r == (if self.0 <= other.0 {
                self
            } else {
                other
            }),
    {
        if self.0 <= other.0 {
            self
        } else {
            other
        }
    }

    /// Returns the maximum of the two numbers.
    pub fn max(self, other: Self) -> (r: Self)
        ensures
            r == (if self.0 >= other.0 {
                self
            } else {
                other
            }),
    {
        if self.0 >= other.0 {
            self
        } else {
            other
        }
    }

    /// The text of the value, without trailing fractional zeros.
    pub open spec fn text(self) -> Seq<u8> {
        render::decimal_text(
            rounding::mag_of(self.0 as int),
            self.0 < 0,
            DIGITS as nat,
            None,
            render::AmountSign::Negative,
        )
    }

    /// The value in decimal, without trailing fractional zeros.
    pub fn to_string(&self) -> (r: String)
        requires
            DIGITS <= 19,
        ensures
            r@ == render::as_chars(self.text()),
    {
        let (neg, mag): (bool, [u64; 4]) = self.sign_mag4();
        render::signed_text(&mag, neg, DIGITS as usize)
    }

    /// The digits of the value without its sign, for a formatter that pads
    /// them: at the asked precision, or a marker where they do not fit.
    pub fn to_unsigned_string(&self, precision: Option<usize>) -> (r: String)
        requires
            DIGITS <= 19,
        ensures
            r@ == render::unsigned_chars(
                rounding::mag_of(self.0 as int),
                self.0 < 0,
                DIGITS as nat,
                precision,
            ),
    {
        let (neg, mag): (bool, [u64; 4]) = self.sign_mag4();
        render::unsigned_text(&mag, neg, DIGITS as usize, precision)
    }
}

/// The multiple of 10^DIGITS that `v` rounds to.
fn round_units<const DIGITS: u8>(v: i128, mode: Rounding) -> (r: i128)
    requires
        DIGITS <= 19,
        i128::MIN <= rounding::round_div(v as int, pow10::p10(DIGITS), mode) * pow10::p10(DIGITS)
            <= i128::MAX,
    ensures
        r == rounding::round_div(v as int, pow10::p10(DIGITS), mode) * pow10::p10(DIGITS),
{
    let neg: bool = v < 0;
    let m: u128 = abs128(v);
    let unit: u64 = scale_word(DIGITS);
    let (q, rem): (u128, u64) = div_rem_u128_pow10::<DIGITS>(m);
    let up: bool = round_up_by_order(
        order_twice_rem_u64(rem, unit),
        rem == 0,
        q % 2 == 1,
        neg,
        mode,
    );
    proof {
        pow10::lemma_p10_word(DIGITS);
        rounding::lemma_round_mag_parts(m as nat, unit as nat, q as nat, rem as nat, neg, mode);
        let k: int = rounding::round_mag(m as nat, unit as nat, neg, mode) as int;
        assert((-k) * unit == -(k * unit)) by (nonlinear_arith);
        assert(k * unit >= 0) by (nonlinear_arith)
            requires
                k >= 0,
        ;
        assert(k <= k * unit) by (nonlinear_arith)
            requires
                k >= 0,
                unit >= 1,
        ;
    }
    let k: u128 = if up {
        q + 1
    } else {
        q
    };
    signed128(neg, k * unit as u128)
}

} // verus!
