//! 64-bit backed decimal fixed-point type.

use crate::arith::{dec_div, dec_mul};
use crate::bytes;
use crate::bytes::{
    from_le, i64_bits, i64_from_bits, reversed, to_le, word_from_ne, word_to_ne,
};
use crate::error::AmountErrorKind;
use crate::parse;
use crate::parse::parse_decimal_mag_rounded;
use crate::parts;
use crate::parts::{rescale_exact, rescale_rounded};
use crate::pow10;
use crate::pow10::ipow10;
use crate::render;
use crate::rounding;
use crate::rounding::{order_twice_rem_u64, round_up_by_order, Rounding};
use crate::value;
use core::cmp::Ordering;
use vstd::pervasive::unreached;
use vstd::prelude::*;
use vstd::std_specs::cmp::{PartialEqSpecImpl, PartialOrdSpecImpl};

verus! {

/// 2^63: every symmetric value lies strictly between its negative and it.
pub open spec fn two63() -> int {
    0x8000_0000_0000_0000
}

/// The magnitude of an i64.
fn abs64(v: i64) -> (m: u64)
    ensures
        m == rounding::mag_of(v as int),
{
    if v < 0 {
        (-1 - v) as u64 + 1
    } else {
        v as u64
    }
}

/// The i64 with a given sign and magnitude.
fn signed64(neg: bool, m: u64) -> (v: i64)
    requires
        i64::MIN <= rounding::signed(neg, m as nat) <= i64::MAX,
    ensures
        v == rounding::signed(neg, m as nat),
{
    if !neg {
        m as i64
    } else if m == 0 {
        0
    } else {
        -1 - (m - 1) as i64
    }
}

/// The remainder of a division, with the sign of the dividend.
pub fn rem64(a: i64, b: i64) -> (r: i64)
    requires
        b != 0,
    ensures
        r == rounding::trunc_rem(a as int, rounding::mag_of(b as int)),
{
    proof {
        rounding::lemma_trunc_parts(a as int, rounding::mag_of(b as int));
    }
    signed64(a < 0, abs64(a) % abs64(b))
}

/// Splits an i64 into a sign and a one-limb magnitude for the shared
/// sign-magnitude cores.
pub fn i64_sign_mag(v: i64) -> (r: (bool, [u64; 1]))
    ensures
        r.0 == (v < 0),
        value::val(r.1@) == rounding::mag_of(v as int),
{
    let mag: [u64; 1] = [abs64(v)];
    proof {
        assert(mag@ =~= seq![mag@[0]]);
        value::lemma_val_one(mag@[0]);
    }
    (v < 0, mag)
}

/// Rebuilds an i64 from a sign and a one-limb magnitude with the top bit
/// clear (guaranteed by the shared cores' symmetric-range check).
pub fn i64_from_sign_mag(neg: bool, mag: [u64; 1]) -> (v: i64)
    requires
        value::val(mag@) < two63(),
    ensures
        v == rounding::signed(neg, value::val(mag@)),
{
    proof {
        assert(mag@ =~= seq![mag@[0]]);
        value::lemma_val_one(mag@[0]);
    }
    signed64(neg, mag[0])
}

/// The multiple of `unit` that `v` rounds to.
fn round_units(v: i64, unit: u64, mode: Rounding) -> (r: i64)
    requires
        unit > 0,
        i64::MIN <= rounding::round_div(v as int, unit as nat, mode) * unit <= i64::MAX,
    ensures
        r == rounding::round_div(v as int, unit as nat, mode) * unit,
{
    let neg: bool = v < 0;
    let m: u64 = abs64(v);
    let q: u64 = m / unit;
    let rem: u64 = m % unit;
    let up: bool = round_up_by_order(
        order_twice_rem_u64(rem, unit),
        rem == 0,
        q % 2 == 1,
        neg,
        mode,
    );
    proof {
        rounding::lemma_round_close(v as int, unit as nat, mode);
        let k: int = rounding::round_mag(m as nat, unit as nat, neg, mode) as int;
        assert((-k) * unit == -(k * unit)) by (nonlinear_arith);
        assert(k * unit >= 0) by (nonlinear_arith)
            requires
                k >= 0,
        ;
        assert(k <= k * unit) by (nonlinear_arith)
            requires
                k >= 0,
                unit >= 1,
        ;
    }
    let k: u64 = if up {
        q + 1
    } else {
        q
    };
    signed64(neg, k * unit)
}

/// Amount64 type implements decimal fixed-point arithmetic for financial computations.
/// It is implemented to be as efficient as possible with most common add/sub operations
/// to be native binary add/sub.
/// Actual decimal processing is needed for multiplication and division where rounding
/// should follow specific rules.
/// Number of decimal points is chosen to be 4 - this seems to be enough for most use cases
/// except for exchange rates where sometimes up to 8 decimal digits is required
#[derive(Debug, Clone, Copy, Eq, Ord, Hash)]
pub struct Decimal<const DIGITS: u8>(pub i64);

/// Amount64 is a 64-bit integer based decimal type with 4 decimal digits precision.
pub type Amount64 = Decimal<4>;

/// Rate64 is a 64-bit integer based decimal type with 8 decimal digits precision.
pub type Rate64 = Decimal<8>;

impl<const DIGITS: u8> PartialEq for Decimal<DIGITS> {
    fn eq(&self, other: &Self) -> (r: bool) {
        self.0 == other.0
    }
}

impl<const DIGITS: u8> PartialEqSpecImpl for Decimal<DIGITS> {
    open spec fn obeys_eq_spec() -> bool {
        true
    }

    open spec fn eq_spec(&self, other: &Self) -> bool {
        self.0 == other.0
    }
}

impl<const DIGITS: u8> PartialOrd for Decimal<DIGITS> {
    fn partial_cmp(&self, other: &Self) -> (r: Option<Ordering>) {
        if self.0 < other.0 {
            Some(Ordering::Less)
        } else if self.0 > other.0 {
            Some(Ordering::Greater)
        } else {
            Some(Ordering::Equal)
        }
    }
}

impl<const DIGITS: u8> PartialOrdSpecImpl for Decimal<DIGITS> {
    open spec fn obeys_partial_cmp_spec() -> bool {
        true
    }

    open spec fn partial_cmp_spec(&self, other: &Self) -> Option<Ordering> {
        if self.0 < other.0 {
            Some(Ordering::Less)
        } else if self.0 > other.0 {
            Some(Ordering::Greater)
        } else {
            Some(Ordering::Equal)
        }
    }
}

impl<const DIGITS: u8> Default for Decimal<DIGITS> {
    fn default() -> (r: Self)
        ensures
            r.0 == 0,
    {
        Decimal(0)
    }
}

/// The backing integer of `1` at a number of fractional digits: 10^digits. From
/// 19 digits on that does not fit an i64, and 0 stands for it.
pub open spec fn scale64(digits: u8) -> int {
    pow10::ipow10_spec(digits as int)
}

/// Computes [`scale64`].
pub fn scale_of(digits: u8) -> (r: i64)
    ensures
        r == scale64(digits),
{
    ipow10(digits as i64)
}

/// The scale of a type whose scale fits an i64.
pub proof fn lemma_scale64(digits: u8)
    requires
        digits <= 18,
    ensures
        scale64(digits) == pow10::p10(digits),
        1 <= scale64(digits) <= 1_000_000_000_000_000_000,
        digits == 0 ==> scale64(digits) == 1,
        digits >= 1 ==> scale64(digits) % 2 == 0 && scale64(digits) >= 10,
        digits >= 2 ==> scale64(digits) % 100 == 0 && scale64(digits) >= 100,
{
    pow10::lemma_p10_word(digits);
    if digits >= 2 {
        pow10::lemma_pow10_add(2, (digits - 2) as nat);
        pow10::lemma_pow10_words();
        let k: int = pow10::pow10((digits - 2) as nat) as int;
        pow10::lemma_pow10_pos((digits - 2) as nat);
        assert((100 * k) % 100 == 0);
    }
}

impl<const DIGITS: u8> Decimal<DIGITS> {
    /// The decimal scale: the number of fractional digits.
    pub fn scale() -> (r: i32)
        ensures
            r == DIGITS,
    {
        DIGITS as i32
    }

    /// The multiplier used to scale values up. Equal to 10^DIGITS, which fits
    /// up to 18 digits.
    pub fn scale_int() -> (r: i64)
        requires
            DIGITS <= 18,
        ensures
            r == scale64(DIGITS),
    {
        scale_of(DIGITS)
    }

    /// The largest value that can be represented by this type.
    pub fn max_value() -> (r: Self)
        ensures
            r.0 == two63() - 1,
    {
        Decimal(i64::MAX)
    }

    /// The smallest value that can be represented by this type: the range is
    /// symmetric.
    pub fn min_value() -> (r: Self)
        ensures
            r.0 == 1 - two63(),
    {
        Decimal(-i64::MAX)
    }

    /// The value '1'.
    pub fn one() -> (r: Self)
        requires
            DIGITS <= 18,
        ensures
            r.0 == scale64(DIGITS),
    {
        Decimal(Self::scale_int())
    }

    /// The value '-1'.
    pub fn minus_one() -> (r: Self)
        requires
            DIGITS <= 18,
        ensures
            r.0 == -scale64(DIGITS),
    {
        let s: i64 = Self::scale_int();
        proof {
            pow10::lemma_pow10_pos(DIGITS as nat);
        }
        Decimal(-s)
    }

    /// The value '0'.
    pub fn zero() -> (r: Self)
        ensures
            r.0 == 0,
    {
        Decimal(0)
    }

    /// The smallest integer value that can be represented by this type.
    pub fn int_min() -> (r: i64)
        requires
            DIGITS <= 18,
        ensures
            r == -((two63() - 1) / scale64(DIGITS)),
    {
        -Self::int_max()
    }

    /// The largest integer value that can be represented by this type.
    pub fn int_max() -> (r: i64)
        requires
            DIGITS <= 18,
        ensures
            r == (two63() - 1) / scale64(DIGITS),
            0 <= r,
    {
        proof {
            lemma_scale64(DIGITS);
        }
        (i64::MAX as u64 / Self::scale_int() as u64) as i64
    }

    /// Half of the scaling factor, used for rounding.
    pub fn scale_int_half() -> (r: i64)
        requires
            DIGITS <= 18,
        ensures
            r == scale64(DIGITS) / 2,
    {
        proof {
            pow10::lemma_pow10_pos(DIGITS as nat);
        }
        (Self::scale_int() as u64 / 2) as i64
    }

    /// Scale factor for 1/100 of unit.
    pub fn scale_int_100() -> (r: i64)
        requires
            DIGITS <= 18,
        ensures
            r == scale64(DIGITS) / 100,
    {
        proof {
            pow10::lemma_pow10_pos(DIGITS as nat);
        }
        (Self::scale_int() as u64 / 100) as i64
    }

    /// Half of scale factor for 1/100 of unit.
    pub fn scale_int_half_100() -> (r: i64)
        requires
            DIGITS <= 18,
        ensures
            r == scale64(DIGITS) / 100 / 2,
    {
        proof {
            pow10::lemma_pow10_pos(DIGITS as nat);
        }
        (Self::scale_int_100() as u64 / 2) as i64
    }

    /// Constructs a new decimal integer with value 0.
    pub fn new() -> (r: Self)
        ensures
            r.0 == 0,
    {
        Decimal(0)
    }

    /// Tries to convert an i64 to a Decimal.
    pub fn from_i64(val: i64) -> (r: Result<Self, AmountErrorKind>)
        requires
            DIGITS <= 18,
        ensures
            r == (if rounding::within(val * scale64(DIGITS), two63()) {
                Ok(Decimal::<DIGITS>((val * scale64(DIGITS)) as i64))
            } else {
                Err(AmountErrorKind::Overflow)
            }),
    {
        proof {
            lemma_scale64(DIGITS);
            lemma_int_range(val as int, scale64(DIGITS));
        }
        if val <= Self::int_max() && val >= Self::int_min() {
            Ok(Decimal(val * Self::scale_int()))
        } else {
            Err(AmountErrorKind::Overflow)
        }
    }

    /// Converts the Decimal back into an i64 (truncating the fractional part).
    pub fn to_i64(self) -> (r: i64)
        requires
            DIGITS <= 18,
        ensures
            r == rounding::trunc_div(self.0 as int, pow10::p10(DIGITS)),
    {
        proof {
            lemma_scale64(DIGITS);
            rounding::lemma_trunc_parts(self.0 as int, pow10::p10(DIGITS));
        }
        signed64(self.0 < 0, abs64(self.0) / Self::scale_int() as u64)
    }

    /// Returns the raw backing value widened to `i128`.
    ///
    /// This is the unscaled mantissa: the stored integer such that the value
    /// equals `mantissa * 10^(-SCALE)`.
    pub fn mantissa(self) -> (r: i128)
        ensures
            r == self.0,
    {
        self.0 as i128
    }

    /// Decomposes the value into `(mantissa, exponent)` such that the value
    /// equals `mantissa * 10^exponent`.
    pub fn to_decimal_parts(self) -> (r: (i128, i32))
        ensures
            r.0 == self.0,
            r.1 == -(DIGITS as int),
    {
        (self.0 as i128, -(DIGITS as i32))
    }
}

/// An integer fits once scaled exactly when it is at most the largest integer.
proof fn lemma_int_range(v: int, s: int)
    requires
        s > 0,
    ensures
        -((two63() - 1) / s) <= v <= (two63() - 1) / s <==> rounding::within(v * s, two63()),
{
    let m: int = two63() - 1;
    let q: int = m / s;
    vstd::arithmetic::div_mod::lemma_fundamental_div_mod(m, s);
    vstd::arithmetic::div_mod::lemma_mod_bound(m, s);
    assert(v <= q ==> v * s <= s * q) by (nonlinear_arith)
        requires
            s > 0,
    ;
    assert(v >= q + 1 ==> v * s >= s * q + s) by (nonlinear_arith)
        requires
            s > 0,
    ;
    assert(v >= -q ==> v * s >= -(s * q)) by (nonlinear_arith)
        requires
            s > 0,
    ;
    assert(v <= -q - 1 ==> v * s <= -(s * q) - s) by (nonlinear_arith)
        requires
            s > 0,
    ;
}

/// Converts a string in base 10 to a fixed-point scaled value.
/// Can be used with non-default scale to handle higher precision
/// exchange rates and other scenarios with longer fractional parts.
///
/// Fractional digits beyond `scale` are dropped with `Rounding::HalfUp`. Use
/// [`parse_decimal_i64_rounded`] to choose a different rounding mode.
pub fn parse_decimal_i64(src: &str, scale: u8) -> (r: Result<i64, AmountErrorKind>)
    requires
        scale <= 19,
    ensures
        int_result(r) == parse::parse_int(src@, scale as nat, 1, Rounding::HalfUp),
{
    parse_decimal_i64_rounded(src, scale, Rounding::HalfUp)
}

/// Converts a string in base 10 to a fixed-point scaled value, rounding any
/// fractional digits beyond `scale` with the given [`Rounding`] mode.
///
/// Inputs that carry more precision than `scale` can hold are accepted (never an
/// error) and rounded; trailing zeros are dropped exactly. The rounding is
/// "correct" in the IEEE sense: it inspects the first dropped digit together with
/// a sticky flag (whether any further digit is non-zero) and, for `HalfEven`, the
/// parity of the retained value.
pub fn parse_decimal_i64_rounded(src: &str, scale: u8, mode: Rounding) -> (r: Result<
    i64,
    AmountErrorKind,
>)
    requires
        scale <= 19,
    ensures
        int_result(r) == parse::parse_int(src@, scale as nat, 1, mode),
{
    match parse_decimal_mag_rounded::<1>(src, scale, mode) {
        Ok((neg, mag)) => {
            proof {
                value::lemma_bpow_small();
                assert(mag@ =~= seq![mag@[0]]);
                value::lemma_val_one(mag@[0]);
            }
            if mag[0] > i64::MAX as u64 {
                return Err(AmountErrorKind::Overflow);
            }
            Ok(i64_from_sign_mag(neg, mag))
        },
        Err(e) => Err(e),
    }
}

/// A result as a number.
pub open spec fn int_result(r: Result<i64, AmountErrorKind>) -> Result<int, AmountErrorKind> {
    match r {
        Ok(v) => Ok(v as int),
        Err(e) => Err(e),
    }
}

/// A decimal result as a number of its smallest units.
pub open spec fn raw_result<const DIGITS: u8>(
    r: Result<Decimal<DIGITS>, AmountErrorKind>,
) -> Result<int, AmountErrorKind> {
    match r {
        Ok(d) => Ok(d.0 as int),
        Err(e) => Err(e),
    }
}

/// A checked result: the exact value `v` where it lies in the symmetric range,
/// otherwise none.
pub open spec fn checked64<const DIGITS: u8>(r: Option<Decimal<DIGITS>>, v: int) -> bool {
    &&& r is Some <==> rounding::within(v, two63())
    &&& r matches Some(d) ==> d.0 == v
}

impl<const DIGITS: u8> Decimal<DIGITS> {
    /// Builds a value from `(mantissa, exponent)`, where the represented number
    /// is `mantissa * 10^exponent`.
    ///
    /// The value is rescaled to this type's fixed scale. Scaling up multiplies
    /// by a power of ten and is `Overflow` where the result does not fit the
    /// backing integer. Scaling down is exact-or-error: it succeeds only when
    /// the dropped digits are all zero, otherwise it is `Inexact`.
    pub fn from_decimal_parts(mantissa: i128, exponent: i32) -> (r: Result<Self, AmountErrorKind>)
        ensures
            raw_result(r) == parts::exact_parts(
                mantissa as int,
                exponent + DIGITS,
                i64::MIN as int,
                i64::MAX as int,
            ),
    {
        match rescale_exact(mantissa, exponent, DIGITS) {
            Ok(v) => Self::from_wide(v),
            Err(e) => Err(e),
        }
    }

    /// Builds a value from `(mantissa, exponent)`, rounding to this type's scale
    /// with the given [`Rounding`] mode when the input carries more fractional
    /// digits than can be held exactly.
    ///
    /// This is the deliberately-inexact counterpart of
    /// [`from_decimal_parts`](Self::from_decimal_parts): it is never `Inexact`.
    /// The only failure is `Overflow`, when the value does not fit the backing
    /// integer. Scaling *up* is always exact, so the rounding mode only matters
    /// when digits are dropped.
    pub fn from_decimal_parts_rounded(mantissa: i128, exponent: i32, mode: Rounding) -> (r: Result<
        Self,
        AmountErrorKind,
    >)
        ensures
            raw_result(r) == parts::rounded_parts(
                mantissa as int,
                exponent + DIGITS,
                mode,
                i64::MIN as int,
                i64::MAX as int,
            ),
    {
        match rescale_rounded(mantissa, exponent, DIGITS, mode) {
            Ok(v) => Self::from_wide(v),
            Err(e) => Err(e),
        }
    }

    /// Fits a scaled value into the backing integer.
    fn from_wide(v: i128) -> (r: Result<Self, AmountErrorKind>)
        ensures
            raw_result(r) == parts::in_range(v as int, i64::MIN as int, i64::MAX as int),
    {
        if v < i64::MIN as i128 || v > i64::MAX as i128 {
            return Err(AmountErrorKind::Overflow);
        }
        Ok(Decimal(v as i64))
    }

    /// Parses a decimal string, rounding any fractional digits beyond this
    /// type's scale with the given [`Rounding`] mode.
    pub fn from_str_rounded(src: &str, mode: Rounding) -> (r: Result<Self, AmountErrorKind>)
        requires
            DIGITS <= 19,
        ensures
            raw_result(r) == parse::parse_int(src@, DIGITS as nat, 1, mode),
    {
        match parse_decimal_i64_rounded(src, DIGITS, mode) {
            Ok(v) => Ok(Decimal(v)),
            Err(e) => Err(e),
        }
    }

    /// Parses a decimal string with [`Rounding::HalfUp`]. Intended for literals
    /// in the source, which are known to be valid.
    pub fn from_str_const(src: &str) -> (r: Self)
        requires
            DIGITS <= 19,
            parse::parse_int(src@, DIGITS as nat, 1, Rounding::HalfUp) is Ok,
        ensures
            Ok::<int, AmountErrorKind>(r.0 as int) == parse::parse_int(
                src@,
                DIGITS as nat,
                1,
                Rounding::HalfUp,
            ),
    {
        match Self::from_str_rounded(src, Rounding::HalfUp) {
            Ok(v) => v,
            Err(_) => unreached(),
        }
    }

    /// Computes the absolute value of self.
    pub fn abs(self) -> (r: Self)
        requires
            self.0 != i64::MIN,
        ensures
            r.0 == rounding::mag_of(self.0 as int),
    {
        if self.0 < 0 {
            Decimal(-self.0)
        } else {
            self
        }
    }

    /// Checked integer addition. Computes `self + rhs`, returning `None` if overflow occurred.
    pub fn checked_add(self, rhs: Self) -> (r: Option<Self>)
        ensures
            r is Some <==> i64::MIN <= self.0 + rhs.0 <= i64::MAX,
            r matches Some(d) ==> d.0 == self.0 + rhs.0,
    {
        match self.0.checked_add(rhs.0) {
            Some(v) => Some(Decimal(v)),
            None => None,
        }
    }

    /// Checked integer subtraction. Computes `self - rhs`, returning `None` if overflow occurred.
    pub fn checked_sub(self, rhs: Self) -> (r: Option<Self>)
        ensures
            r is Some <==> i64::MIN <= self.0 - rhs.0 <= i64::MAX,
            r matches Some(d) ==> d.0 == self.0 - rhs.0,
    {
        match self.0.checked_sub(rhs.0) {
            Some(v) => Some(Decimal(v)),
            None => None,
        }
    }

    /// Sign and 4-limb magnitude (zero-extended), for the shared formatting code.
    pub fn sign_mag4(self) -> (r: (bool, [u64; 4]))
        ensures
            r.0 == (self.0 < 0),
            value::val(r.1@) == rounding::mag_of(self.0 as int),
    {
        let mag: [u64; 4] = [abs64(self.0), 0, 0, 0];
        proof {
            value::lemma_val_halves(mag@);
        }
        (self.0 < 0, mag)
    }

    /// The rounded product, if it lies in the symmetric range.
    fn product<const RHS_DIGITS: u8>(self, rhs: Decimal<RHS_DIGITS>, mode: Rounding) -> (r: Option<
        Self,
    >)
        requires
            RHS_DIGITS <= 19,
        ensures
            checked64(r, rounding::product(self.0 as int, rhs.0 as int, RHS_DIGITS, mode)),
    {
        let (an, am): (bool, [u64; 1]) = i64_sign_mag(self.0);
        let (bn, bm): (bool, [u64; 1]) = i64_sign_mag(rhs.0);
        proof {
            rounding::lemma_product_parts(self.0 as int, rhs.0 as int, RHS_DIGITS, mode);
            value::lemma_bpow_small();
        }
        match dec_mul::<RHS_DIGITS, 1, 2>(an, &am, bn, &bm, mode) {
            Some((neg, mag)) => Some(Decimal(i64_from_sign_mag(neg, mag))),
            None => None,
        }
    }

    /// The rounded quotient, if there is one in the symmetric range.
    fn quotient<const TO_DIGITS: u8>(self, rhs: Self, mode: Rounding) -> (r: Option<
        Decimal<TO_DIGITS>,
    >)
        requires
            TO_DIGITS <= 19,
        ensures
            rhs.0 == 0 ==> r is None,
            rhs.0 != 0 ==> checked64(
                r,
                rounding::quotient(self.0 as int, rhs.0 as int, TO_DIGITS, mode),
            ),
    {
        let (an, am): (bool, [u64; 1]) = i64_sign_mag(self.0);
        let (bn, bm): (bool, [u64; 1]) = i64_sign_mag(rhs.0);
        proof {
            rounding::lemma_quotient_parts(self.0 as int, rhs.0 as int, TO_DIGITS, mode);
            value::lemma_bpow_small();
        }
        match dec_div::<TO_DIGITS, 1, 2>(an, &am, bn, &bm, mode) {
            Some((neg, mag)) => Some(Decimal(i64_from_sign_mag(neg, mag))),
            None => None,
        }
    }

    /// Checked integer multiplication. Computes `self * rhs`, returning `None` if overflow occurred.
    pub fn checked_mul(self, rhs: Self) -> (r: Option<Self>)
        requires
            DIGITS <= 19,
        ensures
            checked64(
                r,
                rounding::product(self.0 as int, rhs.0 as int, DIGITS, Rounding::HalfUp),
            ),
    {
        self.product(rhs, Rounding::HalfUp)
    }

    /// Checked integer division. Computes `self / rhs`, returning `None` if `rhs == 0` or the division results in overflow.
    pub fn checked_div(self, rhs: Self) -> (r: Option<Self>)
        requires
            DIGITS <= 19,
        ensures
            rhs.0 == 0 ==> r is None,
            rhs.0 != 0 ==> checked64(
                r,
                rounding::quotient(self.0 as int, rhs.0 as int, DIGITS, Rounding::HalfUp),
            ),
    {
        self.quotient::<DIGITS>(rhs, Rounding::HalfUp)
    }

    /// Takes the reciprocal (inverse) of a number, 1/x.
    pub fn recip(self) -> (r: Self)
        requires
            DIGITS <= 18,
            self.0 != 0,
            rounding::within(
                rounding::quotient(scale64(DIGITS), self.0 as int, DIGITS, Rounding::HalfUp),
                two63(),
            ),
        ensures
            r.0 == rounding::quotient(
                scale64(DIGITS),
                self.0 as int,
                DIGITS,
                Rounding::HalfUp,
            ),
    {
        Self::one().div_rounded(self, Rounding::HalfUp)
    }

    /// Returns the integer part of a number.
    pub fn trunc(self) -> (r: Self)
        requires
            DIGITS <= 18,
        ensures
            r.0 == rounding::trunc_div(self.0 as int, pow10::p10(DIGITS)) * pow10::p10(DIGITS),
    {
        proof {
            lemma_scale64(DIGITS);
            rounding::lemma_trunc_parts(self.0 as int, pow10::p10(DIGITS));
        }
        Decimal(self.0 - self.fract().0)
    }

    /// Returns the largest integer less than or equal to a number.
    pub fn floor(self) -> (r: Self)
        requires
            DIGITS <= 18,
            self.0 as int / scale64(DIGITS) * scale64(DIGITS) >= i64::MIN,
        ensures
            r.0 == self.0 as int / scale64(DIGITS) * scale64(DIGITS),
    {
        proof {
            lemma_scale64(DIGITS);
            rounding::lemma_round_down(self.0 as int, pow10::p10(DIGITS));
            rounding::lemma_floor_ceil(self.0 as int, pow10::p10(DIGITS));
        }
        Decimal(round_units(self.0, Self::scale_int() as u64, Rounding::Down))
    }

    /// Returns the smallest integer greater than or equal to a number.
    pub fn ceil(self) -> (r: Self)
        requires
            DIGITS <= 18,
            -(-(self.0 as int) / scale64(DIGITS)) * scale64(DIGITS) <= i64::MAX,
        ensures
            r.0 == -(-(self.0 as int) / scale64(DIGITS)) * scale64(DIGITS),
    {
        proof {
            lemma_scale64(DIGITS);
            rounding::lemma_round_up(self.0 as int, pow10::p10(DIGITS));
            rounding::lemma_floor_ceil(self.0 as int, pow10::p10(DIGITS));
        }
        Decimal(round_units(self.0, Self::scale_int() as u64, Rounding::Up))
    }

    /// Returns the nearest integer to a number. Round half-way cases away from
    /// `0.0`.
    pub fn round(self) -> (r: Self)
        requires
            DIGITS <= 18,
            self.rounds_in_range(scale64(DIGITS), Rounding::HalfUp),
        ensures
            r.0 == self.rounded_raw(scale64(DIGITS), Rounding::HalfUp),
    {
        self.round_to(Rounding::HalfUp)
    }

    /// The multiple of `unit` smallest units that this value rounds to.
    pub open spec fn rounded_raw(self, unit: int, mode: Rounding) -> int {
        rounding::round_div(self.0 as int, unit as nat, mode) * unit
    }

    /// Rounding to a multiple of `unit` stays inside the backing integer.
    pub open spec fn rounds_in_range(self, unit: int, mode: Rounding) -> bool {
        i64::MIN <= self.rounded_raw(unit, mode) <= i64::MAX
    }

    /// Rounding to 1/100th (0.01) half-way cases away from `0.0`.
    pub fn round100(self) -> (r: Self)
        requires
            2 <= DIGITS <= 18,
            self.rounds_in_range(scale64(DIGITS) / 100, Rounding::HalfUp),
        ensures
            r.0 == self.rounded_raw(scale64(DIGITS) / 100, Rounding::HalfUp),
    {
        proof {
            lemma_scale64(DIGITS);
        }
        Decimal(round_units(self.0, Self::scale_int_100() as u64, Rounding::HalfUp))
    }

    /// Explicitly rounds the value using the specified rounding mode.
    pub fn round_to(self, mode: Rounding) -> (r: Self)
        requires
            DIGITS <= 18,
            self.rounds_in_range(scale64(DIGITS), mode),
        ensures
            r.0 == self.rounded_raw(scale64(DIGITS), mode),
    {
        proof {
            lemma_scale64(DIGITS);
        }
        Decimal(round_units(self.0, Self::scale_int() as u64, mode))
    }

    /// Multiply by another decimal, explicitly applying the given rounding mode.
    ///
    /// The right-hand side may have a different scale: the exact product is
    /// rounded once to `self`'s scale, so an amount times a high-precision
    /// rate needs no intermediate conversion.
    pub fn mul_rounded<const RHS_DIGITS: u8>(self, rhs: Decimal<RHS_DIGITS>, mode: Rounding) -> (r:
        Self)
        requires
            RHS_DIGITS <= 19,
            rounding::within(
                rounding::product(self.0 as int, rhs.0 as int, RHS_DIGITS, mode),
                two63(),
            ),
        ensures
            r.0 == rounding::product(self.0 as int, rhs.0 as int, RHS_DIGITS, mode),
    {
        match self.product(rhs, mode) {
            Some(v) => v,
            None => unreached(),
        }
    }

    /// Divide by another decimal, explicitly applying the given rounding mode.
    pub fn div_rounded(self, rhs: Self, mode: Rounding) -> (r: Self)
        requires
            DIGITS <= 19,
            rhs.0 != 0,
            rounding::within(
                rounding::quotient(self.0 as int, rhs.0 as int, DIGITS, mode),
                two63(),
            ),
        ensures
            r.0 == rounding::quotient(self.0 as int, rhs.0 as int, DIGITS, mode),
    {
        self.div_rounded_to::<DIGITS>(rhs, mode)
    }

    /// Divide by another decimal of the same scale, producing the quotient at
    /// an explicitly chosen scale with the given rounding mode. The exact
    /// quotient is rounded once at `TO_DIGITS` digits, so a proportion of two
    /// amounts can be taken directly as a higher-precision rate.
    pub fn div_rounded_to<const TO_DIGITS: u8>(self, rhs: Self, mode: Rounding) -> (r: Decimal<
        TO_DIGITS,
    >)
        requires
            TO_DIGITS <= 19,
            rhs.0 != 0,
            rounding::within(
                rounding::quotient(self.0 as int, rhs.0 as int, TO_DIGITS, mode),
                two63(),
            ),
        ensures
            r.0 == rounding::quotient(self.0 as int, rhs.0 as int, TO_DIGITS, mode),
    {
        match self.quotient::<TO_DIGITS>(rhs, mode) {
            Some(v) => v,
            None => unreached(),
        }
    }

    /// Divide by an integer, explicitly applying the given rounding mode: the
    /// exact quotient is rounded once at the type's own scale.
    pub fn div_int_rounded(self, n: i64, mode: Rounding) -> (r: Self)
        requires
            n != 0,
            !(self.0 == i64::MIN && n == -1),
        ensures
            r.0 == rounding::round_quot(self.0 as int, n as int, mode),
    {
        let neg: bool = (self.0 < 0) != (n < 0);
        let m: u64 = abs64(self.0);
        let d: u64 = abs64(n);
        let q: u64 = m / d;
        let rem: u64 = m % d;
        let up: bool = round_up_by_order(
            order_twice_rem_u64(rem, d),
            rem == 0,
            q % 2 == 1,
            neg,
            mode,
        );
        proof {
            rounding::lemma_quot_bound(m as nat, d as nat, neg, mode);
        }
        let k: u64 = if up {
            q + 1
        } else {
            q
        };
        Decimal(signed64(neg, k))
    }

    /// Returns the fractional part of a number.
    pub fn fract(self) -> (r: Self)
        requires
            DIGITS <= 18,
        ensures
            r.0 == rounding::trunc_rem(self.0 as int, pow10::p10(DIGITS)),
    {
        // fractional part would be a reminder of division by the scaler
        proof {
            lemma_scale64(DIGITS);
            rounding::lemma_trunc_parts(self.0 as int, pow10::p10(DIGITS));
        }
        Decimal(signed64(self.0 < 0, abs64(self.0) % Self::scale_int() as u64))
    }

    /// Returns `true` if `self` is positive and `false` if the number is zero or negative.
    pub fn is_positive(self) -> (r: bool)
        ensures
            r == (self.0 > 0),
    {
        self.0 > 0
    }

    /// Returns `true` if `self` is negative and `false` if the number is zero or positive.
    pub fn is_negative(self) -> (r: bool)
        ensures
            r == (self.0 < 0),
    {
        self.0 < 0
    }

    /// Returns a number that represents the sign of `self`.
    ///
    /// - `1.0` if the number is positive
    /// - `-1.0` if the number is negative
    /// - `0` if the number is `0`
    pub fn signum(self) -> (r: Self)
        requires
            DIGITS <= 18,
        ensures
            r.0 == (if self.0 > 0 {
                scale64(DIGITS)
            } else if self.0 < 0 {
                -scale64(DIGITS)
            } else {
                0
            }),
    {
        if self.0 < 0 {
            Self::minus_one()
        } else if self.0 > 0 {
            Self::one()
        } else {
            Self::zero()
        }
    }
}

impl<const DIGITS: u8> Decimal<DIGITS> {
    /// The backing integer as an unsigned word with the same bits.
    pub open spec fn bits(self) -> nat {
        bytes::bits64(self.0 as int)
    }

    /// Raw transmutation to u64: the bits of the backing integer, not its
    /// numeric value.
    pub fn to_bits(self) -> (r: u64)
        ensures
            r == self.bits(),
    {
        i64_bits(self.0)
    }

    /// Raw transmutation from u64.
    pub fn from_bits(v: u64) -> (r: Self)
        ensures
            r.bits() == v,
    {
        Decimal(i64_from_bits(v))
    }

    /// Reverses the byte order. Primary use case - serialization.
    pub fn swap_bytes(self) -> (r: Self)
        ensures
            r.bits() == bytes::le_value(bytes::le_bytes(self.bits(), 8).reverse()),
    {
        Self::from_le_bytes(self.to_be_bytes())
    }

    /// Return the memory representation of this integer as a byte array in big-endian (network) byte order.
    pub fn to_be_bytes(self) -> (r: [u8; 8])
        ensures
            r@ == bytes::le_bytes(self.bits(), 8).reverse(),
    {
        reversed(&self.to_le_bytes())
    }

    /// Return the memory representation of this integer as a byte array in little-endian byte order.
    pub fn to_le_bytes(self) -> (r: [u8; 8])
        ensures
            r@ == bytes::le_bytes(self.bits(), 8),
    {
        proof {
            bytes::lemma_pow256_words();
        }
        to_le::<8>(self.to_bits() as u128)
    }

    /// Return the memory representation of this integer as a byte array in native byte order.
    /// As the target platform's native endianness is used, portable code should use to_be_bytes
    /// or to_le_bytes, as appropriate, instead.
    pub fn to_ne_bytes(self) -> (r: [u8; 8])
        ensures
            r@ == bytes::le_bytes(self.bits(), 8) || r@ == bytes::le_bytes(
                self.bits(),
                8,
            ).reverse(),
    {
        word_to_ne(self.to_bits())
    }

    /// Create an integer value from its memory representation as a byte array in native endianness.
    /// As the target platform's native endianness is used, portable code likely wants to use from_be_bytes
    /// or from_le_bytes, as appropriate instead.
    pub fn from_ne_bytes(bytes: [u8; 8]) -> (r: Self)
        ensures
            r.bits() == bytes::le_value(bytes@) || r.bits() == bytes::le_value(bytes@.reverse()),
    {
        Self::from_bits(word_from_ne(bytes))
    }

    /// Create an integer value from its representation as a byte array in big endian.
    pub fn from_be_bytes(bytes: [u8; 8]) -> (r: Self)
        ensures
            r.bits() == bytes::le_value(bytes@.reverse()),
    {
        Self::from_le_bytes(reversed(&bytes))
    }

    /// Create an integer value from its representation as a byte array in little endian.
    pub fn from_le_bytes(bytes: [u8; 8]) -> (r: Self)
        ensures
            r.bits() == bytes::le_value(bytes@),
    {
        proof {
            bytes::lemma_pow256_words();
        }
        Self::from_bits(from_le(&bytes) as u64)
    }

    /// Raises a number to an integer power.
    pub fn powi(self, exp: u32) -> (r: Self)
        requires
            DIGITS <= 18,
            rounding::power(self.0 as int, scale64(DIGITS), exp as nat, DIGITS, two63()) is Some,
        ensures
            Some(r.0 as int) == rounding::power(
                self.0 as int,
                scale64(DIGITS),
                exp as nat,
                DIGITS,
                two63(),
            ),
    {
        let mut exp: u32 = exp;
        let mut base: Self = self;
        let mut acc: Self = Self::one();
        let ghost goal: Option<int> = rounding::power(
            self.0 as int,
            scale64(DIGITS),
            exp as nat,
            DIGITS,
            two63(),
        );
        while exp > 1
            invariant
                DIGITS <= 18,
                goal is Some,
                goal == rounding::power(
                    base.0 as int,
                    acc.0 as int,
                    exp as nat,
                    DIGITS,
                    two63(),
                ),
            decreases exp,
        {
            if exp % 2 == 1 {
                acc = base.mul_rounded(acc, Rounding::HalfUp);
            }
            exp = exp / 2;
            base = base.mul_rounded(base, Rounding::HalfUp);
        }
        // Deal with the final bit of the exponent separately, since
        // squaring the base afterwards is not necessary and may cause a
        // needless overflow.
        if exp == 1 {
            acc = base.mul_rounded(acc, Rounding::HalfUp);
        }
        acc
    }

    /// Restrict a value to a certain interval.
    /// Returns max if self is greater than max, and min if self is less than min.
    /// Otherwise this returns self.
    pub fn clamp(self, min: Self, max: Self) -> (r: Self)
        ensures
            r == (if self.0 < min.0 {
                min
            } else if self.0 > max.0 {
                max
            } else {
                self
            }),
            min.0 <= max.0 ==> min.0 <= r.0 <= max.0,
    {
        if self.0 < min.0 {
            min
        } else if self.0 > max.0 {
            max
        } else {
            self
        }
    }

    /// Returns the minimum of the two numbers.
    pub fn min(self, other: Self) -> (r: Self)
        ensures
            r == (if self.0 <= other.0 {
                self
            } else {
                other
            }),
    {
        if self.0 <= other.0 {
            self
        } else {
            other
        }
    }

    /// Returns the maximum of the two numbers.
    pub fn max(self, other: Self) -> (r: Self)
        ensures
            r == (if self.0 >= other.0 {
                self
            } else {
                other
            }),
    {
        if self.0 >= other.0 {
            self
        } else {
            other
        }
    }

    /// The text of the value, without trailing fractional zeros.
    pub open spec fn text(self) -> Seq<u8> {
        render::decimal_text(
            rounding::mag_of(self.0 as int),
            self.0 < 0,
            DIGITS as nat,
            None,
            render::AmountSign::Negative,
        )
    }

    /// The value in decimal, without trailing fractional zeros.
    pub fn to_string(&self) -> (r: String)
        requires
            DIGITS <= 19,
        ensures
            r@ == render::as_chars(self.text()),
    {
        let (neg, mag): (bool, [u64; 4]) = self.sign_mag4();
        render::signed_text(&mag, neg, DIGITS as usize)
    }

    /// The digits of the value without its sign, for a formatter that pads
    /// them: at the asked precision, or a marker where they do not fit.
    pub fn to_unsigned_string(&self, precision: Option<usize>) -> (r: String)
        requires
            DIGITS <= 19,
        ensures
            r@ == render::unsigned_chars(
                rounding::mag_of(self.0 as int),
                self.0 < 0,
                DIGITS as nat,
                precision,
            ),
    {
        let (neg, mag): (bool, [u64; 4]) = self.sign_mag4();
        render::unsigned_text(&mag, neg, DIGITS as usize, precision)
    }
}

} // verus!
