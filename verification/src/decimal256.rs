//! 256-bit backed decimal fixed-point type.
//!
//! [`Decimal256`] extends the power-of-10 scaling design to a 256-bit signed
//! backing integer ([`I256`]). Addition and subtraction are two native
//! additions with a carry; multiplication produces a 512-bit intermediate from
//! 64-bit limbs and re-scales with a single word-based long division
//! (10^DIGITS always fits one limb); division scales the dividend up and uses
//! Knuth's algorithm D.

use crate::arith::{dec_div, dec_mul};
use crate::bytes;
use crate::decimal64::i64_sign_mag;
use crate::error::AmountErrorKind;
use crate::i256;
use crate::i256::{join, I256};
use crate::knuth::div_knuth;
use crate::limbs::{div_words_by_pow10, div_words_by_word, mul_add_word, sig_limbs};
use crate::parse;
use crate::parse::parse_decimal_mag_rounded;
use crate::parts::abs128;
use crate::pow10;
use crate::pow10::scale_word;
use crate::render;
use crate::rounding;
use crate::rounding::{order_twice_rem_u64, round_up_by_order, Rounding};
use crate::value;
use crate::word_div;
use core::cmp::Ordering;
use vstd::pervasive::unreached;
use vstd::prelude::*;
use vstd::std_specs::cmp::{PartialEqSpecImpl, PartialOrdSpecImpl};

verus! {

/// Decimal fixed-point number backed by a 256-bit signed integer, with
/// `DIGITS` fractional decimal digits (`DIGITS <= 19`).
///
/// Same decimal semantics as [`Decimal`](crate::Decimal) and
/// [`Decimal128`](crate::Decimal128), with a range of about
/// ±5.8 * 10^(76 - DIGITS).
#[derive(Debug, Clone, Copy, Eq, Ord, Hash)]
pub struct Decimal256<const DIGITS: u8>(pub I256);

/// Amount256 is a 256-bit integer based decimal type with 4 decimal digits precision.
pub type Amount256 = Decimal256<4>;

/// Rate256 is a 256-bit integer based decimal type with 8 decimal digits precision.
pub type Rate256 = Decimal256<8>;

impl<const DIGITS: u8> PartialEq for Decimal256<DIGITS> {
    fn eq(&self, other: &Self) -> (r: bool) {
        proof {
            self.0.lemma_view();
        }
        self.0 == other.0
    }
}

impl<const DIGITS: u8> PartialEqSpecImpl for Decimal256<DIGITS> {
    open spec fn obeys_eq_spec() -> bool {
        true
    }

    open spec fn eq_spec(&self, other: &Self) -> bool {
        self.0@ == other.0@
    }
}

impl<const DIGITS: u8> PartialOrd for Decimal256<DIGITS> {
    fn partial_cmp(&self, other: &Self) -> (r: Option<Ordering>) {
        self.0.partial_cmp(&other.0)
    }
}

impl<const DIGITS: u8> PartialOrdSpecImpl for Decimal256<DIGITS> {
    open spec fn obeys_partial_cmp_spec() -> bool {
        true
    }

    open spec fn partial_cmp_spec(&self, other: &Self) -> Option<Ordering> {
        if self.0@ < other.0@ {
            Some(Ordering::Less)
        } else if self.0@ > other.0@ {
            Some(Ordering::Greater)
        } else {
            Some(Ordering::Equal)
        }
    }
}

impl<const DIGITS: u8> Default for Decimal256<DIGITS> {
    fn default() -> (r: Self)
        ensures
            r.0@ == 0,
    {
        Decimal256(I256::zero())
    }
}

/// Remainder of the backing integers (sign follows the dividend, like `%` on
/// primitive integers).
pub fn i256_rem(a: I256, b: I256) -> (r: I256)
    requires
        b@ != 0,
    ensures
        r@ == rounding::trunc_rem(a@, rounding::mag_of(b@)),
{
    let (an, am): (bool, [u64; 4]) = a.to_sign_mag();
    let (_, bm): (bool, [u64; 4]) = b.to_sign_mag();
    let ghost d: nat = rounding::mag_of(b@);
    let ghost m: nat = rounding::mag_of(a@);
    let n: usize = sig_limbs(&bm);
    let mut r: [u64; 4] = [0u64; 4];
    proof {
        crate::arith::lemma_low_only(bm@, n as int);
        b.lemma_view();
    }
    if n == 1 {
        let mut q: [u64; 4] = am;
        proof {
            assert(bm@.take(1) =~= seq![bm@[0]]);
            value::lemma_val_one(bm@[0]);
        }
        let w: u64 = div_words_by_word(&mut q, bm[0]);
        r[0] = w;
        proof {
            value::lemma_val_halves(r@);
            rounding::lemma_round_mag_parts(m, d, value::val(q@), w as nat, false, Rounding::Down);
        }
    } else {
        let s: usize = sig_limbs(&am);
        proof {
            crate::arith::lemma_low_only(am@, s as int);
            assert(am@.subrange(0, s as int) =~= am@.take(s as int));
            assert(bm@.subrange(0, n as int) =~= bm@.take(n as int));
        }
        if s < n {
            // Fewer dividend limbs than divisor limbs: the remainder is the
            // dividend itself.
            r = am;
            proof {
                crate::arith::lemma_at_least(bm@, n as int);
                value::lemma_bpow_mono(s as nat, (n - 1) as nat);
                vstd::arithmetic::div_mod::lemma_small_mod(m, d);
            }
        } else {
            let mut q: [u64; 3] = [0u64; 3];
            div_knuth(&mut q, &mut r, &am[0..s], &bm[0..n]);
            proof {
                rounding::lemma_round_mag_parts(
                    m,
                    d,
                    value::val(q@),
                    value::val(r@),
                    false,
                    Rounding::Down,
                );
            }
        }
    }
    proof {
        rounding::lemma_trunc_parts(a@, d);
        assert(value::val(r@) < i256::two255());
    }
    match I256::from_sign_mag(an, r) {
        Some(v) => v,
        None => unreached(),
    }
}

/// A decimal result as a number of its smallest units.
pub open spec fn raw_result<const DIGITS: u8>(
    r: Result<Decimal256<DIGITS>, AmountErrorKind>,
) -> Result<int, AmountErrorKind> {
    match r {
        Ok(d) => Ok(d.0@),
        Err(e) => Err(e),
    }
}

/// A checked result: the exact value `v` where it lies in the symmetric range,
/// otherwise none.
pub open spec fn checked256<const DIGITS: u8>(r: Option<Decimal256<DIGITS>>, v: int) -> bool {
    &&& r is Some <==> rounding::within(v, i256::two255())
    &&& r matches Some(d) ==> d.0@ == v
}

/// Rebuilds a value from a sign and a magnitude with the top bit clear
/// (guaranteed by the shared cores' symmetric-range check).
fn rebuild<const DIGITS: u8>(neg: bool, mag: [u64; 4]) -> (r: Decimal256<DIGITS>)
    requires
        value::val(mag@) < i256::two255(),
    ensures
        r.0@ == rounding::signed(neg, value::val(mag@)),
{
    match I256::from_sign_mag(neg, mag) {
        Some(v) => Decimal256(v),
        None => unreached(),
    }
}

impl<const DIGITS: u8> Decimal256<DIGITS> {
    /// The decimal scale: the number of fractional digits.
    pub fn scale() -> (r: i32)
        ensures
            r == DIGITS,
    {
        DIGITS as i32
    }

    /// The multiplier used to scale values up. Equal to 10^DIGITS.
    pub fn scale_int() -> (r: i128)
        requires
            DIGITS <= 19,
        ensures
            r == pow10::wide_scale(DIGITS),
    {
        scale_word(DIGITS) as i128
    }

    /// Half of the scaling factor, used for rounding.
    pub fn scale_int_half() -> (r: i128)
        requires
            DIGITS <= 19,
        ensures
            r == pow10::wide_scale(DIGITS) / 2,
    {
        (scale_word(DIGITS) / 2) as i128
    }

    /// The largest value that can be represented by this type.
    pub fn max_value() -> (r: Self)
        ensures
            r.0@ == i256::two255() - 1,
    {
        Decimal256(I256::max_value())
    }

    /// The smallest value that can be represented by this type: the range is
    /// symmetric.
    pub fn min_value() -> (r: Self)
        ensures
            r.0@ == 1 - i256::two255(),
    {
        Decimal256(I256::min_value())
    }

    /// The value '1'.
    pub fn one() -> (r: Self)
        requires
            DIGITS <= 19,
        ensures
            r.0@ == pow10::wide_scale(DIGITS),
    {
        Decimal256(I256::from_i128(Self::scale_int()))
    }

    /// The value '-1'.
    pub fn minus_one() -> (r: Self)
        requires
            DIGITS <= 19,
        ensures
            r.0@ == -pow10::wide_scale(DIGITS),
    {
        Decimal256(I256::from_i128(-(scale_word(DIGITS) as i128)))
    }

    /// The value '0'.
    pub fn zero() -> (r: Self)
        ensures
            r.0@ == 0,
    {
        Decimal256(I256::zero())
    }

    /// Constructs a new decimal integer with value 0.
    pub fn new() -> (r: Self)
        ensures
            r.0@ == 0,
    {
        Self::zero()
    }

    /// Converts an i128 to a Decimal256. Always exact: every i128 fits.
    pub fn from_i128(val: i128) -> (r: Self)
        requires
            DIGITS <= 19,
        ensures
            r.0@ == val * pow10::wide_scale(DIGITS),
    {
        Self::scaled(val)
    }

    /// An integer times the scale.
    pub(crate) fn scaled(val: i128) -> (r: Self)
        ensures
            r.0@ == val * pow10::wide_scale(DIGITS),
    {
        let m: u128 = abs128(val);
        let s: u64 = scale_word(DIGITS);
        let mut mag: [u64; 4] = [m as u64, (m >> 64) as u64, 0, 0];
        proof {
            word_div::lemma_double_split(m);
            value::lemma_val_halves(mag@);
            assert(value::val(mag@) == m);
        }
        // |i128| * 2^64 <= 2^191: never overflows four limbs.
        let _ = mul_add_word(&mut mag, s, 0);
        proof {
            value::lemma_bpow_small();
            assert(m * s <= 0x8000_0000_0000_0000_0000_0000_0000_0000int * 0xffff_ffff_ffff_ffff)
                by (nonlinear_arith)
                requires
                    0 <= m <= 0x8000_0000_0000_0000_0000_0000_0000_0000,
                    0 <= s <= 0xffff_ffff_ffff_ffff,
            ;
            vstd::arithmetic::div_mod::lemma_small_mod((m * s) as nat, value::bpow(4));
            assert((-(m as int)) * s == -(m * s)) by (nonlinear_arith);
        }
        rebuild(val < 0, mag)
    }

    /// Converts an i64 to a Decimal256. Always exact.
    pub fn from_i64(val: i64) -> (r: Self)
        requires
            DIGITS <= 19,
        ensures
            r.0@ == val * pow10::wide_scale(DIGITS),
    {
        Self::from_i128(val as i128)
    }

    /// Converts the Decimal256 back into an i128, truncating the fractional
    /// part and saturating to `i128::MIN`/`i128::MAX` when out of range.
    pub fn to_i128(self) -> (r: i128)
        requires
            DIGITS <= 19,
        ensures
            ({
                let t: int = rounding::trunc_div(self.0@, pow10::p10(DIGITS));
                r == (if t < i128::MIN {
                    i128::MIN as int
                } else if t > i128::MAX {
                    i128::MAX as int
                } else {
                    t
                })
            }),
    {
        let (neg, mag): (bool, [u64; 4]) = self.0.to_sign_mag();
        let mut q: [u64; 4] = mag;
        let rem: u64 = div_words_by_pow10::<DIGITS>(&mut q);
        proof {
            rounding::lemma_round_mag_parts(
                rounding::mag_of(self.0@),
                pow10::p10(DIGITS),
                value::val(q@),
                rem as nat,
                false,
                Rounding::Down,
            );
            value::lemma_val_halves(q@);
        }
        let low: u128 = join(q[1], q[0]);
        if q[2] != 0 || q[3] != 0 || low > i128::MAX as u128 {
            return if neg {
                i128::MIN
            } else {
                i128::MAX
            };
        }
        if neg {
            -(low as i128)
        } else {
            low as i128
        }
    }

    /// Parses a decimal string, rounding any fractional digits beyond this
    /// type's scale with the given [`Rounding`] mode.
    pub fn from_str_rounded(src: &str, mode: Rounding) -> (r: Result<Self, AmountErrorKind>)
        requires
            DIGITS <= 19,
        ensures
            raw_result(r) == parse::parse_int(src@, DIGITS as nat, 4, mode),
    {
        match parse_decimal_mag_rounded::<4>(src, DIGITS, mode) {
            Ok((neg, mag)) => {
                proof {
                    value::lemma_bpow_small();
                }
                match I256::from_sign_mag(neg, mag) {
                    Some(v) => Ok(Decimal256(v)),
                    None => Err(AmountErrorKind::Overflow),
                }
            },
            Err(e) => Err(e),
        }
    }

    /// Parses a decimal string with [`Rounding::HalfUp`]. Intended for literals
    /// in the source, which are known to be valid.
    pub fn from_str_const(src: &str) -> (r: Self)
        requires
            DIGITS <= 19,
            parse::parse_int(src@, DIGITS as nat, 4, Rounding::HalfUp) is Ok,
        ensures
            Ok::<int, AmountErrorKind>(r.0@) == parse::parse_int(
                src@,
                DIGITS as nat,
                4,
                Rounding::HalfUp,
            ),
    {
        match Self::from_str_rounded(src, Rounding::HalfUp) {
            Ok(v) => v,
            Err(_) => unreached(),
        }
    }

    /// Sign and 4-limb magnitude, for the shared formatting code.
    pub fn sign_mag4(self) -> (r: (bool, [u64; 4]))
        ensures
            r.0 == (self.0@ < 0),
            value::val(r.1@) == rounding::mag_of(self.0@),
    {
        self.0.to_sign_mag()
    }

    /// Computes the absolute value of self. The most negative backing integer,
    /// which lies outside the symmetric range, stays as it is.
    pub fn abs(self) -> (r: Self)
        ensures
            r.0@ == (if self.0@ == -i256::two255() {
                self.0@
            } else {
                rounding::mag_of(self.0@) as int
            }),
    {
        if self.0.is_negative() {
            Decimal256(self.0.wrapping_neg())
        } else {
            self
        }
    }

    /// Checked addition. Computes `self + rhs`, returning `None` if overflow occurred.
    pub fn checked_add(self, rhs: Self) -> (r: Option<Self>)
        ensures
            r is Some <==> -i256::two255() <= self.0@ + rhs.0@ < i256::two255(),
            r matches Some(d) ==> d.0@ == self.0@ + rhs.0@,
    {
        match self.0.checked_add(rhs.0) {
            Some(v) => Some(Decimal256(v)),
            None => None,
        }
    }

    /// Checked subtraction. Computes `self - rhs`, returning `None` if overflow occurred.
    pub fn checked_sub(self, rhs: Self) -> (r: Option<Self>)
        ensures
            r is Some <==> -i256::two255() <= self.0@ - rhs.0@ < i256::two255(),
            r matches Some(d) ==> d.0@ == self.0@ - rhs.0@,
    {
        match self.0.checked_sub(rhs.0) {
            Some(v) => Some(Decimal256(v)),
            None => None,
        }
    }

    /// The rounded product, if it lies in the symmetric range.
    fn product<const RHS_DIGITS: u8>(self, rhs: Decimal256<RHS_DIGITS>, mode: Rounding) -> (r:
        Option<Self>)
        requires
            RHS_DIGITS <= 19,
        ensures
            checked256(r, rounding::product(self.0@, rhs.0@, RHS_DIGITS, mode)),
    {
        let (an, am): (bool, [u64; 4]) = self.0.to_sign_mag();
        let (bn, bm): (bool, [u64; 4]) = rhs.0.to_sign_mag();
        proof {
            rounding::lemma_product_parts(self.0@, rhs.0@, RHS_DIGITS, mode);
            value::lemma_bpow_small();
        }
        match dec_mul::<RHS_DIGITS, 4, 8>(an, &am, bn, &bm, mode) {
            Some((neg, mag)) => Some(rebuild(neg, mag)),
            None => None,
        }
    }

    /// The rounded quotient, if there is one in the symmetric range.
    fn quotient<const TO_DIGITS: u8>(self, rhs: Self, mode: Rounding) -> (r: Option<
        Decimal256<TO_DIGITS>,
    >)
        requires
            TO_DIGITS <= 19,
        ensures
            rhs.0@ == 0 ==> r is None,
            rhs.0@ != 0 ==> checked256(r, rounding::quotient(self.0@, rhs.0@, TO_DIGITS, mode)),
    {
        let (an, am): (bool, [u64; 4]) = self.0.to_sign_mag();
        let (bn, bm): (bool, [u64; 4]) = rhs.0.to_sign_mag();
        proof {
            rounding::lemma_quotient_parts(self.0@, rhs.0@, TO_DIGITS, mode);
            value::lemma_bpow_small();
        }
        match dec_div::<TO_DIGITS, 4, 5>(an, &am, bn, &bm, mode) {
            Some((neg, mag)) => Some(rebuild(neg, mag)),
            None => None,
        }
    }

    /// Checked integer multiplication. Computes `self * rhs`, returning `None` if overflow occurred.
    pub fn checked_mul(self, rhs: Self) -> (r: Option<Self>)
        requires
            DIGITS <= 19,
        ensures
            checked256(
                r,
                rounding::product(self.0@, rhs.0@, DIGITS, Rounding::HalfUp),
            ),
    {
        self.product(rhs, Rounding::HalfUp)
    }

    /// Checked integer division. Computes `self / rhs`, returning `None` if `rhs == 0` or the division results in overflow.
    pub fn checked_div(self, rhs: Self) -> (r: Option<Self>)
        requires
            DIGITS <= 19,
        ensures
            rhs.0@ == 0 ==> r is None,
            rhs.0@ != 0 ==> checked256(
                r,
                rounding::quotient(self.0@, rhs.0@, DIGITS, Rounding::HalfUp),
            ),
    {
        self.quotient::<DIGITS>(rhs, Rounding::HalfUp)
    }

    /// Takes the reciprocal (inverse) of a number, 1/x.
    pub fn recip(self) -> (r: Self)
        requires
            DIGITS <= 19,
            self.0@ != 0,
            rounding::within(
                rounding::quotient(pow10::wide_scale(DIGITS), self.0@, DIGITS, Rounding::HalfUp),
                i256::two255(),
            ),
        ensures
            r.0@ == rounding::quotient(
                pow10::wide_scale(DIGITS),
                self.0@,
                DIGITS,
                Rounding::HalfUp,
            ),
    {
        Self::one().div_rounded(self, Rounding::HalfUp)
    }

    /// Returns the integer part of a number (rounding toward zero).
    pub fn trunc(self) -> (r: Self)
        requires
            DIGITS <= 19,
            rounding::within(
                rounding::trunc_div(self.0@, pow10::p10(DIGITS)) * pow10::p10(DIGITS),
                i256::two255(),
            ),
        ensures
            r.0@ == rounding::trunc_div(self.0@, pow10::p10(DIGITS)) * pow10::p10(DIGITS),
    {
        let (neg, mag): (bool, [u64; 4]) = self.0.to_sign_mag();
        let mut q: [u64; 4] = mag;
        let rem: u64 = div_words_by_pow10::<DIGITS>(&mut q);
        let ghost k: nat = value::val(q@);
        let ghost s: nat = pow10::p10(DIGITS);
        proof {
            rounding::lemma_round_mag_parts(
                rounding::mag_of(self.0@),
                s,
                k,
                rem as nat,
                false,
                Rounding::Down,
            );
            lemma_signed_scale(neg, k, s);
            value::lemma_bpow_small();
        }
        let _ = mul_add_word(&mut q, scale_word(DIGITS), 0);
        proof {
            vstd::arithmetic::div_mod::lemma_small_mod(k * s, value::bpow(4));
        }
        rebuild(neg, q)
    }

    /// Returns the fractional part of a number.
    pub fn fract(self) -> (r: Self)
        requires
            DIGITS <= 19,
            rounding::within(
                rounding::trunc_div(self.0@, pow10::p10(DIGITS)) * pow10::p10(DIGITS),
                i256::two255(),
            ),
        ensures
            r.0@ == rounding::trunc_rem(self.0@, pow10::p10(DIGITS)),
    {
        proof {
            pow10::lemma_p10_word(DIGITS);
            rounding::lemma_trunc_parts(self.0@, pow10::p10(DIGITS));
            self.0.lemma_view();
        }
        match self.0.checked_sub(self.trunc().0) {
            Some(v) => Decimal256(v),
            None => unreached(),
        }
    }

    /// Returns the largest integer less than or equal to a number.
    pub fn floor(self) -> (r: Self)
        requires
            DIGITS <= 19,
            self.rounds_in_range(Rounding::Down),
        ensures
            r.0@ == self.0@ / pow10::wide_scale(DIGITS) * pow10::wide_scale(DIGITS),
    {
        proof {
            pow10::lemma_p10_word(DIGITS);
            rounding::lemma_round_down(self.0@, pow10::p10(DIGITS));
        }
        self.round_to(Rounding::Down)
    }

    /// Returns the smallest integer greater than or equal to a number.
    pub fn ceil(self) -> (r: Self)
        requires
            DIGITS <= 19,
            self.rounds_in_range(Rounding::Up),
        ensures
            r.0@ == -(-self.0@ / pow10::wide_scale(DIGITS)) * pow10::wide_scale(DIGITS),
    {
        proof {
            pow10::lemma_p10_word(DIGITS);
            rounding::lemma_round_up(self.0@, pow10::p10(DIGITS));
        }
        self.round_to(Rounding::Up)
    }

    /// Returns the nearest integer to a number. Rounds half-way cases away
    /// from `0.0`.
    pub fn round(self) -> (r: Self)
        requires
            DIGITS <= 19,
            self.rounds_in_range(Rounding::HalfUp),
        ensures
            r.0@ == self.rounded_raw(Rounding::HalfUp),
    {
        self.round_to(Rounding::HalfUp)
    }

    /// The whole number, in smallest units, that this value rounds to.
    pub open spec fn rounded_raw(self, mode: Rounding) -> int {
        rounding::round_div(self.0@, pow10::p10(DIGITS), mode) * pow10::p10(DIGITS)
    }

    /// The value is whole, or rounding it stays inside the symmetric range.
    pub open spec fn rounds_in_range(self, mode: Rounding) -> bool {
        self.0@ % pow10::p10(DIGITS) as int == 0 || rounding::within(
            self.rounded_raw(mode),
            i256::two255(),
        )
    }

    /// Explicitly rounds the value to an integer using the specified rounding mode.
    pub fn round_to(self, mode: Rounding) -> (r: Self)
        requires
            DIGITS <= 19,
            self.rounds_in_range(mode),
        ensures
            r.0@ == self.rounded_raw(mode),
    {
        let (neg, mag): (bool, [u64; 4]) = self.0.to_sign_mag();
        let mut q: [u64; 4] = mag;
        let rem: u64 = div_words_by_pow10::<DIGITS>(&mut q);
        let ghost m: nat = rounding::mag_of(self.0@);
        let ghost s: nat = pow10::p10(DIGITS);
        let ghost t: nat = value::val(q@);
        let ghost k: nat = rounding::round_mag(m, s, neg, mode);
        proof {
            pow10::lemma_p10_word(DIGITS);
            rounding::lemma_round_mag_parts(m, s, t, rem as nat, neg, mode);
            rounding::lemma_round_close(self.0@, s, mode);
            crate::parts::lemma_exact(self.0@, s);
        }
        if rem == 0 {
            return self;
        }
        proof {
            crate::arith::lemma_parity(q@);
            lemma_signed_scale(neg, k, s);
            value::lemma_bpow_small();
            assert(k <= k * s) by (nonlinear_arith)
                requires
                    s >= 1,
            ;
        }
        let up: bool = round_up_by_order(
            order_twice_rem_u64(rem, scale_word(DIGITS)),
            false,
            q[0] & 1 != 0,
            neg,
            mode,
        );
        if up {
            let _ = mul_add_word(&mut q, 1, 1);
            proof {
                vstd::arithmetic::div_mod::lemma_small_mod(t + 1, value::bpow(4));
            }
        }
        let _ = mul_add_word(&mut q, scale_word(DIGITS), 0);
        proof {
            vstd::arithmetic::div_mod::lemma_small_mod(k * s, value::bpow(4));
        }
        rebuild(neg, q)
    }

    /// Multiply by another decimal, explicitly applying the given rounding mode.
    ///
    /// The right-hand side may have a different scale: the exact product is
    /// rounded once to `self`'s scale, so an amount times a high-precision
    /// rate needs no intermediate conversion.
    pub fn mul_rounded<const RHS_DIGITS: u8>(self, rhs: Decimal256<RHS_DIGITS>, mode: Rounding) -> (r:
        Self)
        requires
            RHS_DIGITS <= 19,
            rounding::within(
                rounding::product(self.0@, rhs.0@, RHS_DIGITS, mode),
                i256::two255(),
            ),
        ensures
            r.0@ == rounding::product(self.0@, rhs.0@, RHS_DIGITS, mode),
    {
        match self.product(rhs, mode) {
            Some(v) => v,
            None => unreached(),
        }
    }

    /// Divide by another decimal, explicitly applying the given rounding mode.
    pub fn div_rounded(self, rhs: Self, mode: Rounding) -> (r: Self)
        requires
            DIGITS <= 19,
            rhs.0@ != 0,
            rounding::within(
                rounding::quotient(self.0@, rhs.0@, DIGITS, mode),
                i256::two255(),
            ),
        ensures
            r.0@ == rounding::quotient(self.0@, rhs.0@, DIGITS, mode),
    {
        self.div_rounded_to::<DIGITS>(rhs, mode)
    }

    /// Divide by another decimal of the same scale, producing the quotient at
    /// an explicitly chosen scale with the given rounding mode. The exact
    /// quotient is rounded once at `TO_DIGITS` digits, so a proportion of two
    /// amounts can be taken directly as a higher-precision rate.
    pub fn div_rounded_to<const TO_DIGITS: u8>(self, rhs: Self, mode: Rounding) -> (r: Decimal256<
        TO_DIGITS,
    >)
        requires
            TO_DIGITS <= 19,
            rhs.0@ != 0,
            rounding::within(
                rounding::quotient(self.0@, rhs.0@, TO_DIGITS, mode),
                i256::two255(),
            ),
        ensures
            r.0@ == rounding::quotient(self.0@, rhs.0@, TO_DIGITS, mode),
    {
        match self.quotient::<TO_DIGITS>(rhs, mode) {
            Some(v) => v,
            None => unreached(),
        }
    }

    /// Divide by an integer, explicitly applying the given rounding mode: the
    /// exact quotient is rounded once at the type's own scale. The divisor is
    /// a single word, so this is plain word division over the limbs.
    pub fn div_int_rounded(self, n: i64, mode: Rounding) -> (r: Self)
        requires
            n != 0,
            rounding::within(
                rounding::round_quot(self.0@, n as int, mode),
                i256::two255(),
            ),
        ensures
            r.0@ == rounding::round_quot(self.0@, n as int, mode),
    {
        let (an, am): (bool, [u64; 4]) = self.0.to_sign_mag();
        let mut mag: [u64; 4] = am;
        let neg: bool = an != (n < 0);
        let (_, dm): (bool, [u64; 1]) = i64_sign_mag(n);
        proof {
            assert(dm@ =~= seq![dm@[0]]);
            value::lemma_val_one(dm@[0]);
        }
        let d: u64 = dm[0];
        let rem: u64 = div_words_by_word(&mut mag, d);
        let ghost m: nat = rounding::mag_of(self.0@);
        let ghost t: nat = value::val(mag@);
        proof {
            rounding::lemma_round_mag_parts(m, d as nat, t, rem as nat, neg, mode);
            crate::arith::lemma_parity(mag@);
            value::lemma_bpow_small();
        }
        let up: bool = round_up_by_order(
            order_twice_rem_u64(rem, d),
            rem == 0,
            mag[0] & 1 != 0,
            neg,
            mode,
        );
        if up {
            let _ = mul_add_word(&mut mag, 1, 1);
            proof {
                vstd::arithmetic::div_mod::lemma_small_mod(t + 1, value::bpow(4));
            }
        }
        rebuild(neg, mag)
    }

    /// Returns `true` if `self` is positive and `false` if the number is zero or negative.
    pub fn is_positive(self) -> (r: bool)
        ensures
            r == (self.0@ > 0),
    {
        !self.0.is_negative() && !self.0.is_zero()
    }

    /// Returns `true` if `self` is negative and `false` if the number is zero or positive.
    pub fn is_negative(self) -> (r: bool)
        ensures
            r == (self.0@ < 0),
    {
        self.0.is_negative()
    }

    /// Returns a number that represents the sign of `self`.
    ///
    /// - `1.0` if the number is positive
    /// - `-1.0` if the number is negative
    /// - `0` if the number is `0`
    pub fn signum(self) -> (r: Self)
        requires
            DIGITS <= 19,
        ensures
            r.0@ == (if self.0@ > 0 {
                pow10::wide_scale(DIGITS)
            } else if self.0@ < 0 {
                -pow10::wide_scale(DIGITS)
            } else {
                0
            }),
    {
        if self.0.is_negative() {
            Self::minus_one()
        } else if self.0.is_zero() {
            Self::zero()
        } else {
            Self::one()
        }
    }

    /// Raw transmutation to the backing scaled integer.
    pub fn to_bits(self) -> (r: I256)
        ensures
            r == self.0,
    {
        self.0
    }

    /// Raw transmutation from a backing scaled integer.
    pub fn from_bits(v: I256) -> (r: Self)
        ensures
            r.0 == v,
    {
        Decimal256(v)
    }

    /// Return the memory representation of this value as a byte array in
    /// little-endian byte order.
    pub fn to_le_bytes(self) -> (r: [u8; 32])
        ensures
            r@ == bytes::le_bytes(self.0.bits(), 32),
    {
        self.0.to_le_bytes()
    }

    /// Create a value from its representation as a byte array in little endian.
    pub fn from_le_bytes(bytes: [u8; 32]) -> (r: Self)
        ensures
            r.0.bits() == bytes::le_value(bytes@),
    {
        Decimal256(I256::from_le_bytes(bytes))
    }

    /// Raises a number to an integer power.
    pub fn powi(self, exp: u32) -> (r: Self)
        requires
            DIGITS <= 19,
            rounding::power(self.0@, pow10::wide_scale(DIGITS), exp as nat, DIGITS, i256::two255()) is Some,
        ensures
            Some(r.0@) == rounding::power(
                self.0@,
                pow10::wide_scale(DIGITS),
                exp as nat,
                DIGITS,
                i256::two255(),
            ),
    {
        let mut exp: u32 = exp;
        let mut base: Self = self;
        let mut acc: Self = Self::one();
        let ghost goal: Option<int> = rounding::power(
            self.0@,
            pow10::wide_scale(DIGITS),
            exp as nat,
            DIGITS,
            i256::two255(),
        );
        while exp > 1
            invariant
                DIGITS <= 19,
                goal is Some,
                goal == rounding::power(
                    base.0@,
                    acc.0@,
                    exp as nat,
                    DIGITS,
                    i256::two255(),
                ),
            decreases exp,
        {
            if exp % 2 == 1 {
                acc = base.mul_rounded(acc, Rounding::HalfUp);
            }
            exp = exp / 2;
            base = base.mul_rounded(base, Rounding::HalfUp);
        }
        // Deal with the final bit of the exponent separately, since
        // squaring the base afterwards is not necessary and may cause a
        // needless overflow.
        if exp == 1 {
            acc = base.mul_rounded(acc, Rounding::HalfUp);
        }
        acc
    }

    /// Restrict a value to a certain interval.
    /// Returns max if self is greater than max, and min if self is less than min.
    /// Otherwise this returns self.
    pub fn clamp(self, min: Self, max: Self) -> (r: Self)
        ensures
            r == (if self.0@ < min.0@ {
                min
            } else if self.0@ > max.0@ {
                max
            } else {
                self
            }),
            min.0@ <= max.0@ ==> min.0@ <= r.0@ <= max.0@,
    {
        if self.0 < min.0 {
            min
        } else if self.0 > max.0 {
            max
        } else {
            self
        }
    }

    /// Returns the minimum of the two numbers.
    pub fn min(self, other: Self) -> (r: Self)
        ensures
            r == (if self.0@ <= other.0@ {
                self
            } else {
                other
            }),
    {
        if self.0 <= other.0 {
            self
        } else {
            other
        }
    }

    /// Returns the maximum of the two numbers.
    pub fn max(self, other: Self) -> (r: Self)
        ensures
            r == (if self.0@ >= other.0@ {
                self
            } else {
                other
            }),
    {
        if self.0 >= other.0 {
            self
        } else {
            other
        }
    }

    /// The text of the value, without trailing fractional zeros.
    pub open spec fn text(self) -> Seq<u8> {
        render::decimal_text(
            rounding::mag_of(self.0@),
            self.0@ < 0,
            DIGITS as nat,
            None,
            render::AmountSign::Negative,
        )
    }

    /// The value in decimal, without trailing fractional zeros.
    pub fn to_string(&self) -> (r: String)
        requires
            DIGITS <= 19,
        ensures
            r@ == render::as_chars(self.text()),
    {
        let (neg, mag): (bool, [u64; 4]) = self.sign_mag4();
        render::signed_text(&mag, neg, DIGITS as usize)
    }

    /// The digits of the value without its sign, for a formatter that pads
    /// them: at the asked precision, or a marker where they do not fit.
    pub fn to_unsigned_string(&self, precision: Option<usize>) -> (r: String)
        requires
            DIGITS <= 19,
        ensures
            r@ == render::unsigned_chars(
                rounding::mag_of(self.0@),
                self.0@ < 0,
                DIGITS as nat,
                precision,
            ),
    {
        let (neg, mag): (bool, [u64; 4]) = self.sign_mag4();
        render::unsigned_text(&mag, neg, DIGITS as usize, precision)
    }
}

/// Multiplies by an integer.
pub fn mul_int<const DIGITS: u8>(a: Decimal256<DIGITS>, n: i64) -> (r: Decimal256<DIGITS>)
    requires
        rounding::within(a.0@ * n, i256::two255()),
    ensures
        r.0@ == a.0@ * n,
{
    let (neg, am): (bool, [u64; 4]) = a.0.to_sign_mag();
    let mut mag: [u64; 4] = am;
    let (nn, nm): (bool, [u64; 1]) = i64_sign_mag(n);
    let ghost x: int = rounding::mag_of(a.0@) as int;
    let ghost y: int = rounding::mag_of(n as int) as int;
    proof {
        assert(nm@ =~= seq![nm@[0]]);
        value::lemma_val_one(nm@[0]);
        value::lemma_bpow_small();
        assert((-x) * y == -(x * y)) by (nonlinear_arith);
        assert(x * (-y) == -(x * y)) by (nonlinear_arith);
        assert((-x) * (-y) == x * y) by (nonlinear_arith);
        assert(x * y >= 0) by (nonlinear_arith)
            requires
                x >= 0,
                y >= 0,
        ;
    }
    let _ = mul_add_word(&mut mag, nm[0], 0);
    proof {
        vstd::arithmetic::div_mod::lemma_small_mod((x * y) as nat, value::bpow(4));
    }
    rebuild(neg != nn, mag)
}

/// Scaling a magnitude scales the number.
proof fn lemma_signed_scale(neg: bool, k: nat, s: nat)
    ensures
        rounding::signed(neg, k) * s == rounding::signed(neg, k * s),
{
    let a: int = k as int;
    assert((-a) * s == -(a * s)) by (nonlinear_arith);
}

} // verus!
