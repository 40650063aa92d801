//! Operators and conversions of the 128-bit backed decimal.

use crate::decimal128;
use crate::decimal128::{i128_rem, Decimal128};
use crate::error::AmountErrorKind;
use crate::parse;
use crate::pow10;
use crate::pow10::scale_word;
use crate::rounding;
use crate::rounding::Rounding;
use core::cmp::Ordering;
use core::ops::{
    Add, AddAssign, Div, DivAssign, Mul, MulAssign, Neg, Rem, RemAssign, Sub, SubAssign,
};
use core::str::FromStr;
use vstd::prelude::*;
use vstd::std_specs::cmp::{PartialEqSpecImpl, PartialOrdSpecImpl};
use vstd::std_specs::convert::FromSpecImpl;
use vstd::std_specs::iter::IteratorSpec;
use vstd::std_specs::ops::{
    AddSpecImpl, DivSpecImpl, MulSpecImpl, NegSpecImpl, RemSpecImpl, SubSpecImpl,
};

verus! {

impl<const DIGITS: u8> FromStr for Decimal128<DIGITS> {
    type Err = AmountErrorKind;

    /// Converts a string in base 10, rounding fractional digits beyond
    /// the scale with [`Rounding::HalfUp`].
    ///
    /// Accepts `Sign? ( Digit+ | Digit+ '.' Digit* | Digit* '.' Digit+ )`;
    /// leading/trailing whitespace or other symbols are an error.
    fn from_str(src: &str) -> (r: Result<Self, AmountErrorKind>)
        requires
            DIGITS <= 19,
        ensures
            decimal128::raw_result(r) == parse::parse_int(
                src@,
                DIGITS as nat,
                2,
                Rounding::HalfUp,
            ),
    {
        Self::from_str_rounded(src, Rounding::HalfUp)
    }
}

/// An integer times the scale, which always fits a double word.
fn scaled_int(n: i64, digits: u8) -> (r: i128)
    ensures
        r == n * pow10::wide_scale(digits),
{
    let s: u64 = scale_word(digits);
    proof {
        if digits <= 19 {
            pow10::lemma_p10_word(digits);
        }
        assert(-0x4fff_ffff_ffff_ffff_0000_0000_0000_0000int <= n * s
            <= 0x4fff_ffff_ffff_ffff_0000_0000_0000_0000int) by (nonlinear_arith)
            requires
                -0x8000_0000_0000_0000 <= n <= 0x7fff_ffff_ffff_ffff,
                0 <= s <= 10_000_000_000_000_000_000,
        ;
    }
    n as i128 * s as i128
}

impl<const DIGITS: u8> From<i32> for Decimal128<DIGITS> {
    fn from(item: i32) -> (r: Self) {
        Decimal128(scaled_int(item as i64, DIGITS))
    }
}

impl<const DIGITS: u8> FromSpecImpl<i32> for Decimal128<DIGITS> {
    open spec fn obeys_from_spec() -> bool {
        true
    }

    open spec fn from_spec(item: i32) -> Self {
        Decimal128((item * pow10::wide_scale(DIGITS)) as i128)
    }
}

impl<const DIGITS: u8> From<i64> for Decimal128<DIGITS> {
    fn from(item: i64) -> (r: Self) {
        Decimal128(scaled_int(item, DIGITS))
    }
}

impl<const DIGITS: u8> FromSpecImpl<i64> for Decimal128<DIGITS> {
    open spec fn obeys_from_spec() -> bool {
        true
    }

    open spec fn from_spec(item: i64) -> Self {
        Decimal128((item * pow10::wide_scale(DIGITS)) as i128)
    }
}

impl<const DIGITS: u8> From<i128> for Decimal128<DIGITS> {
    /// Converts an i128, saturating to the smallest or largest value when out
    /// of range.
    fn from(item: i128) -> (r: Self) {
        if DIGITS > 19 {
            assert(item * 0 == 0);
            return Decimal128(0);
        }
        match Self::from_i128(item) {
            Ok(v) => v,
            Err(_) => {
                proof {
                    pow10::lemma_p10_word(DIGITS);
                    let s: int = pow10::wide_scale(DIGITS);
                    assert(item >= 0 ==> item * s >= 0) by (nonlinear_arith)
                        requires
                            s > 0,
                    ;
                    assert(item < 0 ==> item * s < 0) by (nonlinear_arith)
                        requires
                            s > 0,
                    ;
                }
                if item < 0 {
                    Self::min_value()
                } else {
                    Self::max_value()
                }
            },
        }
    }
}

impl<const DIGITS: u8> FromSpecImpl<i128> for Decimal128<DIGITS> {
    open spec fn obeys_from_spec() -> bool {
        true
    }

    open spec fn from_spec(item: i128) -> Self {
        let v: int = item * pow10::wide_scale(DIGITS);
        Decimal128(
            if v <= -decimal128::two127() {
                -i128::MAX as i128
            } else if v >= decimal128::two127() {
                i128::MAX
            } else {
                v as i128
            },
        )
    }
}

impl<const DIGITS: u8> PartialEq<i64> for Decimal128<DIGITS> {
    fn eq(&self, other: &i64) -> (r: bool) {
        self.0 == scaled_int(*other, DIGITS)
    }
}

impl<const DIGITS: u8> PartialEqSpecImpl<i64> for Decimal128<DIGITS> {
    open spec fn obeys_eq_spec() -> bool {
        true
    }

    open spec fn eq_spec(&self, other: &i64) -> bool {
        self.0 == *other * pow10::wide_scale(DIGITS)
    }
}

impl<const DIGITS: u8> PartialOrd<i64> for Decimal128<DIGITS> {
    fn partial_cmp(&self, other: &i64) -> (r: Option<Ordering>) {
        let scaled: i128 = scaled_int(*other, DIGITS);
        if self.0 < scaled {
            Some(Ordering::Less)
        } else if self.0 > scaled {
            Some(Ordering::Greater)
        } else {
            Some(Ordering::Equal)
        }
    }
}

impl<const DIGITS: u8> PartialOrdSpecImpl<i64> for Decimal128<DIGITS> {
    open spec fn obeys_partial_cmp_spec() -> bool {
        true
    }

    open spec fn partial_cmp_spec(&self, other: &i64) -> Option<Ordering> {
        if self.0 < *other * pow10::wide_scale(DIGITS) {
            Some(Ordering::Less)
        } else if self.0 > *other * pow10::wide_scale(DIGITS) {
            Some(Ordering::Greater)
        } else {
            Some(Ordering::Equal)
        }
    }
}

impl<const DIGITS: u8> Neg for Decimal128<DIGITS> {
    type Output = Self;

    fn neg(self) -> (r: Self) {
        Decimal128(-self.0)
    }
}

impl<const DIGITS: u8> NegSpecImpl for Decimal128<DIGITS> {
    open spec fn obeys_neg_spec() -> bool {
        true
    }

    open spec fn neg_req(self) -> bool {
        self.0 != i128::MIN
    }

    open spec fn neg_spec(self) -> Self {
        Decimal128((-self.0) as i128)
    }
}

/// Inside the backing integer.
pub open spec fn fits128(v: int) -> bool {
    i128::MIN <= v <= i128::MAX
}

impl<const DIGITS: u8> Add for Decimal128<DIGITS> {
    type Output = Self;

    fn add(self, rhs: Self) -> (r: Self) {
        Decimal128(self.0 + rhs.0)
    }
}

impl<const DIGITS: u8> AddSpecImpl for Decimal128<DIGITS> {
    open spec fn obeys_add_spec() -> bool {
        true
    }

    open spec fn add_req(self, rhs: Self) -> bool {
        fits128(self.0 + rhs.0)
    }

    open spec fn add_spec(self, rhs: Self) -> Self {
        Decimal128((self.0 + rhs.0) as i128)
    }
}

impl<const DIGITS: u8> Add<i64> for Decimal128<DIGITS> {
    type Output = Self;

    fn add(self, rhs: i64) -> (r: Self) {
        Decimal128(self.0 + scaled_int(rhs, DIGITS))
    }
}

impl<const DIGITS: u8> AddSpecImpl<i64> for Decimal128<DIGITS> {
    open spec fn obeys_add_spec() -> bool {
        true
    }

    open spec fn add_req(self, rhs: i64) -> bool {
        DIGITS <= 19 && fits128(self.0 + rhs * pow10::wide_scale(DIGITS))
    }

    open spec fn add_spec(self, rhs: i64) -> Self {
        Decimal128((self.0 + rhs * pow10::wide_scale(DIGITS)) as i128)
    }
}

impl<const DIGITS: u8> Add<i32> for Decimal128<DIGITS> {
    type Output = Self;

    fn add(self, rhs: i32) -> (r: Self) {
        Decimal128(self.0 + scaled_int(rhs as i64, DIGITS))
    }
}

impl<const DIGITS: u8> AddSpecImpl<i32> for Decimal128<DIGITS> {
    open spec fn obeys_add_spec() -> bool {
        true
    }

    open spec fn add_req(self, rhs: i32) -> bool {
        DIGITS <= 19 && fits128(self.0 + rhs * pow10::wide_scale(DIGITS))
    }

    open spec fn add_spec(self, rhs: i32) -> Self {
        Decimal128((self.0 + rhs * pow10::wide_scale(DIGITS)) as i128)
    }
}

impl<const DIGITS: u8> Sub for Decimal128<DIGITS> {
    type Output = Self;

    fn sub(self, rhs: Self) -> (r: Self) {
        Decimal128(self.0 - rhs.0)
    }
}

impl<const DIGITS: u8> SubSpecImpl for Decimal128<DIGITS> {
    open spec fn obeys_sub_spec() -> bool {
        true
    }

    open spec fn sub_req(self, rhs: Self) -> bool {
        fits128(self.0 - rhs.0)
    }

    open spec fn sub_spec(self, rhs: Self) -> Self {
        Decimal128((self.0 - rhs.0) as i128)
    }
}

impl<const DIGITS: u8> Sub<i64> for Decimal128<DIGITS> {
    type Output = Self;

    fn sub(self, rhs: i64) -> (r: Self) {
        Decimal128(self.0 - scaled_int(rhs, DIGITS))
    }
}

impl<const DIGITS: u8> SubSpecImpl<i64> for Decimal128<DIGITS> {
    open spec fn obeys_sub_spec() -> bool {
        true
    }

    open spec fn sub_req(self, rhs: i64) -> bool {
        DIGITS <= 19 && fits128(self.0 - rhs * pow10::wide_scale(DIGITS))
    }

    open spec fn sub_spec(self, rhs: i64) -> Self {
        Decimal128((self.0 - rhs * pow10::wide_scale(DIGITS)) as i128)
    }
}

impl<const DIGITS: u8> Sub<i32> for Decimal128<DIGITS> {
    type Output = Self;

    fn sub(self, rhs: i32) -> (r: Self) {
        Decimal128(self.0 - scaled_int(rhs as i64, DIGITS))
    }
}

impl<const DIGITS: u8> SubSpecImpl<i32> for Decimal128<DIGITS> {
    open spec fn obeys_sub_spec() -> bool {
        true
    }

    open spec fn sub_req(self, rhs: i32) -> bool {
        DIGITS <= 19 && fits128(self.0 - rhs * pow10::wide_scale(DIGITS))
    }

    open spec fn sub_spec(self, rhs: i32) -> Self {
        Decimal128((self.0 - rhs * pow10::wide_scale(DIGITS)) as i128)
    }
}

impl<const DIGITS: u8> Mul for Decimal128<DIGITS> {
    type Output = Self;

    fn mul(self, rhs: Self) -> (r: Self) {
        self.mul_rounded(rhs, Rounding::HalfUp)
    }
}

impl<const DIGITS: u8> MulSpecImpl for Decimal128<DIGITS> {
    open spec fn obeys_mul_spec() -> bool {
        true
    }

    open spec fn mul_req(self, rhs: Self) -> bool {
        &&& DIGITS <= 19
        &&& rounding::within(
            rounding::product(self.0 as int, rhs.0 as int, DIGITS, Rounding::HalfUp),
            decimal128::two127(),
        )
    }

    open spec fn mul_spec(self, rhs: Self) -> Self {
        Decimal128(
            rounding::product(self.0 as int, rhs.0 as int, DIGITS, Rounding::HalfUp) as i128,
        )
    }
}

impl<const DIGITS: u8> Mul<i64> for Decimal128<DIGITS> {
    type Output = Self;

    fn mul(self, rhs: i64) -> (r: Self) {
        Decimal128(self.0 * rhs as i128)
    }
}

impl<const DIGITS: u8> MulSpecImpl<i64> for Decimal128<DIGITS> {
    open spec fn obeys_mul_spec() -> bool {
        true
    }

    open spec fn mul_req(self, rhs: i64) -> bool {
        fits128(self.0 * rhs)
    }

    open spec fn mul_spec(self, rhs: i64) -> Self {
        Decimal128((self.0 * rhs) as i128)
    }
}

impl<const DIGITS: u8> Mul<i32> for Decimal128<DIGITS> {
    type Output = Self;

    fn mul(self, rhs: i32) -> (r: Self) {
        Decimal128(self.0 * rhs as i128)
    }
}

impl<const DIGITS: u8> MulSpecImpl<i32> for Decimal128<DIGITS> {
    open spec fn obeys_mul_spec() -> bool {
        true
    }

    open spec fn mul_req(self, rhs: i32) -> bool {
        fits128(self.0 * rhs)
    }

    open spec fn mul_spec(self, rhs: i32) -> Self {
        Decimal128((self.0 * rhs) as i128)
    }
}

impl<const DIGITS: u8> Div for Decimal128<DIGITS> {
    type Output = Self;

    fn div(self, rhs: Self) -> (r: Self) {
        self.div_rounded(rhs, Rounding::HalfUp)
    }
}

impl<const DIGITS: u8> DivSpecImpl for Decimal128<DIGITS> {
    open spec fn obeys_div_spec() -> bool {
        true
    }

    open spec fn div_req(self, rhs: Self) -> bool {
        &&& DIGITS <= 19
        &&& rhs.0 != 0
        &&& rounding::within(
            rounding::quotient(self.0 as int, rhs.0 as int, DIGITS, Rounding::HalfUp),
            decimal128::two127(),
        )
    }

    open spec fn div_spec(self, rhs: Self) -> Self {
        Decimal128(
            rounding::quotient(self.0 as int, rhs.0 as int, DIGITS, Rounding::HalfUp) as i128,
        )
    }
}

impl<const DIGITS: u8> Rem for Decimal128<DIGITS> {
    type Output = Self;

    fn rem(self, rhs: Self) -> (r: Self) {
        Decimal128(i128_rem(self.0, rhs.0))
    }
}

impl<const DIGITS: u8> RemSpecImpl for Decimal128<DIGITS> {
    open spec fn obeys_rem_spec() -> bool {
        true
    }

    open spec fn rem_req(self, rhs: Self) -> bool {
        rhs.0 != 0
    }

    open spec fn rem_spec(self, rhs: Self) -> Self {
        Decimal128(
            rounding::trunc_rem(self.0 as int, rounding::mag_of(rhs.0 as int)) as i128,
        )
    }
}

impl<const DIGITS: u8> AddAssign for Decimal128<DIGITS> {
    fn add_assign(&mut self, rhs: Self)
        requires
            fits128(old(self).0 + rhs.0),
        ensures
            final(self).0 == old(self).0 + rhs.0,
    {
        *self = *self + rhs;
    }
}

impl<const DIGITS: u8> SubAssign for Decimal128<DIGITS> {
    fn sub_assign(&mut self, rhs: Self)
        requires
            fits128(old(self).0 - rhs.0),
        ensures
            final(self).0 == old(self).0 - rhs.0,
    {
        *self = *self - rhs;
    }
}

impl<const DIGITS: u8> MulAssign for Decimal128<DIGITS> {
    fn mul_assign(&mut self, rhs: Self)
        requires
            DIGITS <= 19,
            rounding::within(
                rounding::product(
                    old(self).0 as int,
                    rhs.0 as int,
                    DIGITS,
                    Rounding::HalfUp,
                ),
                decimal128::two127(),
            ),
        ensures
            final(self).0 == rounding::product(
                old(self).0 as int,
                rhs.0 as int,
                DIGITS,
                Rounding::HalfUp,
            ),
    {
        *self = *self * rhs;
    }
}

impl<const DIGITS: u8> DivAssign for Decimal128<DIGITS> {
    fn div_assign(&mut self, rhs: Self)
        requires
            DIGITS <= 19,
            rhs.0 != 0,
            rounding::within(
                rounding::quotient(
                    old(self).0 as int,
                    rhs.0 as int,
                    DIGITS,
                    Rounding::HalfUp,
                ),
                decimal128::two127(),
            ),
        ensures
            final(self).0 == rounding::quotient(
                old(self).0 as int,
                rhs.0 as int,
                DIGITS,
                Rounding::HalfUp,
            ),
    {
        *self = *self / rhs;
    }
}

impl<const DIGITS: u8> RemAssign for Decimal128<DIGITS> {
    fn rem_assign(&mut self, rhs: Self)
        requires
            rhs.0 != 0,
        ensures
            final(self).0 == rounding::trunc_rem(old(self).0 as int, rounding::mag_of(rhs.0 as int)),
    {
        *self = *self % rhs;
    }
}

/// The raw sum of decimals.
pub open spec fn raw_sum<const DIGITS: u8>(s: Seq<Decimal128<DIGITS>>) -> int
    decreases s.len(),
{
    if s.len() == 0 {
        0
    } else {
        raw_sum(s.drop_last()) + s.last().0
    }
}

/// Adding up from the left never leaves the backing integer.
pub open spec fn sums_fit<const DIGITS: u8>(s: Seq<Decimal128<DIGITS>>) -> bool {
    forall|k: int| 0 <= k <= s.len() ==> fits128(#[trigger] raw_sum(s.take(k)))
}

/// The raw product of decimals, each step rounded half up.
pub open spec fn raw_product<const DIGITS: u8>(s: Seq<Decimal128<DIGITS>>) -> int
    decreases s.len(),
{
    if s.len() == 0 {
        pow10::wide_scale(DIGITS)
    } else {
        rounding::product(
            raw_product(s.drop_last()),
            s.last().0 as int,
            DIGITS,
            Rounding::HalfUp,
        )
    }
}

/// Multiplying from the left never leaves the symmetric range.
pub open spec fn products_fit<const DIGITS: u8>(s: Seq<Decimal128<DIGITS>>) -> bool {
    forall|k: int|
        0 < k <= s.len() ==> rounding::within(#[trigger] raw_product(s.take(k)), decimal128::two127())
}

impl<const DIGITS: u8> core::iter::Sum for Decimal128<DIGITS> {
    fn sum<I: Iterator<Item = Self>>(iter: I) -> (r: Self)
        requires
            iter.obeys_prophetic_iter_laws(),
            iter.decrease() is Some,
            sums_fit(iter.remaining()),
        ensures
            r.0 == raw_sum(iter.remaining()),
    {
        let mut it: I = iter;
        let ghost src: Seq<Decimal128<DIGITS>> = iter.remaining();
        let ghost all: Seq<Decimal128<DIGITS>> = src;
        let ghost mut k: int = 0;
        let mut acc: Self = Self::zero();
        proof {
            assert(all.take(0) =~= Seq::<Decimal128<DIGITS>>::empty());
            assert(src.skip(0) =~= src);
        }
        loop
            invariant
                0 <= k <= all.len(),
                all == iter.remaining(),
                sums_fit(all),
                it.obeys_prophetic_iter_laws(),
                it.decrease() is Some,
                it.remaining() == src.skip(k),
                src == iter.remaining(),
                all.len() == src.len(),
                acc.0 == raw_sum(all.take(k)),
            decreases it.decrease()->0,
        {
            match it.next() {
                Some(v) => {
                    proof {
                        assert(v == src[k]);
                        assert(src.skip(k).drop_first() =~= src.skip(k + 1));
                        assert(all.take(k + 1).drop_last() =~= all.take(k));
                        assert(all.take(k + 1).last() == v);
                        assert(fits128(raw_sum(all.take(k + 1))));
                        k = k + 1;
                    }
                    acc = acc + v;
                },
                None => {
                    assert(all.take(k) =~= all);
                    return acc;
                },
            }
        }
    }
}

impl<const DIGITS: u8> core::iter::Product for Decimal128<DIGITS> {
    fn product<I: Iterator<Item = Self>>(iter: I) -> (r: Self)
        requires
            DIGITS <= 19,
            iter.obeys_prophetic_iter_laws(),
            iter.decrease() is Some,
            products_fit(iter.remaining()),
        ensures
            r.0 == raw_product(iter.remaining()),
    {
        let mut it: I = iter;
        let ghost src: Seq<Decimal128<DIGITS>> = iter.remaining();
        let ghost all: Seq<Decimal128<DIGITS>> = src;
        let ghost mut k: int = 0;
        let mut acc: Self = Self::one();
        proof {
            assert(all.take(0) =~= Seq::<Decimal128<DIGITS>>::empty());
            assert(src.skip(0) =~= src);
        }
        loop
            invariant
                DIGITS <= 19,
                0 <= k <= all.len(),
                all == iter.remaining(),
                products_fit(all),
                it.obeys_prophetic_iter_laws(),
                it.decrease() is Some,
                it.remaining() == src.skip(k),
                src == iter.remaining(),
                all.len() == src.len(),
                acc.0 == raw_product(all.take(k)),
            decreases it.decrease()->0,
        {
            match it.next() {
                Some(v) => {
                    proof {
                        assert(v == src[k]);
                        assert(src.skip(k).drop_first() =~= src.skip(k + 1));
                        assert(all.take(k + 1).drop_last() =~= all.take(k));
                        assert(all.take(k + 1).last() == v);
                        assert(rounding::within(raw_product(all.take(k + 1)), decimal128::two127()));
                        k = k + 1;
                    }
                    acc = acc * v;
                },
                None => {
                    assert(all.take(k) =~= all);
                    return acc;
                },
            }
        }
    }
}

impl<'a, const DIGITS: u8> core::iter::Sum<&'a Decimal128<DIGITS>> for Decimal128<DIGITS> {
    fn sum<I: Iterator<Item = &'a Self>>(iter: I) -> (r: Self)
        requires
            iter.obeys_prophetic_iter_laws(),
            iter.decrease() is Some,
            sums_fit(iter.remaining().unref()),
        ensures
            r.0 == raw_sum(iter.remaining().unref()),
    {
        let mut it: I = iter;
        let ghost src: Seq<&'a Decimal128<DIGITS>> = iter.remaining();
        let ghost all: Seq<Decimal128<DIGITS>> = src.unref();
        let ghost mut k: int = 0;
        let mut acc: Self = Self::zero();
        proof {
            assert(all.take(0) =~= Seq::<Decimal128<DIGITS>>::empty());
            assert(src.skip(0) =~= src);
        }
        loop
            invariant
                0 <= k <= all.len(),
                all == iter.remaining().unref(),
                sums_fit(all),
                it.obeys_prophetic_iter_laws(),
                it.decrease() is Some,
                it.remaining() == src.skip(k),
                src == iter.remaining(),
                all.len() == src.len(),
                acc.0 == raw_sum(all.take(k)),
            decreases it.decrease()->0,
        {
            match it.next() {
                Some(v) => {
                    proof {
                        assert(v == src[k]);
                        assert(src.skip(k).drop_first() =~= src.skip(k + 1));
                        assert(all.take(k + 1).drop_last() =~= all.take(k));
                        assert(all.take(k + 1).last() == *v);
                        assert(fits128(raw_sum(all.take(k + 1))));
                        k = k + 1;
                    }
                    acc = acc + *v;
                },
                None => {
                    assert(all.take(k) =~= all);
                    return acc;
                },
            }
        }
    }
}

impl<'a, const DIGITS: u8> core::iter::Product<&'a Decimal128<DIGITS>> for Decimal128<DIGITS> {
    fn product<I: Iterator<Item = &'a Self>>(iter: I) -> (r: Self)
        requires
            DIGITS <= 19,
            iter.obeys_prophetic_iter_laws(),
            iter.decrease() is Some,
            products_fit(iter.remaining().unref()),
        ensures
            r.0 == raw_product(iter.remaining().unref()),
    {
        let mut it: I = iter;
        let ghost src: Seq<&'a Decimal128<DIGITS>> = iter.remaining();
        let ghost all: Seq<Decimal128<DIGITS>> = src.unref();
        let ghost mut k: int = 0;
        let mut acc: Self = Self::one();
        proof {
            assert(all.take(0) =~= Seq::<Decimal128<DIGITS>>::empty());
            assert(src.skip(0) =~= src);
        }
        loop
            invariant
                DIGITS <= 19,
                0 <= k <= all.len(),
                all == iter.remaining().unref(),
                products_fit(all),
                it.obeys_prophetic_iter_laws(),
                it.decrease() is Some,
                it.remaining() == src.skip(k),
                src == iter.remaining(),
                all.len() == src.len(),
                acc.0 == raw_product(all.take(k)),
            decreases it.decrease()->0,
        {
            match it.next() {
                Some(v) => {
                    proof {
                        assert(v == src[k]);
                        assert(src.skip(k).drop_first() =~= src.skip(k + 1));
                        assert(all.take(k + 1).drop_last() =~= all.take(k));
                        assert(all.take(k + 1).last() == *v);
                        assert(rounding::within(raw_product(all.take(k + 1)), decimal128::two127()));
                        k = k + 1;
                    }
                    acc = acc * *v;
                },
                None => {
                    assert(all.take(k) =~= all);
                    return acc;
                },
            }
        }
    }
}

} // verus!
