//! Operators and conversions of the 256-bit backed decimal.

use crate::decimal256;
use crate::decimal256::{i256_rem, Decimal256};
use crate::error::AmountErrorKind;
use crate::i256;
use crate::i256::I256;
use crate::parse;
use crate::pow10;
use crate::rounding;
use crate::rounding::Rounding;
use core::cmp::Ordering;
use core::ops::{
    Add, AddAssign, Div, DivAssign, Mul, MulAssign, Neg, Rem, RemAssign, Sub, SubAssign,
};
use core::str::FromStr;
use vstd::pervasive::unreached;
use vstd::prelude::*;
use vstd::std_specs::cmp::{PartialEqSpecImpl, PartialOrdSpecImpl};
use vstd::std_specs::convert::FromSpecImpl;
use vstd::std_specs::iter::IteratorSpec;
use vstd::std_specs::ops::{
    AddSpecImpl, DivSpecImpl, MulSpecImpl, NegSpecImpl, RemSpecImpl, SubSpecImpl,
};

verus! {

impl<const DIGITS: u8> FromStr for Decimal256<DIGITS> {
    type Err = AmountErrorKind;

    /// Converts a string in base 10, rounding fractional digits beyond
    /// the scale with [`Rounding::HalfUp`].
    ///
    /// Accepts `Sign? ( Digit+ | Digit+ '.' Digit* | Digit* '.' Digit+ )`;
    /// leading/trailing whitespace or other symbols are an error.
    fn from_str(src: &str) -> (r: Result<Self, AmountErrorKind>)
        requires
            DIGITS <= 19,
        ensures
            decimal256::raw_result(r) == parse::parse_int(
                src@,
                DIGITS as nat,
                4,
                Rounding::HalfUp,
            ),
    {
        Self::from_str_rounded(src, Rounding::HalfUp)
    }
}

/// The decimal with a given raw value.
pub open spec fn raw256<const DIGITS: u8>(v: int) -> Decimal256<DIGITS> {
    Decimal256(I256::of(v))
}

/// A decimal is the one with its raw value.
proof fn lemma_raw256<const DIGITS: u8>(d: Decimal256<DIGITS>)
    ensures
        d == raw256::<DIGITS>(d.0@),
{
    d.0.lemma_view();
    I256::lemma_of(d.0@);
}

impl<const DIGITS: u8> From<i32> for Decimal256<DIGITS> {
    fn from(item: i32) -> (r: Self) {
        let r: Self = Self::scaled(item as i128);
        proof {
            lemma_raw256(r);
        }
        r
    }
}

impl<const DIGITS: u8> FromSpecImpl<i32> for Decimal256<DIGITS> {
    open spec fn obeys_from_spec() -> bool {
        true
    }

    open spec fn from_spec(item: i32) -> Self {
        raw256(item * pow10::wide_scale(DIGITS))
    }
}

impl<const DIGITS: u8> From<i64> for Decimal256<DIGITS> {
    fn from(item: i64) -> (r: Self) {
        let r: Self = Self::scaled(item as i128);
        proof {
            lemma_raw256(r);
        }
        r
    }
}

impl<const DIGITS: u8> FromSpecImpl<i64> for Decimal256<DIGITS> {
    open spec fn obeys_from_spec() -> bool {
        true
    }

    open spec fn from_spec(item: i64) -> Self {
        raw256(item * pow10::wide_scale(DIGITS))
    }
}

impl<const DIGITS: u8> From<i128> for Decimal256<DIGITS> {
    fn from(item: i128) -> (r: Self) {
        let r: Self = Self::scaled(item);
        proof {
            lemma_raw256(r);
        }
        r
    }
}

impl<const DIGITS: u8> FromSpecImpl<i128> for Decimal256<DIGITS> {
    open spec fn obeys_from_spec() -> bool {
        true
    }

    open spec fn from_spec(item: i128) -> Self {
        raw256(item * pow10::wide_scale(DIGITS))
    }
}

/// An integer times the scale.
fn of_int<const DIGITS: u8>(n: i64) -> (r: Decimal256<DIGITS>)
    ensures
        r.0@ == n * pow10::wide_scale(DIGITS),
{
    Decimal256::scaled(n as i128)
}

impl<const DIGITS: u8> PartialEq<i64> for Decimal256<DIGITS> {
    fn eq(&self, other: &i64) -> (r: bool) {
        proof {
            self.0.lemma_view();
        }
        self.0 == of_int::<DIGITS>(*other).0
    }
}

impl<const DIGITS: u8> PartialEqSpecImpl<i64> for Decimal256<DIGITS> {
    open spec fn obeys_eq_spec() -> bool {
        true
    }

    open spec fn eq_spec(&self, other: &i64) -> bool {
        self.0@ == *other * pow10::wide_scale(DIGITS)
    }
}

impl<const DIGITS: u8> PartialOrd<i64> for Decimal256<DIGITS> {
    fn partial_cmp(&self, other: &i64) -> (r: Option<Ordering>) {
        self.0.partial_cmp(&of_int::<DIGITS>(*other).0)
    }
}

impl<const DIGITS: u8> PartialOrdSpecImpl<i64> for Decimal256<DIGITS> {
    open spec fn obeys_partial_cmp_spec() -> bool {
        true
    }

    open spec fn partial_cmp_spec(&self, other: &i64) -> Option<Ordering> {
        if self.0@ < *other * pow10::wide_scale(DIGITS) {
            Some(Ordering::Less)
        } else if self.0@ > *other * pow10::wide_scale(DIGITS) {
            Some(Ordering::Greater)
        } else {
            Some(Ordering::Equal)
        }
    }
}

impl<const DIGITS: u8> Neg for Decimal256<DIGITS> {
    type Output = Self;

    /// Negates; the most negative backing integer, which lies outside the
    /// symmetric range, stays as it is.
    fn neg(self) -> (r: Self) {
        let r: Self = Decimal256(self.0.wrapping_neg());
        proof {
            lemma_raw256(r);
        }
        r
    }
}

impl<const DIGITS: u8> NegSpecImpl for Decimal256<DIGITS> {
    open spec fn obeys_neg_spec() -> bool {
        true
    }

    open spec fn neg_req(self) -> bool {
        true
    }

    open spec fn neg_spec(self) -> Self {
        raw256(
            if self.0@ == -i256::two255() {
                self.0@
            } else {
                -self.0@
            },
        )
    }
}

/// Inside the backing integer.
pub open spec fn fits256(v: int) -> bool {
    -i256::two255() <= v < i256::two255()
}

impl<const DIGITS: u8> Add for Decimal256<DIGITS> {
    type Output = Self;

    fn add(self, rhs: Self) -> (r: Self) {
        match self.0.checked_add(rhs.0) {
            Some(v) => {
                let r: Self = Decimal256(v);
                proof {
                    lemma_raw256(r);
                }
                r
            },
            None => unreached(),
        }
    }
}

impl<const DIGITS: u8> AddSpecImpl for Decimal256<DIGITS> {
    open spec fn obeys_add_spec() -> bool {
        true
    }

    open spec fn add_req(self, rhs: Self) -> bool {
        fits256(self.0@ + rhs.0@)
    }

    open spec fn add_spec(self, rhs: Self) -> Self {
        raw256(self.0@ + rhs.0@)
    }
}

impl<const DIGITS: u8> Add<i64> for Decimal256<DIGITS> {
    type Output = Self;

    fn add(self, rhs: i64) -> (r: Self) {
        self + Self::from_i64(rhs)
    }
}

impl<const DIGITS: u8> AddSpecImpl<i64> for Decimal256<DIGITS> {
    open spec fn obeys_add_spec() -> bool {
        true
    }

    open spec fn add_req(self, rhs: i64) -> bool {
        DIGITS <= 19 && fits256(self.0@ + rhs * pow10::wide_scale(DIGITS))
    }

    open spec fn add_spec(self, rhs: i64) -> Self {
        raw256(self.0@ + rhs * pow10::wide_scale(DIGITS))
    }
}

impl<const DIGITS: u8> Add<i32> for Decimal256<DIGITS> {
    type Output = Self;

    fn add(self, rhs: i32) -> (r: Self) {
        self + Self::from_i64(rhs as i64)
    }
}

impl<const DIGITS: u8> AddSpecImpl<i32> for Decimal256<DIGITS> {
    open spec fn obeys_add_spec() -> bool {
        true
    }

    open spec fn add_req(self, rhs: i32) -> bool {
        DIGITS <= 19 && fits256(self.0@ + rhs * pow10::wide_scale(DIGITS))
    }

    open spec fn add_spec(self, rhs: i32) -> Self {
        raw256(self.0@ + rhs * pow10::wide_scale(DIGITS))
    }
}

impl<const DIGITS: u8> Sub for Decimal256<DIGITS> {
    type Output = Self;

    fn sub(self, rhs: Self) -> (r: Self) {
        match self.0.checked_sub(rhs.0) {
            Some(v) => {
                let r: Self = Decimal256(v);
                proof {
                    lemma_raw256(r);
                }
                r
            },
            None => unreached(),
        }
    }
}

impl<const DIGITS: u8> SubSpecImpl for Decimal256<DIGITS> {
    open spec fn obeys_sub_spec() -> bool {
        true
    }

    open spec fn sub_req(self, rhs: Self) -> bool {
        fits256(self.0@ - rhs.0@)
    }

    open spec fn sub_spec(self, rhs: Self) -> Self {
        raw256(self.0@ - rhs.0@)
    }
}

impl<const DIGITS: u8> Sub<i64> for Decimal256<DIGITS> {
    type Output = Self;

    fn sub(self, rhs: i64) -> (r: Self) {
        self - Self::from_i64(rhs)
    }
}

impl<const DIGITS: u8> SubSpecImpl<i64> for Decimal256<DIGITS> {
    open spec fn obeys_sub_spec() -> bool {
        true
    }

    open spec fn sub_req(self, rhs: i64) -> bool {
        DIGITS <= 19 && fits256(self.0@ - rhs * pow10::wide_scale(DIGITS))
    }

    open spec fn sub_spec(self, rhs: i64) -> Self {
        raw256(self.0@ - rhs * pow10::wide_scale(DIGITS))
    }
}

impl<const DIGITS: u8> Sub<i32> for Decimal256<DIGITS> {
    type Output = Self;

    fn sub(self, rhs: i32) -> (r: Self) {
        self - Self::from_i64(rhs as i64)
    }
}

impl<const DIGITS: u8> SubSpecImpl<i32> for Decimal256<DIGITS> {
    open spec fn obeys_sub_spec() -> bool {
        true
    }

    open spec fn sub_req(self, rhs: i32) -> bool {
        DIGITS <= 19 && fits256(self.0@ - rhs * pow10::wide_scale(DIGITS))
    }

    open spec fn sub_spec(self, rhs: i32) -> Self {
        raw256(self.0@ - rhs * pow10::wide_scale(DIGITS))
    }
}

impl<const DIGITS: u8> Mul for Decimal256<DIGITS> {
    type Output = Self;

    fn mul(self, rhs: Self) -> (r: Self) {
        let r: Self = self.mul_rounded(rhs, Rounding::HalfUp);
        proof {
            lemma_raw256(r);
        }
        r
    }
}

impl<const DIGITS: u8> MulSpecImpl for Decimal256<DIGITS> {
    open spec fn obeys_mul_spec() -> bool {
        true
    }

    open spec fn mul_req(self, rhs: Self) -> bool {
        &&& DIGITS <= 19
        &&& rounding::within(
            rounding::product(self.0@, rhs.0@, DIGITS, Rounding::HalfUp),
            i256::two255(),
        )
    }

    open spec fn mul_spec(self, rhs: Self) -> Self {
        raw256(rounding::product(self.0@, rhs.0@, DIGITS, Rounding::HalfUp))
    }
}

impl<const DIGITS: u8> Mul<i64> for Decimal256<DIGITS> {
    type Output = Self;

    fn mul(self, rhs: i64) -> (r: Self) {
        let r: Self = decimal256::mul_int(self, rhs);
        proof {
            lemma_raw256(r);
        }
        r
    }
}

impl<const DIGITS: u8> MulSpecImpl<i64> for Decimal256<DIGITS> {
    open spec fn obeys_mul_spec() -> bool {
        true
    }

    open spec fn mul_req(self, rhs: i64) -> bool {
        rounding::within(self.0@ * rhs, i256::two255())
    }

    open spec fn mul_spec(self, rhs: i64) -> Self {
        raw256(self.0@ * rhs)
    }
}

impl<const DIGITS: u8> Mul<i32> for Decimal256<DIGITS> {
    type Output = Self;

    fn mul(self, rhs: i32) -> (r: Self) {
        self * rhs as i64
    }
}

impl<const DIGITS: u8> MulSpecImpl<i32> for Decimal256<DIGITS> {
    open spec fn obeys_mul_spec() -> bool {
        true
    }

    open spec fn mul_req(self, rhs: i32) -> bool {
        rounding::within(self.0@ * rhs, i256::two255())
    }

    open spec fn mul_spec(self, rhs: i32) -> Self {
        raw256(self.0@ * rhs)
    }
}

impl<const DIGITS: u8> Div for Decimal256<DIGITS> {
    type Output = Self;

    fn div(self, rhs: Self) -> (r: Self) {
        let r: Self = self.div_rounded(rhs, Rounding::HalfUp);
        proof {
            lemma_raw256(r);
        }
        r
    }
}

impl<const DIGITS: u8> DivSpecImpl for Decimal256<DIGITS> {
    open spec fn obeys_div_spec() -> bool {
        true
    }

    open spec fn div_req(self, rhs: Self) -> bool {
        &&& DIGITS <= 19
        &&& rhs.0@ != 0
        &&& rounding::within(
            rounding::quotient(self.0@, rhs.0@, DIGITS, Rounding::HalfUp),
            i256::two255(),
        )
    }

    open spec fn div_spec(self, rhs: Self) -> Self {
        raw256(rounding::quotient(self.0@, rhs.0@, DIGITS, Rounding::HalfUp))
    }
}

impl<const DIGITS: u8> Rem for Decimal256<DIGITS> {
    type Output = Self;

    fn rem(self, rhs: Self) -> (r: Self) {
        let r: Self = Decimal256(i256_rem(self.0, rhs.0));
        proof {
            lemma_raw256(r);
        }
        r
    }
}

impl<const DIGITS: u8> RemSpecImpl for Decimal256<DIGITS> {
    open spec fn obeys_rem_spec() -> bool {
        true
    }

    open spec fn rem_req(self, rhs: Self) -> bool {
        rhs.0@ != 0
    }

    open spec fn rem_spec(self, rhs: Self) -> Self {
        raw256(rounding::trunc_rem(self.0@, rounding::mag_of(rhs.0@)))
    }
}

/// The raw value of the decimal with a given raw value.
proof fn lemma_raw_value<const DIGITS: u8>(v: int)
    requires
        fits256(v),
    ensures
        raw256::<DIGITS>(v).0@ == v,
{
    I256::lemma_of(v);
}

impl<const DIGITS: u8> AddAssign for Decimal256<DIGITS> {
    fn add_assign(&mut self, rhs: Self)
        requires
            fits256(old(self).0@ + rhs.0@),
        ensures
            final(self).0@ == old(self).0@ + rhs.0@,
    {
        let r: Self = *self + rhs;
        proof {
            lemma_raw_value::<DIGITS>(self.0@ + rhs.0@);
        }
        *self = r;
    }
}

impl<const DIGITS: u8> SubAssign for Decimal256<DIGITS> {
    fn sub_assign(&mut self, rhs: Self)
        requires
            fits256(old(self).0@ - rhs.0@),
        ensures
            final(self).0@ == old(self).0@ - rhs.0@,
    {
        let r: Self = *self - rhs;
        proof {
            lemma_raw_value::<DIGITS>(self.0@ - rhs.0@);
        }
        *self = r;
    }
}

impl<const DIGITS: u8> MulAssign for Decimal256<DIGITS> {
    fn mul_assign(&mut self, rhs: Self)
        requires
            DIGITS <= 19,
            rounding::within(
                rounding::product(old(self).0@, rhs.0@, DIGITS, Rounding::HalfUp),
                i256::two255(),
            ),
        ensures
            final(self).0@ == rounding::product(old(self).0@, rhs.0@, DIGITS, Rounding::HalfUp),
    {
        let r: Self = *self * rhs;
        proof {
            lemma_raw_value::<DIGITS>(rounding::product(self.0@, rhs.0@, DIGITS, Rounding::HalfUp));
        }
        *self = r;
    }
}

impl<const DIGITS: u8> DivAssign for Decimal256<DIGITS> {
    fn div_assign(&mut self, rhs: Self)
        requires
            DIGITS <= 19,
            rhs.0@ != 0,
            rounding::within(
                rounding::quotient(old(self).0@, rhs.0@, DIGITS, Rounding::HalfUp),
                i256::two255(),
            ),
        ensures
            final(self).0@ == rounding::quotient(old(self).0@, rhs.0@, DIGITS, Rounding::HalfUp),
    {
        let r: Self = *self / rhs;
        proof {
            lemma_raw_value::<DIGITS>(rounding::quotient(self.0@, rhs.0@, DIGITS, Rounding::HalfUp));
        }
        *self = r;
    }
}

impl<const DIGITS: u8> RemAssign for Decimal256<DIGITS> {
    fn rem_assign(&mut self, rhs: Self)
        requires
            rhs.0@ != 0,
        ensures
            final(self).0@ == rounding::trunc_rem(old(self).0@, rounding::mag_of(rhs.0@)),
    {
        let r: Self = *self % rhs;
        proof {
            lemma_raw_value::<DIGITS>(rounding::trunc_rem(self.0@, rounding::mag_of(rhs.0@)));
        }
        *self = r;
    }
}

/// The raw sum of decimals.
pub open spec fn raw_sum<const DIGITS: u8>(s: Seq<Decimal256<DIGITS>>) -> int
    decreases s.len(),
{
    if s.len() == 0 {
        0
    } else {
        raw_sum(s.drop_last()) + s.last().0@
    }
}

/// Adding up from the left never leaves the backing integer.
pub open spec fn sums_fit<const DIGITS: u8>(s: Seq<Decimal256<DIGITS>>) -> bool {
    forall|k: int| 0 <= k <= s.len() ==> fits256(#[trigger] raw_sum(s.take(k)))
}

/// The raw product of decimals, each step rounded half up.
pub open spec fn raw_product<const DIGITS: u8>(s: Seq<Decimal256<DIGITS>>) -> int
    decreases s.len(),
{
    if s.len() == 0 {
        pow10::wide_scale(DIGITS)
    } else {
        rounding::product(
            raw_product(s.drop_last()),
            s.last().0@,
            DIGITS,
            Rounding::HalfUp,
        )
    }
}

/// Multiplying from the left never leaves the symmetric range.
pub open spec fn products_fit<const DIGITS: u8>(s: Seq<Decimal256<DIGITS>>) -> bool {
    forall|k: int|
        0 < k <= s.len() ==> rounding::within(#[trigger] raw_product(s.take(k)), i256::two255())
}

impl<const DIGITS: u8> core::iter::Sum for Decimal256<DIGITS> {
    fn sum<I: Iterator<Item = Self>>(iter: I) -> (r: Self)
        requires
            iter.obeys_prophetic_iter_laws(),
            iter.decrease() is Some,
            sums_fit(iter.remaining()),
        ensures
            r.0@ == raw_sum(iter.remaining()),
    {
        let mut it: I = iter;
        let ghost src: Seq<Decimal256<DIGITS>> = iter.remaining();
        let ghost all: Seq<Decimal256<DIGITS>> = src;
        let ghost mut k: int = 0;
        let mut acc: Self = Self::zero();
        proof {
            assert(all.take(0) =~= Seq::<Decimal256<DIGITS>>::empty());
            assert(src.skip(0) =~= src);
        }
        loop
            invariant
                0 <= k <= all.len(),
                all == iter.remaining(),
                sums_fit(all),
                it.obeys_prophetic_iter_laws(),
                it.decrease() is Some,
                it.remaining() == src.skip(k),
                src == iter.remaining(),
                all.len() == src.len(),
                acc.0@ == raw_sum(all.take(k)),
            decreases it.decrease()->0,
        {
            match it.next() {
                Some(v) => {
                    proof {
                        assert(v == src[k]);
                        assert(src.skip(k).drop_first() =~= src.skip(k + 1));
                        assert(all.take(k + 1).drop_last() =~= all.take(k));
                        assert(all.take(k + 1).last() == v);
                        assert(fits256(raw_sum(all.take(k + 1))));
                        k = k + 1;
                    }
                    acc = acc + v;
                },
                None => {
                    assert(all.take(k) =~= all);
                    return acc;
                },
            }
        }
    }
}

impl<const DIGITS: u8> core::iter::Product for Decimal256<DIGITS> {
    fn product<I: Iterator<Item = Self>>(iter: I) -> (r: Self)
        requires
            DIGITS <= 19,
            iter.obeys_prophetic_iter_laws(),
            iter.decrease() is Some,
            products_fit(iter.remaining()),
        ensures
            r.0@ == raw_product(iter.remaining()),
    {
        let mut it: I = iter;
        let ghost src: Seq<Decimal256<DIGITS>> = iter.remaining();
        let ghost all: Seq<Decimal256<DIGITS>> = src;
        let ghost mut k: int = 0;
        let mut acc: Self = Self::one();
        proof {
            assert(all.take(0) =~= Seq::<Decimal256<DIGITS>>::empty());
            assert(src.skip(0) =~= src);
        }
        loop
            invariant
                DIGITS <= 19,
                0 <= k <= all.len(),
                all == iter.remaining(),
                products_fit(all),
                it.obeys_prophetic_iter_laws(),
                it.decrease() is Some,
                it.remaining() == src.skip(k),
                src == iter.remaining(),
                all.len() == src.len(),
                acc.0@ == raw_product(all.take(k)),
            decreases it.decrease()->0,
        {
            match it.next() {
                Some(v) => {
                    proof {
                        assert(v == src[k]);
                        assert(src.skip(k).drop_first() =~= src.skip(k + 1));
                        assert(all.take(k + 1).drop_last() =~= all.take(k));
                        assert(all.take(k + 1).last() == v);
                        assert(rounding::within(raw_product(all.take(k + 1)), i256::two255()));
                        k = k + 1;
                    }
                    acc = acc * v;
                },
                None => {
                    assert(all.take(k) =~= all);
                    return acc;
                },
            }
        }
    }
}

impl<'a, const DIGITS: u8> core::iter::Sum<&'a Decimal256<DIGITS>> for Decimal256<DIGITS> {
    fn sum<I: Iterator<Item = &'a Self>>(iter: I) -> (r: Self)
        requires
            iter.obeys_prophetic_iter_laws(),
            iter.decrease() is Some,
            sums_fit(iter.remaining().unref()),
        ensures
            r.0@ == raw_sum(iter.remaining().unref()),
    {
        let mut it: I = iter;
        let ghost src: Seq<&'a Decimal256<DIGITS>> = iter.remaining();
        let ghost all: Seq<Decimal256<DIGITS>> = src.unref();
        let ghost mut k: int = 0;
        let mut acc: Self = Self::zero();
        proof {
            assert(all.take(0) =~= Seq::<Decimal256<DIGITS>>::empty());
            assert(src.skip(0) =~= src);
        }
        loop
            invariant
                0 <= k <= all.len(),
                all == iter.remaining().unref(),
                sums_fit(all),
                it.obeys_prophetic_iter_laws(),
                it.decrease() is Some,
                it.remaining() == src.skip(k),
                src == iter.remaining(),
                all.len() == src.len(),
                acc.0@ == raw_sum(all.take(k)),
            decreases it.decrease()->0,
        {
            match it.next() {
                Some(v) => {
                    proof {
                        assert(v == src[k]);
                        assert(src.skip(k).drop_first() =~= src.skip(k + 1));
                        assert(all.take(k + 1).drop_last() =~= all.take(k));
                        assert(all.take(k + 1).last() == *v);
                        assert(fits256(raw_sum(all.take(k + 1))));
                        k = k + 1;
                    }
                    acc = acc + *v;
                },
                None => {
                    assert(all.take(k) =~= all);
                    return acc;
                },
            }
        }
    }
}

impl<'a, const DIGITS: u8> core::iter::Product<&'a Decimal256<DIGITS>> for Decimal256<DIGITS> {
    fn product<I: Iterator<Item = &'a Self>>(iter: I) -> (r: Self)
        requires
            DIGITS <= 19,
            iter.obeys_prophetic_iter_laws(),
            iter.decrease() is Some,
            products_fit(iter.remaining().unref()),
        ensures
            r.0@ == raw_product(iter.remaining().unref()),
    {
        let mut it: I = iter;
        let ghost src: Seq<&'a Decimal256<DIGITS>> = iter.remaining();
        let ghost all: Seq<Decimal256<DIGITS>> = src.unref();
        let ghost mut k: int = 0;
        let mut acc: Self = Self::one();
        proof {
            assert(all.take(0) =~= Seq::<Decimal256<DIGITS>>::empty());
            assert(src.skip(0) =~= src);
        }
        loop
            invariant
                DIGITS <= 19,
                0 <= k <= all.len(),
                all == iter.remaining().unref(),
                products_fit(all),
                it.obeys_prophetic_iter_laws(),
                it.decrease() is Some,
                it.remaining() == src.skip(k),
                src == iter.remaining(),
                all.len() == src.len(),
                acc.0@ == raw_product(all.take(k)),
            decreases it.decrease()->0,
        {
            match it.next() {
                Some(v) => {
                    proof {
                        assert(v == src[k]);
                        assert(src.skip(k).drop_first() =~= src.skip(k + 1));
                        assert(all.take(k + 1).drop_last() =~= all.take(k));
                        assert(all.take(k + 1).last() == *v);
                        assert(rounding::within(raw_product(all.take(k + 1)), i256::two255()));
                        k = k + 1;
                    }
                    acc = acc * *v;
                },
                None => {
                    assert(all.take(k) =~= all);
                    return acc;
                },
            }
        }
    }
}

} // verus!
