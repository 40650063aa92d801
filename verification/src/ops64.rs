//! Operators and conversions of the 64-bit backed decimal.

use crate::decimal64;
use crate::decimal64::{rem64, scale_of, Decimal};
use crate::error::AmountErrorKind;
use crate::limbs::Order;
use crate::parse;
use crate::rounding;
use crate::rounding::Rounding;
use core::cmp::Ordering;
use core::ops::{
    Add, AddAssign, Div, DivAssign, Mul, MulAssign, Neg, Rem, RemAssign, Sub, SubAssign,
};
use core::str::FromStr;
use vstd::prelude::*;
use vstd::std_specs::cmp::{PartialEqSpecImpl, PartialOrdSpecImpl};
use vstd::std_specs::convert::FromSpecImpl;
use vstd::std_specs::iter::IteratorSpec;
use vstd::std_specs::ops::{
    AddSpecImpl, DivSpecImpl, MulSpecImpl, NegSpecImpl, RemSpecImpl, SubSpecImpl,
};

verus! {

impl<const DIGITS: u8> FromStr for Decimal<DIGITS> {
    type Err = AmountErrorKind;

    /// Converts a string in base 10, rounding fractional digits beyond
    /// the scale with [`Rounding::HalfUp`].
    ///
    /// Accepts `Sign? ( Digit+ | Digit+ '.' Digit* | Digit* '.' Digit+ )`;
    /// leading/trailing whitespace or other symbols are an error.
    fn from_str(src: &str) -> (r: Result<Self, AmountErrorKind>)
        requires
            DIGITS <= 19,
        ensures
            decimal64::raw_result(r) == parse::parse_int(
                src@,
                DIGITS as nat,
                1,
                Rounding::HalfUp,
            ),
    {
        Self::from_str_rounded(src, Rounding::HalfUp)
    }
}

impl<const DIGITS: u8> From<i32> for Decimal<DIGITS> {
    /// Scales the integer up; a product beyond the range wraps.
    fn from(item: i32) -> (r: Self) {
        Decimal((item as i64).wrapping_mul(scale_of(DIGITS)))
    }
}

impl<const DIGITS: u8> FromSpecImpl<i32> for Decimal<DIGITS> {
    open spec fn obeys_from_spec() -> bool {
        true
    }

    open spec fn from_spec(item: i32) -> Self {
        Decimal((item as i64).wrapping_mul(decimal64::scale64(DIGITS) as i64))
    }
}

impl<const DIGITS: u8> From<i64> for Decimal<DIGITS> {
    /// Scales the integer up; a product beyond the range wraps.
    fn from(item: i64) -> (r: Self) {
        Decimal(item.wrapping_mul(scale_of(DIGITS)))
    }
}

impl<const DIGITS: u8> FromSpecImpl<i64> for Decimal<DIGITS> {
    open spec fn obeys_from_spec() -> bool {
        true
    }

    open spec fn from_spec(item: i64) -> Self {
        Decimal(item.wrapping_mul(decimal64::scale64(DIGITS) as i64))
    }
}

impl<const DIGITS: u8> PartialEq<i64> for Decimal<DIGITS> {
    fn eq(&self, other: &i64) -> (r: bool) {
        order_raw_int(self.0, *other, scale_of(DIGITS)) == Order::Equal
    }
}

impl<const DIGITS: u8> PartialEqSpecImpl<i64> for Decimal<DIGITS> {
    open spec fn obeys_eq_spec() -> bool {
        true
    }

    open spec fn eq_spec(&self, other: &i64) -> bool {
        self.0 == *other * decimal64::scale64(DIGITS)
    }
}

impl<const DIGITS: u8> PartialEq<Decimal<DIGITS>> for i64 {
    fn eq(&self, other: &Decimal<DIGITS>) -> (r: bool) {
        order_raw_int(other.0, *self, scale_of(DIGITS)) == Order::Equal
    }
}

impl<const DIGITS: u8> PartialEqSpecImpl<Decimal<DIGITS>> for i64 {
    open spec fn obeys_eq_spec() -> bool {
        true
    }

    open spec fn eq_spec(&self, other: &Decimal<DIGITS>) -> bool {
        *self * decimal64::scale64(DIGITS) == other.0
    }
}

impl<const DIGITS: u8> PartialOrd<i64> for Decimal<DIGITS> {
    fn partial_cmp(&self, other: &i64) -> (r: Option<Ordering>) {
        match order_raw_int(self.0, *other, scale_of(DIGITS)) {
            Order::Less => Some(Ordering::Less),
            Order::Equal => Some(Ordering::Equal),
            Order::Greater => Some(Ordering::Greater),
        }
    }
}

impl<const DIGITS: u8> PartialOrdSpecImpl<i64> for Decimal<DIGITS> {
    open spec fn obeys_partial_cmp_spec() -> bool {
        true
    }

    open spec fn partial_cmp_spec(&self, other: &i64) -> Option<Ordering> {
        if self.0 < *other * decimal64::scale64(DIGITS) {
            Some(Ordering::Less)
        } else if self.0 > *other * decimal64::scale64(DIGITS) {
            Some(Ordering::Greater)
        } else {
            Some(Ordering::Equal)
        }
    }
}

impl<const DIGITS: u8> PartialOrd<Decimal<DIGITS>> for i64 {
    fn partial_cmp(&self, other: &Decimal<DIGITS>) -> (r: Option<Ordering>) {
        match order_raw_int(other.0, *self, scale_of(DIGITS)) {
            Order::Less => Some(Ordering::Greater),
            Order::Equal => Some(Ordering::Equal),
            Order::Greater => Some(Ordering::Less),
        }
    }
}

impl<const DIGITS: u8> PartialOrdSpecImpl<Decimal<DIGITS>> for i64 {
    open spec fn obeys_partial_cmp_spec() -> bool {
        true
    }

    open spec fn partial_cmp_spec(&self, other: &Decimal<DIGITS>) -> Option<Ordering> {
        if *self * decimal64::scale64(DIGITS) < other.0 {
            Some(Ordering::Less)
        } else if *self * decimal64::scale64(DIGITS) > other.0 {
            Some(Ordering::Greater)
        } else {
            Some(Ordering::Equal)
        }
    }
}

/// Orders a raw value against an integer of a given scale.
fn order_raw_int(raw: i64, n: i64, scale: i64) -> (r: Order)
    ensures
        r == (if raw < n * scale {
            Order::Less
        } else if raw > n * scale {
            Order::Greater
        } else {
            Order::Equal
        }),
{
    proof {
        assert(-0x4000_0000_0000_0000_0000_0000_0000_0000int <= n * scale
            <= 0x4000_0000_0000_0000_0000_0000_0000_0000int) by (nonlinear_arith)
            requires
                -0x8000_0000_0000_0000 <= n <= 0x7fff_ffff_ffff_ffff,
                -0x8000_0000_0000_0000 <= scale <= 0x7fff_ffff_ffff_ffff,
        ;
    }
    let scaled: i128 = n as i128 * scale as i128;
    if (raw as i128) < scaled {
        Order::Less
    } else if raw as i128 > scaled {
        Order::Greater
    } else {
        Order::Equal
    }
}

impl<const DIGITS: u8> Neg for Decimal<DIGITS> {
    type Output = Self;

    fn neg(self) -> (r: Self) {
        Decimal(-self.0)
    }
}

impl<const DIGITS: u8> NegSpecImpl for Decimal<DIGITS> {
    open spec fn obeys_neg_spec() -> bool {
        true
    }

    open spec fn neg_req(self) -> bool {
        self.0 != i64::MIN
    }

    open spec fn neg_spec(self) -> Self {
        Decimal((-self.0) as i64)
    }
}

/// Inside the backing integer.
pub open spec fn fits64(v: int) -> bool {
    i64::MIN <= v <= i64::MAX
}

impl<const DIGITS: u8> Add for Decimal<DIGITS> {
    type Output = Self;

    fn add(self, rhs: Self) -> (r: Self) {
        Decimal(self.0 + rhs.0)
    }
}

impl<const DIGITS: u8> AddSpecImpl for Decimal<DIGITS> {
    open spec fn obeys_add_spec() -> bool {
        true
    }

    open spec fn add_req(self, rhs: Self) -> bool {
        fits64(self.0 + rhs.0)
    }

    open spec fn add_spec(self, rhs: Self) -> Self {
        Decimal((self.0 + rhs.0) as i64)
    }
}

impl<const DIGITS: u8> Add<i64> for Decimal<DIGITS> {
    type Output = Self;

    fn add(self, rhs: i64) -> (r: Self) {
        Decimal(self.0 + rhs * scale_of(DIGITS))
    }
}

impl<const DIGITS: u8> AddSpecImpl<i64> for Decimal<DIGITS> {
    open spec fn obeys_add_spec() -> bool {
        true
    }

    open spec fn add_req(self, rhs: i64) -> bool {
        fits64(rhs * decimal64::scale64(DIGITS)) && fits64(
            self.0 + rhs * decimal64::scale64(DIGITS),
        )
    }

    open spec fn add_spec(self, rhs: i64) -> Self {
        Decimal((self.0 + rhs * decimal64::scale64(DIGITS)) as i64)
    }
}

impl<const DIGITS: u8> Add<i32> for Decimal<DIGITS> {
    type Output = Self;

    fn add(self, rhs: i32) -> (r: Self) {
        Decimal(self.0 + (rhs as i64) * scale_of(DIGITS))
    }
}

impl<const DIGITS: u8> AddSpecImpl<i32> for Decimal<DIGITS> {
    open spec fn obeys_add_spec() -> bool {
        true
    }

    open spec fn add_req(self, rhs: i32) -> bool {
        fits64(rhs * decimal64::scale64(DIGITS)) && fits64(
            self.0 + rhs * decimal64::scale64(DIGITS),
        )
    }

    open spec fn add_spec(self, rhs: i32) -> Self {
        Decimal((self.0 + rhs * decimal64::scale64(DIGITS)) as i64)
    }
}

impl<const DIGITS: u8> Sub for Decimal<DIGITS> {
    type Output = Self;

    fn sub(self, rhs: Self) -> (r: Self) {
        Decimal(self.0 - rhs.0)
    }
}

impl<const DIGITS: u8> SubSpecImpl for Decimal<DIGITS> {
    open spec fn obeys_sub_spec() -> bool {
        true
    }

    open spec fn sub_req(self, rhs: Self) -> bool {
        fits64(self.0 - rhs.0)
    }

    open spec fn sub_spec(self, rhs: Self) -> Self {
        Decimal((self.0 - rhs.0) as i64)
    }
}

impl<const DIGITS: u8> Sub<i64> for Decimal<DIGITS> {
    type Output = Self;

    fn sub(self, rhs: i64) -> (r: Self) {
        Decimal(self.0 - rhs * scale_of(DIGITS))
    }
}

impl<const DIGITS: u8> SubSpecImpl<i64> for Decimal<DIGITS> {
    open spec fn obeys_sub_spec() -> bool {
        true
    }

    open spec fn sub_req(self, rhs: i64) -> bool {
        fits64(rhs * decimal64::scale64(DIGITS)) && fits64(
            self.0 - rhs * decimal64::scale64(DIGITS),
        )
    }

    open spec fn sub_spec(self, rhs: i64) -> Self {
        Decimal((self.0 - rhs * decimal64::scale64(DIGITS)) as i64)
    }
}

impl<const DIGITS: u8> Sub<i32> for Decimal<DIGITS> {
    type Output = Self;

    fn sub(self, rhs: i32) -> (r: Self) {
        Decimal(self.0 - (rhs as i64) * scale_of(DIGITS))
    }
}

impl<const DIGITS: u8> SubSpecImpl<i32> for Decimal<DIGITS> {
    open spec fn obeys_sub_spec() -> bool {
        true
    }

    open spec fn sub_req(self, rhs: i32) -> bool {
        fits64(rhs * decimal64::scale64(DIGITS)) && fits64(
            self.0 - rhs * decimal64::scale64(DIGITS),
        )
    }

    open spec fn sub_spec(self, rhs: i32) -> Self {
        Decimal((self.0 - rhs * decimal64::scale64(DIGITS)) as i64)
    }
}

/// The integer that an integer operand takes a decimal of scale `s` for: its
/// integer part, moved one up where the fraction reaches half of `s`, or one
/// down where it reaches minus half. Without fractional digits `s` is 1 and its
/// half is 0, which every fraction reaches: the integer is then one more than
/// the decimal.
pub open spec fn whole(v: int, s: int) -> int {
    let q: int = rounding::trunc_div(v, s as nat);
    let f: int = rounding::trunc_rem(v, s as nat);
    if f >= s / 2 {
        q + 1
    } else if f <= -(s / 2) {
        q - 1
    } else {
        q
    }
}

/// [`whole`] for a decimal.
fn whole_part<const DIGITS: u8>(d: Decimal<DIGITS>) -> (r: i64)
    requires
        DIGITS <= 18,
        fits64(whole(d.0 as int, decimal64::scale64(DIGITS))),
    ensures
        r == whole(d.0 as int, decimal64::scale64(DIGITS)),
{
    proof {
        decimal64::lemma_scale64(DIGITS);
    }
    let quo: i64 = d.to_i64();
    let rem: i64 = d.fract().0;
    let half: i64 = Decimal::<DIGITS>::scale_int_half();
    if rem >= half {
        quo + 1
    } else if rem <= -half {
        quo - 1
    } else {
        quo
    }
}

impl<const DIGITS: u8> Add<Decimal<DIGITS>> for i64 {
    type Output = i64;

    fn add(self, rhs: Decimal<DIGITS>) -> (r: i64) {
        self + whole_part(rhs)
    }
}

impl<const DIGITS: u8> AddSpecImpl<Decimal<DIGITS>> for i64 {
    open spec fn obeys_add_spec() -> bool {
        true
    }

    open spec fn add_req(self, rhs: Decimal<DIGITS>) -> bool {
        &&& DIGITS <= 18
        &&& fits64(whole(rhs.0 as int, decimal64::scale64(DIGITS)))
        &&& fits64(self + whole(rhs.0 as int, decimal64::scale64(DIGITS)))
    }

    open spec fn add_spec(self, rhs: Decimal<DIGITS>) -> i64 {
        (self + whole(rhs.0 as int, decimal64::scale64(DIGITS))) as i64
    }
}

impl<const DIGITS: u8> Sub<Decimal<DIGITS>> for i64 {
    type Output = i64;

    fn sub(self, rhs: Decimal<DIGITS>) -> (r: i64) {
        self - whole_part(rhs)
    }
}

impl<const DIGITS: u8> SubSpecImpl<Decimal<DIGITS>> for i64 {
    open spec fn obeys_sub_spec() -> bool {
        true
    }

    open spec fn sub_req(self, rhs: Decimal<DIGITS>) -> bool {
        &&& DIGITS <= 18
        &&& fits64(whole(rhs.0 as int, decimal64::scale64(DIGITS)))
        &&& fits64(self - whole(rhs.0 as int, decimal64::scale64(DIGITS)))
    }

    open spec fn sub_spec(self, rhs: Decimal<DIGITS>) -> i64 {
        (self - whole(rhs.0 as int, decimal64::scale64(DIGITS))) as i64
    }
}

impl<const DIGITS: u8> Mul for Decimal<DIGITS> {
    type Output = Self;

    fn mul(self, rhs: Self) -> (r: Self) {
        self.mul_rounded(rhs, Rounding::HalfUp)
    }
}

impl<const DIGITS: u8> MulSpecImpl for Decimal<DIGITS> {
    open spec fn obeys_mul_spec() -> bool {
        true
    }

    open spec fn mul_req(self, rhs: Self) -> bool {
        &&& DIGITS <= 19
        &&& rounding::within(
            rounding::product(self.0 as int, rhs.0 as int, DIGITS, Rounding::HalfUp),
            decimal64::two63(),
        )
    }

    open spec fn mul_spec(self, rhs: Self) -> Self {
        Decimal(
            rounding::product(self.0 as int, rhs.0 as int, DIGITS, Rounding::HalfUp) as i64,
        )
    }
}

impl<const DIGITS: u8> Mul<i64> for Decimal<DIGITS> {
    type Output = Self;

    fn mul(self, rhs: i64) -> (r: Self) {
        Decimal(self.0 * rhs)
    }
}

impl<const DIGITS: u8> MulSpecImpl<i64> for Decimal<DIGITS> {
    open spec fn obeys_mul_spec() -> bool {
        true
    }

    open spec fn mul_req(self, rhs: i64) -> bool {
        fits64(self.0 * rhs)
    }

    open spec fn mul_spec(self, rhs: i64) -> Self {
        Decimal((self.0 * rhs) as i64)
    }
}

impl<const DIGITS: u8> Mul<i32> for Decimal<DIGITS> {
    type Output = Self;

    fn mul(self, rhs: i32) -> (r: Self) {
        Decimal(self.0 * (rhs as i64))
    }
}

impl<const DIGITS: u8> MulSpecImpl<i32> for Decimal<DIGITS> {
    open spec fn obeys_mul_spec() -> bool {
        true
    }

    open spec fn mul_req(self, rhs: i32) -> bool {
        fits64(self.0 * rhs)
    }

    open spec fn mul_spec(self, rhs: i32) -> Self {
        Decimal((self.0 * rhs) as i64)
    }
}

impl<const DIGITS: u8> Mul<Decimal<DIGITS>> for i64 {
    type Output = i64;

    fn mul(self, rhs: Decimal<DIGITS>) -> (r: i64) {
        (Decimal::<DIGITS>(self) * rhs).0
    }
}

impl<const DIGITS: u8> MulSpecImpl<Decimal<DIGITS>> for i64 {
    open spec fn obeys_mul_spec() -> bool {
        true
    }

    open spec fn mul_req(self, rhs: Decimal<DIGITS>) -> bool {
        &&& DIGITS <= 19
        &&& rounding::within(
            rounding::product(self as int, rhs.0 as int, DIGITS, Rounding::HalfUp),
            decimal64::two63(),
        )
    }

    open spec fn mul_spec(self, rhs: Decimal<DIGITS>) -> i64 {
        rounding::product(self as int, rhs.0 as int, DIGITS, Rounding::HalfUp) as i64
    }
}

impl<const DIGITS: u8> Div for Decimal<DIGITS> {
    type Output = Self;

    fn div(self, rhs: Self) -> (r: Self) {
        self.div_rounded(rhs, Rounding::HalfUp)
    }
}

impl<const DIGITS: u8> DivSpecImpl for Decimal<DIGITS> {
    open spec fn obeys_div_spec() -> bool {
        true
    }

    open spec fn div_req(self, rhs: Self) -> bool {
        &&& DIGITS <= 19
        &&& rhs.0 != 0
        &&& rounding::within(
            rounding::quotient(self.0 as int, rhs.0 as int, DIGITS, Rounding::HalfUp),
            decimal64::two63(),
        )
    }

    open spec fn div_spec(self, rhs: Self) -> Self {
        Decimal(
            rounding::quotient(self.0 as int, rhs.0 as int, DIGITS, Rounding::HalfUp) as i64,
        )
    }
}

impl<const DIGITS: u8> Rem for Decimal<DIGITS> {
    type Output = Self;

    fn rem(self, rhs: Self) -> (r: Self) {
        Decimal(rem64(self.0, rhs.0))
    }
}

impl<const DIGITS: u8> RemSpecImpl for Decimal<DIGITS> {
    open spec fn obeys_rem_spec() -> bool {
        true
    }

    open spec fn rem_req(self, rhs: Self) -> bool {
        rhs.0 != 0 && !(self.0 == i64::MIN && rhs.0 == -1)
    }

    open spec fn rem_spec(self, rhs: Self) -> Self {
        Decimal(
            rounding::trunc_rem(self.0 as int, rounding::mag_of(rhs.0 as int)) as i64,
        )
    }
}

impl<const DIGITS: u8> AddAssign for Decimal<DIGITS> {
    fn add_assign(&mut self, rhs: Self)
        requires
            fits64(old(self).0 + rhs.0),
        ensures
            final(self).0 == old(self).0 + rhs.0,
    {
        *self = *self + rhs;
    }
}

impl<const DIGITS: u8> SubAssign for Decimal<DIGITS> {
    fn sub_assign(&mut self, rhs: Self)
        requires
            fits64(old(self).0 - rhs.0),
        ensures
            final(self).0 == old(self).0 - rhs.0,
    {
        *self = *self - rhs;
    }
}

impl<const DIGITS: u8> MulAssign for Decimal<DIGITS> {
    fn mul_assign(&mut self, rhs: Self)
        requires
            DIGITS <= 19,
            rounding::within(
                rounding::product(
                    old(self).0 as int,
                    rhs.0 as int,
                    DIGITS,
                    Rounding::HalfUp,
                ),
                decimal64::two63(),
            ),
        ensures
            final(self).0 == rounding::product(
                old(self).0 as int,
                rhs.0 as int,
                DIGITS,
                Rounding::HalfUp,
            ),
    {
        *self = *self * rhs;
    }
}

impl<const DIGITS: u8> DivAssign for Decimal<DIGITS> {
    fn div_assign(&mut self, rhs: Self)
        requires
            DIGITS <= 19,
            rhs.0 != 0,
            rounding::within(
                rounding::quotient(
                    old(self).0 as int,
                    rhs.0 as int,
                    DIGITS,
                    Rounding::HalfUp,
                ),
                decimal64::two63(),
            ),
        ensures
            final(self).0 == rounding::quotient(
                old(self).0 as int,
                rhs.0 as int,
                DIGITS,
                Rounding::HalfUp,
            ),
    {
        *self = *self / rhs;
    }
}

impl<const DIGITS: u8> RemAssign for Decimal<DIGITS> {
    fn rem_assign(&mut self, rhs: Self)
        requires
            rhs.0 != 0,
            !(old(self).0 == i64::MIN && rhs.0 == -1),
        ensures
            final(self).0 == rounding::trunc_rem(old(self).0 as int, rounding::mag_of(rhs.0 as int)),
    {
        *self = *self % rhs;
    }
}

/// The raw sum of decimals.
pub open spec fn raw_sum<const DIGITS: u8>(s: Seq<Decimal<DIGITS>>) -> int
    decreases s.len(),
{
    if s.len() == 0 {
        0
    } else {
        raw_sum(s.drop_last()) + s.last().0
    }
}

/// Adding up from the left never leaves the backing integer.
pub open spec fn sums_fit<const DIGITS: u8>(s: Seq<Decimal<DIGITS>>) -> bool {
    forall|k: int| 0 <= k <= s.len() ==> fits64(#[trigger] raw_sum(s.take(k)))
}

/// The raw product of decimals, each step rounded half up.
pub open spec fn raw_product<const DIGITS: u8>(s: Seq<Decimal<DIGITS>>) -> int
    decreases s.len(),
{
    if s.len() == 0 {
        decimal64::scale64(DIGITS)
    } else {
        rounding::product(
            raw_product(s.drop_last()),
            s.last().0 as int,
            DIGITS,
            Rounding::HalfUp,
        )
    }
}

/// Multiplying from the left never leaves the symmetric range.
pub open spec fn products_fit<const DIGITS: u8>(s: Seq<Decimal<DIGITS>>) -> bool {
    forall|k: int|
        0 < k <= s.len() ==> rounding::within(#[trigger] raw_product(s.take(k)), decimal64::two63())
}

impl<const DIGITS: u8> core::iter::Sum for Decimal<DIGITS> {
    fn sum<I: Iterator<Item = Self>>(iter: I) -> (r: Self)
        requires
            iter.obeys_prophetic_iter_laws(),
            iter.decrease() is Some,
            sums_fit(iter.remaining()),
        ensures
            r.0 == raw_sum(iter.remaining()),
    {
        let mut it: I = iter;
        let ghost src: Seq<Decimal<DIGITS>> = iter.remaining();
        let ghost all: Seq<Decimal<DIGITS>> = src;
        let ghost mut k: int = 0;
        let mut acc: Self = Self::zero();
        proof {
            assert(all.take(0) =~= Seq::<Decimal<DIGITS>>::empty());
            assert(src.skip(0) =~= src);
        }
        loop
            invariant
                0 <= k <= all.len(),
                all == iter.remaining(),
                sums_fit(all),
                it.obeys_prophetic_iter_laws(),
                it.decrease() is Some,
                it.remaining() == src.skip(k),
                src == iter.remaining(),
                all.len() == src.len(),
                acc.0 == raw_sum(all.take(k)),
            decreases it.decrease()->0,
        {
            match it.next() {
                Some(v) => {
                    proof {
                        assert(v == src[k]);
                        assert(src.skip(k).drop_first() =~= src.skip(k + 1));
                        assert(all.take(k + 1).drop_last() =~= all.take(k));
                        assert(all.take(k + 1).last() == v);
                        assert(fits64(raw_sum(all.take(k + 1))));
                        k = k + 1;
                    }
                    acc = acc + v;
                },
                None => {
                    assert(all.take(k) =~= all);
                    return acc;
                },
            }
        }
    }
}

impl<const DIGITS: u8> core::iter::Product for Decimal<DIGITS> {
    fn product<I: Iterator<Item = Self>>(iter: I) -> (r: Self)
        requires
            DIGITS <= 18,
            iter.obeys_prophetic_iter_laws(),
            iter.decrease() is Some,
            products_fit(iter.remaining()),
        ensures
            r.0 == raw_product(iter.remaining()),
    {
        let mut it: I = iter;
        let ghost src: Seq<Decimal<DIGITS>> = iter.remaining();
        let ghost all: Seq<Decimal<DIGITS>> = src;
        let ghost mut k: int = 0;
        let mut acc: Self = Self::one();
        proof {
            assert(all.take(0) =~= Seq::<Decimal<DIGITS>>::empty());
            assert(src.skip(0) =~= src);
        }
        loop
            invariant
                DIGITS <= 18,
                0 <= k <= all.len(),
                all == iter.remaining(),
                products_fit(all),
                it.obeys_prophetic_iter_laws(),
                it.decrease() is Some,
                it.remaining() == src.skip(k),
                src == iter.remaining(),
                all.len() == src.len(),
                acc.0 == raw_product(all.take(k)),
            decreases it.decrease()->0,
        {
            match it.next() {
                Some(v) => {
                    proof {
                        assert(v == src[k]);
                        assert(src.skip(k).drop_first() =~= src.skip(k + 1));
                        assert(all.take(k + 1).drop_last() =~= all.take(k));
                        assert(all.take(k + 1).last() == v);
                        assert(rounding::within(raw_product(all.take(k + 1)), decimal64::two63()));
                        k = k + 1;
                    }
                    acc = acc * v;
                },
                None => {
                    assert(all.take(k) =~= all);
                    return acc;
                },
            }
        }
    }
}

impl<'a, const DIGITS: u8> core::iter::Sum<&'a Decimal<DIGITS>> for Decimal<DIGITS> {
    fn sum<I: Iterator<Item = &'a Self>>(iter: I) -> (r: Self)
        requires
            iter.obeys_prophetic_iter_laws(),
            iter.decrease() is Some,
            sums_fit(iter.remaining().unref()),
        ensures
            r.0 == raw_sum(iter.remaining().unref()),
    {
        let mut it: I = iter;
        let ghost src: Seq<&'a Decimal<DIGITS>> = iter.remaining();
        let ghost all: Seq<Decimal<DIGITS>> = src.unref();
        let ghost mut k: int = 0;
        let mut acc: Self = Self::zero();
        proof {
            assert(all.take(0) =~= Seq::<Decimal<DIGITS>>::empty());
            assert(src.skip(0) =~= src);
        }
        loop
            invariant
                0 <= k <= all.len(),
                all == iter.remaining().unref(),
                sums_fit(all),
                it.obeys_prophetic_iter_laws(),
                it.decrease() is Some,
                it.remaining() == src.skip(k),
                src == iter.remaining(),
                all.len() == src.len(),
                acc.0 == raw_sum(all.take(k)),
            decreases it.decrease()->0,
        {
            match it.next() {
                Some(v) => {
                    proof {
                        assert(v == src[k]);
                        assert(src.skip(k).drop_first() =~= src.skip(k + 1));
                        assert(all.take(k + 1).drop_last() =~= all.take(k));
                        assert(all.take(k + 1).last() == *v);
                        assert(fits64(raw_sum(all.take(k + 1))));
                        k = k + 1;
                    }
                    acc = acc + *v;
                },
                None => {
                    assert(all.take(k) =~= all);
                    return acc;
                },
            }
        }
    }
}

impl<'a, const DIGITS: u8> core::iter::Product<&'a Decimal<DIGITS>> for Decimal<DIGITS> {
    fn product<I: Iterator<Item = &'a Self>>(iter: I) -> (r: Self)
        requires
            DIGITS <= 18,
            iter.obeys_prophetic_iter_laws(),
            iter.decrease() is Some,
            products_fit(iter.remaining().unref()),
        ensures
            r.0 == raw_product(iter.remaining().unref()),
    {
        let mut it: I = iter;
        let ghost src: Seq<&'a Decimal<DIGITS>> = iter.remaining();
        let ghost all: Seq<Decimal<DIGITS>> = src.unref();
        let ghost mut k: int = 0;
        let mut acc: Self = Self::one();
        proof {
            assert(all.take(0) =~= Seq::<Decimal<DIGITS>>::empty());
            assert(src.skip(0) =~= src);
        }
        loop
            invariant
                DIGITS <= 18,
                0 <= k <= all.len(),
                all == iter.remaining().unref(),
                products_fit(all),
                it.obeys_prophetic_iter_laws(),
                it.decrease() is Some,
                it.remaining() == src.skip(k),
                src == iter.remaining(),
                all.len() == src.len(),
                acc.0 == raw_product(all.take(k)),
            decreases it.decrease()->0,
        {
            match it.next() {
                Some(v) => {
                    proof {
                        assert(v == src[k]);
                        assert(src.skip(k).drop_first() =~= src.skip(k + 1));
                        assert(all.take(k + 1).drop_last() =~= all.take(k));
                        assert(all.take(k + 1).last() == *v);
                        assert(rounding::within(raw_product(all.take(k + 1)), decimal64::two63()));
                        k = k + 1;
                    }
                    acc = acc * *v;
                },
                None => {
                    assert(all.take(k) =~= all);
                    return acc;
                },
            }
        }
    }
}

} // verus!
