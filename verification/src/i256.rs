//! A 256-bit signed integer.

use crate::bytes;
use crate::bytes::{from_le, i128_bits, i128_from_bits, to_le};
use crate::render;
use crate::rounding;
use crate::value;
use crate::word_div;
use core::cmp::Ordering;
use vstd::prelude::*;
use vstd::std_specs::cmp::PartialOrdSpecImpl;

verus! {

/// 2^128, the weight of the high half.
pub open spec fn two128() -> int {
    0x1_0000_0000_0000_0000_0000_0000_0000_0000int
}

/// 2^255: every value lies between its negative and it.
pub open spec fn two255() -> int {
    0x8000_0000_0000_0000_0000_0000_0000_0000_0000_0000_0000_0000_0000_0000_0000_0000int
}

/// [`core::fmt::Formatter`]: where formatted text goes.
#[verifier::external_type_specification]
#[verifier::external_body]
pub struct ExFormatter<'a>(core::fmt::Formatter<'a>);

/// [`core::fmt::Error`]: a formatter could not take the text.
#[verifier::external_type_specification]
#[verifier::external_body]
pub struct ExFormatError(core::fmt::Error);

/// [`core::fmt::Formatter::write_str`] hands the text to whatever stands behind
/// the formatter. Whether that takes it is left open, so nothing is claimed of
/// the result.
pub assume_specification<'a>[ core::fmt::Formatter::<'a>::write_str ](
    f: &mut core::fmt::Formatter<'a>,
    data: &str,
) -> core::fmt::Result;

/// A 256-bit signed integer in two's complement form, used as the backing
/// storage of [`Decimal256`](crate::Decimal256). Only the operations the
/// decimal type needs are provided; it is not a general-purpose big integer.
#[derive(Clone, Copy, PartialEq, Eq, Ord, Hash, Structural)]
pub struct I256 {
    /// The high half, which carries the sign.
    pub hi: i128,
    /// The low half.
    pub lo: u128,
}

impl core::fmt::Debug for I256 {
    /// Writes the number in decimal, as [`I256::to_string`] gives it.
    fn fmt(&self, f: &mut core::fmt::Formatter<'_>) -> core::fmt::Result {
        f.write_str(self.to_string().as_str())
    }
}

impl View for I256 {
    type V = int;

    /// The number it stands for.
    open spec fn view(&self) -> int {
        self.hi * two128() + self.lo
    }
}

impl Default for I256 {
    fn default() -> (r: Self)
        ensures
            r@ == 0,
    {
        I256::zero()
    }
}

impl I256 {
    /// The value zero.
    pub fn zero() -> (r: Self)
        ensures
            r@ == 0,
    {
        I256 { hi: 0, lo: 0 }
    }

    /// The largest representable value, 2^255 - 1.
    pub fn max_value() -> (r: Self)
        ensures
            r@ == two255() - 1,
    {
        I256 { hi: i128::MAX, lo: u128::MAX }
    }

    /// The smallest value used by the decimal types: the largest one negated
    /// (symmetric range).
    pub fn min_value() -> (r: Self)
        ensures
            r@ == 1 - two255(),
    {
        I256 { hi: i128::MIN, lo: 1 }
    }

    /// Every value fits 256 bits, and different values are different numbers.
    pub proof fn lemma_view(self)
        ensures
            -two255() <= self@ < two255(),
            self@ < 0 <==> self.hi < 0,
            self@ == 0 <==> self.hi == 0 && self.lo == 0,
            forall|o: I256| o@ == self@ ==> o == self,
    {
    }

    /// The value that stands for a number of 256 bits.
    pub open spec fn of(v: int) -> I256 {
        I256 { hi: (v / two128()) as i128, lo: (v % two128()) as u128 }
    }

    /// [`I256::of`] undoes the view, and the view undoes it.
    pub proof fn lemma_of(v: int)
        requires
            -two255() <= v < two255(),
        ensures
            I256::of(v)@ == v,
            forall|x: I256| x@ == v ==> x == I256::of(v),
    {
        I256::of(v).lemma_view();
    }

    /// Sign-extends an `i128` into an `I256`.
    pub fn from_i128(v: i128) -> (r: Self)
        ensures
            r@ == v,
    {
        I256 {
            hi: if v < 0 {
                -1
            } else {
                0
            },
            lo: i128_bits(v),
        }
    }

    /// Returns `true` if the value is negative.
    pub fn is_negative(self) -> (r: bool)
        ensures
            r == (self@ < 0),
    {
        self.hi < 0
    }

    /// Returns `true` if the value is zero.
    pub fn is_zero(self) -> (r: bool)
        ensures
            r == (self@ == 0),
    {
        self.hi == 0 && self.lo == 0
    }

    /// Two's complement negation (wrapping).
    pub fn wrapping_neg(self) -> (r: Self)
        ensures
            r@ == (if self@ == -two255() {
                self@
            } else {
                -self@
            }),
    {
        if self.lo != 0 {
            I256 { hi: -1 - self.hi, lo: u128::MAX - self.lo + 1 }
        } else if self.hi == i128::MIN {
            self
        } else {
            I256 { hi: -self.hi, lo: 0 }
        }
    }

    /// Checked addition, `None` on signed overflow.
    pub fn checked_add(self, rhs: Self) -> (r: Option<Self>)
        ensures
            r is Some <==> -two255() <= self@ + rhs@ < two255(),
            r matches Some(v) ==> v@ == self@ + rhs@,
    {
        let lo: u128 = self.lo.wrapping_add(rhs.lo);
        let hi: Option<i128> = if lo >= self.lo {
            self.hi.checked_add(rhs.hi)
        } else if self.hi < i128::MAX {
            (self.hi + 1).checked_add(rhs.hi)
        } else if rhs.hi < i128::MAX {
            self.hi.checked_add(rhs.hi + 1)
        } else {
            None
        };
        match hi {
            Some(hi) => Some(I256 { hi, lo }),
            None => None,
        }
    }

    /// Checked subtraction, `None` on signed overflow.
    pub fn checked_sub(self, rhs: Self) -> (r: Option<Self>)
        ensures
            r is Some <==> -two255() <= self@ - rhs@ < two255(),
            r matches Some(v) ==> v@ == self@ - rhs@,
    {
        let lo: u128 = self.lo.wrapping_sub(rhs.lo);
        let hi: Option<i128> = if self.lo >= rhs.lo {
            self.hi.checked_sub(rhs.hi)
        } else if self.hi > i128::MIN {
            (self.hi - 1).checked_sub(rhs.hi)
        } else if rhs.hi < i128::MAX {
            self.hi.checked_sub(rhs.hi + 1)
        } else {
            None
        };
        match hi {
            Some(hi) => Some(I256 { hi, lo }),
            None => None,
        }
    }

    /// Decomposes into a sign and a 4-limb little-endian magnitude.
    pub fn to_sign_mag(self) -> (r: (bool, [u64; 4]))
        ensures
            r.0 == (self@ < 0),
            value::val(r.1@) == rounding::mag_of(self@),
    {
        let neg: bool = self.hi < 0;
        let (hi, lo): (u128, u128) = if !neg {
            (self.hi as u128, self.lo)
        } else if self.lo != 0 {
            ((-1 - self.hi) as u128, u128::MAX - self.lo + 1)
        } else {
            ((-1 - self.hi) as u128 + 1, 0)
        };
        let mag: [u64; 4] = [lo as u64, (lo >> 64) as u64, hi as u64, (hi >> 64) as u64];
        proof {
            word_div::lemma_double_split(lo);
            word_div::lemma_double_split(hi);
            value::lemma_val_halves(mag@);
        }
        (neg, mag)
    }

    /// Builds a value from a sign and a 4-limb magnitude. Returns `None` if
    /// the magnitude exceeds 2^255 - 1 (the symmetric range bound).
    pub fn from_sign_mag(neg: bool, mag: [u64; 4]) -> (r: Option<Self>)
        ensures
            r is Some <==> value::val(mag@) < two255(),
            r matches Some(v) ==> v@ == rounding::signed(neg, value::val(mag@)),
    {
        proof {
            crate::arith::lemma_top_bit(mag@);
            value::lemma_bpow_small();
            value::lemma_val_halves(mag@);
        }
        if mag[3] >> 63 != 0 {
            return None;
        }
        let lo: u128 = join(mag[1], mag[0]);
        let hi: u128 = join(mag[3], mag[2]);
        let v: I256 = I256 { hi: hi as i128, lo };
        Some(
            if neg {
                v.wrapping_neg()
            } else {
                v
            },
        )
    }

    /// The value in decimal.
    pub fn to_string(&self) -> (r: String)
        ensures
            r@ == render::as_chars(
                render::decimal_text(
                    rounding::mag_of(self@),
                    self@ < 0,
                    0,
                    None,
                    render::AmountSign::Negative,
                ),
            ),
    {
        let (neg, mag): (bool, [u64; 4]) = self.to_sign_mag();
        render::signed_text(&mag, neg, 0)
    }

    /// The two's complement bits as an unsigned number.
    pub open spec fn bits(self) -> nat {
        (bytes::bits128(self.hi as int) * two128() + self.lo) as nat
    }

    /// Returns the memory representation as 32 bytes in little-endian order.
    pub fn to_le_bytes(self) -> (r: [u8; 32])
        ensures
            r@ == bytes::le_bytes(self.bits(), 32),
            bytes::le_value(r@) == self.bits(),
    {
        proof {
            bytes::lemma_pow256_words();
        }
        let lo: [u8; 16] = to_le::<16>(self.lo);
        let hi: [u8; 16] = to_le::<16>(i128_bits(self.hi));
        let mut out: [u8; 32] = [0u8; 32];
        let mut i: usize = 0;
        while i < 16
            invariant
                i <= 16,
                lo@.len() == 16,
                hi@.len() == 16,
                out@.len() == 32,
                forall|k: int| 0 <= k < i ==> out@[k] == lo@[k],
                forall|k: int| 16 <= k < i + 16 ==> out@[k] == hi@[k - 16],
            decreases 16 - i,
        {
            out[i] = lo[i];
            out[i + 16] = hi[i];
            i += 1;
        }
        proof {
            assert(out@ =~= lo@ + hi@);
            bytes::lemma_le_value_concat(lo@, hi@);
            bytes::lemma_bytes_of_value(out@);
            let h: nat = bytes::bits128(self.hi as int);
            assert(bytes::pow256(16) * h == h * two128()) by (nonlinear_arith)
                requires
                    bytes::pow256(16) == two128(),
            ;
        }
        out
    }

    /// Creates a value from its 32-byte little-endian representation.
    pub fn from_le_bytes(bytes: [u8; 32]) -> (r: Self)
        ensures
            r.bits() == bytes::le_value(bytes@),
    {
        let mut lo: [u8; 16] = [0u8; 16];
        let mut hi: [u8; 16] = [0u8; 16];
        let mut i: usize = 0;
        while i < 16
            invariant
                i <= 16,
                lo@.len() == 16,
                hi@.len() == 16,
                bytes@.len() == 32,
                forall|k: int| 0 <= k < i ==> lo@[k] == bytes@[k],
                forall|k: int| 0 <= k < i ==> hi@[k] == bytes@[k + 16],
            decreases 16 - i,
        {
            lo[i] = bytes[i];
            hi[i] = bytes[i + 16];
            i += 1;
        }
        let r: I256 = I256 { hi: i128_from_bits(from_le(&hi)), lo: from_le(&lo) };
        proof {
            assert(bytes@ =~= lo@ + hi@);
            bytes::lemma_le_value_concat(lo@, hi@);
            bytes::lemma_pow256_words();
            let h: nat = bytes::bits128(r.hi as int);
            assert(bytes::pow256(16) * h == h * two128()) by (nonlinear_arith)
                requires
                    bytes::pow256(16) == two128(),
            ;
        }
        r
    }
}

impl PartialOrd for I256 {
    fn partial_cmp(&self, other: &Self) -> (r: Option<Ordering>) {
        if self.hi < other.hi {
            Some(Ordering::Less)
        } else if self.hi > other.hi {
            Some(Ordering::Greater)
        } else if self.lo < other.lo {
            Some(Ordering::Less)
        } else if self.lo > other.lo {
            Some(Ordering::Greater)
        } else {
            Some(Ordering::Equal)
        }
    }
}

impl PartialOrdSpecImpl for I256 {
    open spec fn obeys_partial_cmp_spec() -> bool {
        true
    }

    open spec fn partial_cmp_spec(&self, other: &Self) -> Option<Ordering> {
        if self@ < other@ {
            Some(Ordering::Less)
        } else if self@ > other@ {
            Some(Ordering::Greater)
        } else {
            Some(Ordering::Equal)
        }
    }
}

/// A double word from its two halves.
pub fn join(hi: u64, lo: u64) -> (r: u128)
    ensures
        r == hi * value::base() + lo,
{
    (hi as u128) * 0x1_0000_0000_0000_0000 + lo as u128
}

} // verus!
