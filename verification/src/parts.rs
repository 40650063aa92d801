//! Rescaling `mantissa * 10^exponent` to a fixed number of fractional digits.

use crate::error::AmountErrorKind;
use crate::pow10;
use crate::pow10::ipow10_i128;
use crate::rounding;
use crate::rounding::Rounding;
use vstd::prelude::*;

verus! {

/// `m * 10^shift` as an integer, if it is one and lies from `lo` to `hi`.
pub open spec fn exact_parts(m: int, shift: int, lo: int, hi: int) -> Result<
    int,
    AmountErrorKind,
> {
    let d: int = pow10::pow10(-shift as nat) as int;
    if shift < 0 && m % d != 0 {
        Err(AmountErrorKind::Inexact)
    } else {
        in_range(
            if shift < 0 {
                m / d
            } else {
                m * pow10::pow10(shift as nat)
            },
            lo,
            hi,
        )
    }
}

/// `m * 10^shift` as an integer, its magnitude rounded, if it lies from `lo`
/// to `hi`.
pub open spec fn rounded_parts(m: int, shift: int, mode: Rounding, lo: int, hi: int) -> Result<
    int,
    AmountErrorKind,
> {
    in_range(
        if shift < 0 {
            rounding::signed(
                m < 0,
                rounding::round_mag(
                    rounding::mag_of(m),
                    pow10::pow10(-shift as nat),
                    false,
                    mode,
                ),
            )
        } else {
            m * pow10::pow10(shift as nat)
        },
        lo,
        hi,
    )
}

/// `v`, if it lies from `lo` to `hi`.
pub open spec fn in_range(v: int, lo: int, hi: int) -> Result<int, AmountErrorKind> {
    if lo <= v <= hi {
        Ok(v)
    } else {
        Err(AmountErrorKind::Overflow)
    }
}

/// The magnitude of an i128.
pub fn abs128(v: i128) -> (m: u128)
    ensures
        m == rounding::mag_of(v as int),
{
    if v < 0 {
        (-1 - v) as u128 + 1
    } else {
        v as u128
    }
}

/// The i128 with a given sign and magnitude.
pub fn signed128(neg: bool, m: u128) -> (v: i128)
    requires
        i128::MIN <= rounding::signed(neg, m as nat) <= i128::MAX,
    ensures
        v == rounding::signed(neg, m as nat),
{
    if !neg {
        m as i128
    } else if m == 0 {
        0
    } else {
        -1 - (m - 1) as i128
    }
}

/// A power of ten beyond the i128 range is more than twice any i128.
proof fn lemma_beyond_i128(k: nat)
    requires
        pow10::pow10(k) > i128::MAX,
    ensures
        pow10::pow10(k) > 0x1_0000_0000_0000_0000_0000_0000_0000_0000,
{
    pow10::lemma_pow10_words();
    pow10::lemma_pow10_add(19, 19);
    let a: int = pow10::pow10(19) as int;
    assert(a * a == 1_00000_00000_00000_00000_00000_00000_00000_000int) by (nonlinear_arith)
        requires
            a == 10_000_000_000_000_000_000,
    ;
    assert(pow10::pow10(39) == 10 * pow10::pow10(38));
    if k <= 38 {
        pow10::lemma_pow10_mono(k, 38);
    } else {
        pow10::lemma_pow10_mono(39, k);
    }
}

/// Multiplying a number that is not zero by a power of ten never brings it
/// closer to zero.
proof fn lemma_scale_up(m: int, k: nat)
    requires
        m != 0,
    ensures
        m > 0 ==> m * pow10::pow10(k) >= pow10::pow10(k),
        m < 0 ==> m * pow10::pow10(k) <= -pow10::pow10(k),
{
    let p: int = pow10::pow10(k) as int;
    assert(m > 0 ==> m * p >= p) by (nonlinear_arith)
        requires
            p >= 0,
    ;
    assert(m < 0 ==> m * p <= -p) by (nonlinear_arith)
        requires
            p >= 0,
    ;
}

/// `mantissa * 10^shift` for a mantissa that is not zero and `shift >= 0`.
fn scale_up(mantissa: i128, shift: i64) -> (r: Result<i128, AmountErrorKind>)
    requires
        mantissa != 0,
        shift >= 0,
    ensures
        match r {
            Ok(v) => v == mantissa * pow10::pow10(shift as nat),
            Err(e) => e == AmountErrorKind::Overflow && !(i128::MIN <= mantissa * pow10::pow10(
                shift as nat,
            ) <= i128::MAX),
        },
{
    match ipow10_i128(shift) {
        Some(factor) => match mantissa.checked_mul(factor) {
            Some(v) => Ok(v),
            None => Err(AmountErrorKind::Overflow),
        },
        None => {
            proof {
                lemma_beyond_i128(shift as nat);
                lemma_scale_up(mantissa as int, shift as nat);
            }
            Err(AmountErrorKind::Overflow)
        },
    }
}

/// Rescales exactly: `mantissa * 10^(exponent + digits)`.
pub fn rescale_exact(mantissa: i128, exponent: i32, digits: u8) -> (r: Result<
    i128,
    AmountErrorKind,
>)
    ensures
        match r {
            Ok(v) => Ok::<int, AmountErrorKind>(v as int),
            Err(e) => Err::<int, AmountErrorKind>(e),
        } == exact_parts(mantissa as int, exponent + digits, i128::MIN as int, i128::MAX as int),
{
    // Decimal places to shift the mantissa by to reach the scale.
    let shift: i64 = exponent as i64 + digits as i64;
    // Zero is exactly representable at any exponent; short-circuit before
    // computing powers of ten that may overflow for extreme exponents.
    if mantissa == 0 {
        proof {
            let p: int = pow10::pow10(shift as nat) as int;
            assert(0 * p == 0);
            if shift < 0 {
                let d: int = pow10::pow10(-shift as nat) as int;
                pow10::lemma_pow10_pos(-shift as nat);
                vstd::arithmetic::div_mod::lemma_fundamental_div_mod_converse(0, d, 0, 0);
            }
        }
        return Ok(0);
    }
    if shift >= 0 {
        return scale_up(mantissa, shift);
    }
    let ghost d: nat = pow10::pow10(-shift as nat);
    let neg: bool = mantissa < 0;
    let m: u128 = abs128(mantissa);
    proof {
        pow10::lemma_pow10_pos(-shift as nat);
        lemma_exact(mantissa as int, d);
        rounding::lemma_trunc_parts(mantissa as int, d);
    }
    match ipow10_i128(-shift) {
        Some(divisor) => {
            if m % divisor as u128 != 0 {
                return Err(AmountErrorKind::Inexact);
            }
            Ok(signed128(neg, m / divisor as u128))
        },
        None => {
            // The value carries far more precision than can be held.
            proof {
                lemma_beyond_i128(-shift as nat);
                vstd::arithmetic::div_mod::lemma_small_mod(m as nat, d);
            }
            Err(AmountErrorKind::Inexact)
        },
    }
}

/// Divisibility and exact quotients do not depend on the sign.
pub proof fn lemma_exact(n: int, d: nat)
    requires
        d > 0,
    ensures
        n % d as int == 0 <==> rounding::mag_of(n) % d == 0,
        n % d as int == 0 ==> n / d as int == rounding::trunc_div(n, d),
{
    if n < 0 {
        let m: int = -n;
        let q: int = m / d as int;
        let k: int = n / d as int;
        vstd::arithmetic::div_mod::lemma_fundamental_div_mod(m, d as int);
        vstd::arithmetic::div_mod::lemma_fundamental_div_mod(n, d as int);
        assert((-k) * d == -(d * k)) by (nonlinear_arith);
        assert((-q) * d == -(d * q)) by (nonlinear_arith);
        if n % d as int == 0 {
            vstd::arithmetic::div_mod::lemma_fundamental_div_mod_converse(m, d as int, -k, 0);
        }
        if m % d as int == 0 {
            vstd::arithmetic::div_mod::lemma_fundamental_div_mod_converse(n, d as int, -q, 0);
        }
    }
}

/// Rescales with rounding on the magnitude: `mantissa * 10^(exponent + digits)`.
pub fn rescale_rounded(mantissa: i128, exponent: i32, digits: u8, mode: Rounding) -> (r: Result<
    i128,
    AmountErrorKind,
>)
    ensures
        match r {
            Ok(v) => Ok::<int, AmountErrorKind>(v as int),
            Err(e) => Err::<int, AmountErrorKind>(e),
        } == rounded_parts(
            mantissa as int,
            exponent + digits,
            mode,
            i128::MIN as int,
            i128::MAX as int,
        ),
{
    let shift: i64 = exponent as i64 + digits as i64;
    if mantissa == 0 {
        proof {
            let p: int = pow10::pow10(shift as nat) as int;
            assert(0 * p == 0);
            if shift < 0 {
                pow10::lemma_pow10_pos(-shift as nat);
                rounding::lemma_round_zero(pow10::pow10(-shift as nat), false, mode);
            }
        }
        return Ok(0);
    }
    if shift >= 0 {
        // Scale up: always exact.
        return scale_up(mantissa, shift);
    }
    let ghost d: nat = pow10::pow10(-shift as nat);
    let neg: bool = mantissa < 0;
    let m: u128 = abs128(mantissa);
    match ipow10_i128(-shift) {
        Some(divisor) => {
            let divisor: u128 = divisor as u128;
            proof {
                // A power of ten of at least ten, hence even and an exact tie
                // threshold.
                pow10::lemma_pow10_even(-shift as nat);
                pow10::lemma_pow10_mono(1, -shift as nat);
                pow10::lemma_pow10_words();
                lemma_tenth(m as nat, d);
            }
            let quo: u128 = m / divisor;
            let rem: u128 = m % divisor;
            let half: u128 = divisor / 2;
            let up: bool = match mode {
                Rounding::HalfEven => rem > half || (rem == half && quo % 2 == 1),
                Rounding::HalfUp => rem >= half,
                Rounding::HalfDown => rem > half,
                Rounding::Down => false,
                Rounding::Up => rem != 0,
            };
            let q: u128 = if up {
                quo + 1
            } else {
                quo
            };
            Ok(signed128(neg, q))
        },
        None => {
            // Less than half a unit: rounds to 0, except that `Up` rounds away
            // from zero to one unit.
            proof {
                lemma_beyond_i128(-shift as nat);
                rounding::lemma_round_mag_parts(m as nat, d, 0, m as nat, false, mode);
            }
            match mode {
                Rounding::Up => Ok(
                    if neg {
                        -1
                    } else {
                        1
                    },
                ),
                _ => Ok(0),
            }
        },
    }
}

/// A quotient by ten or more leaves ample room.
proof fn lemma_tenth(m: nat, d: nat)
    requires
        d >= 10,
    ensures
        m / d <= m / 10,
{
    vstd::arithmetic::div_mod::lemma_div_is_ordered_by_denominator(m as int, 10, d as int);
}

} // verus!
