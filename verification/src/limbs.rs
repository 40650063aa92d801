//! Multi-word integer primitives on little-endian arrays of 64-bit limbs.
//!
//! Two division flavors exist: [`div_words_by_pow10`] and
//! [`div_rem_u128_pow10`] divide by the constant 10^DIGITS through reciprocal
//! multiplication, and [`div_words_by_word`] divides by any word.

use crate::pow10;
use crate::value;
use crate::word_div;
use core::cmp::Ordering;
use vstd::prelude::*;

verus! {

/// One digit of a long division, from the top: the quotient so far is `hi`,
/// the remainder so far `rem`, and the next limb `x` gives `q` and `r`.
proof fn lemma_long_division_step(
    whole: int,
    hi: int,
    d: int,
    rem: int,
    x: int,
    q: int,
    r: int,
)
    requires
        whole == hi * d + rem,
        q * d + r == rem * value::base() + x,
    ensures
        x + value::base() * whole == (q + value::base() * hi) * d + r,
{
    let b: int = value::base() as int;
    assert((q + b * hi) * d == q * d + b * (hi * d)) by (nonlinear_arith);
}

/// In-place long division of `u` by the single word `d`; `u` becomes the
/// quotient. Returns the remainder.
pub fn div_words_by_word(u: &mut [u64], d: u64) -> (rem: u64)
    requires
        d != 0,
    ensures
        final(u)@.len() == old(u)@.len(),
        value::val(old(u)@) == value::val(final(u)@) * d + rem,
        rem < d,
{
    let ghost u0: Seq<u64> = u@;
    let mut rem: u64 = 0;
    let mut i: usize = u.len();
    proof {
        value::lemma_val_skip_ends(u0);
        assert(0 * d == 0);
    }
    while i > 0
        invariant
            0 <= i <= u@.len(),
            u@.len() == u0.len(),
            d != 0,
            rem < d,
            u@.take(i as int) == u0.take(i as int),
            value::val(u0.skip(i as int)) == value::val(u@.skip(i as int)) * d + rem,
        decreases i,
    {
        let ghost whole: int = value::val(u0.skip(i as int)) as int;
        let ghost hi: int = value::val(u@.skip(i as int)) as int;
        let ghost before: Seq<u64> = u@;
        let ghost rem0: int = rem as int;
        i -= 1;
        let x: u64 = u[i];
        assert(before.take(i + 1)[i as int] == u0.take(i + 1)[i as int]);
        assert(x == u0[i as int]);
        // Leading limbs smaller than the divisor produce a zero quotient limb
        // and pass straight into the remainder.
        if rem == 0 && x < d {
            rem = x;
            u[i] = 0;
            assert(0 * d == 0);
        } else {
            let (q, r): (u64, u64) = word_div::div_2by1(rem, x, d);
            u[i] = q;
            rem = r;
        }
        proof {
            lemma_long_division_step(
                whole,
                hi,
                d as int,
                rem0,
                x as int,
                u@[i as int] as int,
                rem as int,
            );
            value::lemma_val_skip_step(u0, i as int);
            value::lemma_val_skip_step(u@, i as int);
            assert(u@.skip(i + 1) =~= before.skip(i + 1));
            assert(u@.take(i as int) =~= before.take(i + 1).take(i as int));
            assert(u0.take(i as int) =~= u0.take(i + 1).take(i as int));
        }
    }
    proof {
        value::lemma_val_skip_ends(u0);
        value::lemma_val_skip_ends(u@);
    }
    rem
}

/// In-place long division of `u` by 10^DIGITS; `u` becomes the quotient.
/// Returns the remainder.
///
/// Every step is a reciprocal multiplication. Leading limbs smaller than the
/// divisor are skipped entirely, which covers typical financial magnitudes.
pub fn div_words_by_pow10<const DIGITS: u8>(u: &mut [u64]) -> (rem: u64)
    requires
        DIGITS <= 19,
    ensures
        final(u)@.len() == old(u)@.len(),
        value::val(old(u)@) == value::val(final(u)@) * pow10::p10(DIGITS) + rem,
        rem < pow10::p10(DIGITS),
{
    let ghost u0: Seq<u64> = u@;
    proof {
        pow10::lemma_p10_word(DIGITS);
    }
    if DIGITS == 0 {
        // dividing by 1
        assert(value::val(u0) * 1 == value::val(u0));
        return 0;
    }
    let d: u64 = pow10::upow10(DIGITS as u32);
    let mut rem: u64 = 0;
    let mut i: usize = u.len();
    proof {
        value::lemma_val_skip_ends(u0);
        assert(0 * d == 0);
    }
    while i > 0
        invariant
            0 <= i <= u@.len(),
            u@.len() == u0.len(),
            DIGITS <= 19,
            d == pow10::p10(DIGITS),
            rem < d,
            u@.take(i as int) == u0.take(i as int),
            value::val(u0.skip(i as int)) == value::val(u@.skip(i as int)) * d + rem,
        decreases i,
    {
        let ghost whole: int = value::val(u0.skip(i as int)) as int;
        let ghost hi: int = value::val(u@.skip(i as int)) as int;
        let ghost before: Seq<u64> = u@;
        let ghost rem0: int = rem as int;
        i -= 1;
        let x: u64 = u[i];
        assert(before.take(i + 1)[i as int] == u0.take(i + 1)[i as int]);
        assert(x == u0[i as int]);
        if rem == 0 && x < d {
            rem = x;
            u[i] = 0;
            assert(0 * d == 0);
        } else {
            let (q, r): (u64, u64) = word_div::div_2by1_pow10::<DIGITS>(rem, x);
            u[i] = q;
            rem = r;
        }
        proof {
            lemma_long_division_step(
                whole,
                hi,
                d as int,
                rem0,
                x as int,
                u@[i as int] as int,
                rem as int,
            );
            value::lemma_val_skip_step(u0, i as int);
            value::lemma_val_skip_step(u@, i as int);
            assert(u@.skip(i + 1) =~= before.skip(i + 1));
            assert(u@.take(i as int) =~= before.take(i + 1).take(i as int));
            assert(u0.take(i as int) =~= u0.take(i + 1).take(i as int));
        }
    }
    proof {
        value::lemma_val_skip_ends(u0);
        value::lemma_val_skip_ends(u@);
    }
    rem
}

/// Divides a full-range `u128` by 10^DIGITS, returning
/// `(quotient, remainder)`, by the same reciprocal multiplication as
/// [`div_words_by_pow10`].
pub fn div_rem_u128_pow10<const DIGITS: u8>(n: u128) -> (res: (u128, u64))
    requires
        DIGITS <= 19,
    ensures
        n == res.0 * pow10::p10(DIGITS) + res.1,
        res.1 < pow10::p10(DIGITS),
{
    proof {
        pow10::lemma_p10_word(DIGITS);
    }
    if DIGITS == 0 {
        assert(n * 1 == n);
        return (n, 0);
    }
    let d: u64 = pow10::upow10(DIGITS as u32);
    proof {
        word_div::lemma_double_split(n);
    }
    let hi: u64 = (n >> 64) as u64;
    let lo: u64 = n as u64;
    let (q1, r1): (u64, u64) = if hi < d {
        assert(0 * d == 0);
        (0, hi)  // covers the common case of values below 2^64
    } else {
        word_div::div_2by1_pow10::<DIGITS>(0, hi)
    };
    let (q0, r): (u64, u64) = word_div::div_2by1_pow10::<DIGITS>(r1, lo);
    proof {
        lemma_long_division_step(
            hi as int,
            q1 as int,
            d as int,
            r1 as int,
            lo as int,
            q0 as int,
            r as int,
        );
    }
    ((q1 as u128) * 0x1_0000_0000_0000_0000u128 + q0 as u128, r)
}

/// The exact value of `acc * mul + add` before it is cut to the limbs.
pub open spec fn mul_add(acc: Seq<u64>, mul: u64, add: u64) -> nat {
    value::val(acc) * mul as nat + add as nat
}

/// `acc = acc * mul + add`, in place. Returns `true` if a carry overflowed
/// out of the limb array.
pub fn mul_add_word(acc: &mut [u64], mul: u64, add: u64) -> (overflow: bool)
    ensures
        final(acc)@.len() == old(acc)@.len(),
        overflow <==> mul_add(old(acc)@, mul, add) >= value::bpow(old(acc)@.len()),
        value::val(final(acc)@) == mul_add(old(acc)@, mul, add) % value::bpow(old(acc)@.len()),
{
    let ghost a0: Seq<u64> = acc@;
    let mut carry: u64 = add;
    let mut i: usize = 0;
    proof {
        value::lemma_val_take_all(a0);
        assert(0 * mul == 0);
        assert(carry * value::bpow(0) == carry) by (nonlinear_arith)
            requires
                value::bpow(0) == 1,
        ;
    }
    while i < acc.len()
        invariant
            0 <= i <= acc@.len(),
            acc@.len() == a0.len(),
            acc@.skip(i as int) == a0.skip(i as int),
            value::val(acc@.take(i as int)) + carry * value::bpow(i as nat) == value::val(
                a0.take(i as int),
            ) * mul + add,
        decreases acc@.len() - i,
    {
        let ghost before: Seq<u64> = acc@;
        let ghost carry0: int = carry as int;
        assert(before.skip(i as int)[0] == a0.skip(i as int)[0]);
        let x: u64 = acc[i];
        assert(x * mul <= 0xffff_ffff_ffff_ffff * 0xffff_ffff_ffff_ffff) by (nonlinear_arith);
        let v: u128 = (x as u128) * (mul as u128) + carry as u128;
        proof {
            word_div::lemma_double_split(v);
        }
        acc[i] = v as u64;
        carry = (v >> 64) as u64;
        proof {
            value::lemma_val_take_step(a0, i as int);
            value::lemma_val_take_step(acc@, i as int);
            assert(acc@.take(i as int) =~= before.take(i as int));
            assert(acc@.skip(i + 1) =~= before.skip(i as int).skip(1));
            assert(a0.skip(i + 1) =~= a0.skip(i as int).skip(1));
            let w: int = value::bpow(i as nat) as int;
            let lo: int = (v as u64) as int;
            let hi: int = carry as int;
            let t: int = value::val(a0.take(i as int)) as int;
            assert(value::bpow((i + 1) as nat) == value::base() * w);
            assert(lo * w + hi * (value::base() * w) == (x * mul) * w + carry0 * w)
                by (nonlinear_arith)
                requires
                    lo + hi * value::base() == x * mul + carry0,
            ;
            assert((t + x * w) * mul == t * mul + (x * mul) * w) by (nonlinear_arith);
        }
        i += 1;
    }
    proof {
        value::lemma_val_take_all(a0);
        value::lemma_val_take_all(acc@);
        value::lemma_val_bound(acc@);
        let n: int = mul_add(a0, mul, add) as int;
        let w: int = value::bpow(a0.len()) as int;
        let c: int = carry as int;
        vstd::arithmetic::div_mod::lemma_fundamental_div_mod_converse(
            n,
            w,
            c,
            value::val(acc@) as int,
        );
        assert(c * w == w * c) by (nonlinear_arith);
        if c > 0 {
            assert(c * w >= w) by (nonlinear_arith)
                requires
                    c >= 1,
                    w >= 0,
            ;
        } else {
            assert(c * w == 0) by (nonlinear_arith)
                requires
                    c == 0,
            ;
        }
    }
    carry != 0
}

/// Adds `x * b` into `c` at limb `off`: one row of a schoolbook product.
/// The limbs of `c` above the row must still be zero.
fn mul_row(c: &mut [u64], off: usize, x: u64, b: &[u64])
    requires
        off + b@.len() < old(c)@.len(),
        value::all_zero(old(c)@.skip(off + b@.len())),
    ensures
        final(c)@.len() == old(c)@.len(),
        value::val(final(c)@) == value::val(old(c)@) + x * value::val(b@) * value::bpow(off as nat),
        value::all_zero(final(c)@.skip(off + b@.len() + 1)),
{
    let ghost c0: Seq<u64> = c@;
    let len: usize = c.len();
    let mut carry: u64 = 0;
    let mut j: usize = 0;
    proof {
        value::lemma_val_take_all(b@);
        assert(x * 0 * value::bpow(off as nat) == 0) by (nonlinear_arith);
        assert(0 * value::bpow(off as nat) == 0);
    }
    while j < b.len()
        invariant
            0 <= j <= b@.len(),
            off + b@.len() < c@.len(),
            c@.len() == c0.len(),
            c@.len() == len,
            c@.skip(off + j) == c0.skip(off + j),
            value::val(c@.take(off + j)) + carry * value::bpow((off + j) as nat) == value::val(
                c0.take(off + j),
            ) + x * value::val(b@.take(j as int)) * value::bpow(off as nat),
        decreases b@.len() - j,
    {
        let ghost before: Seq<u64> = c@;
        let ghost carry0: int = carry as int;
        assert(before.skip(off + j)[0] == c0.skip(off + j)[0]);
        let y: u64 = b[j];
        let z: u64 = c[off + j];
        assert(x * y <= 0xffff_ffff_ffff_ffff * 0xffff_ffff_ffff_ffff) by (nonlinear_arith);
        let v: u128 = (x as u128) * (y as u128) + (z as u128) + carry as u128;
        proof {
            word_div::lemma_double_split(v);
        }
        c[off + j] = v as u64;
        carry = (v >> 64) as u64;
        proof {
            value::lemma_val_take_step(c0, off + j);
            value::lemma_val_take_step(c@, off + j);
            value::lemma_val_take_step(b@, j as int);
            value::lemma_bpow_add(off as nat, j as nat);
            assert(c@.take(off + j) =~= before.take(off + j));
            assert(c@.skip(off + j + 1) =~= before.skip(off + j).skip(1));
            assert(c0.skip(off + j + 1) =~= c0.skip(off + j).skip(1));
            let w: int = value::bpow((off + j) as nat) as int;
            let wo: int = value::bpow(off as nat) as int;
            let wj: int = value::bpow(j as nat) as int;
            let t: int = value::val(b@.take(j as int)) as int;
            let lo: int = (v as u64) as int;
            let hi: int = carry as int;
            assert(value::bpow((off + j + 1) as nat) == value::base() * w);
            assert(lo * w + hi * (value::base() * w) == (x * y) * w + z * w + carry0 * w)
                by (nonlinear_arith)
                requires
                    lo + hi * value::base() == x * y + z + carry0,
            ;
            assert(x * (t + y * wj) * wo == x * t * wo + (x * y) * w) by (nonlinear_arith)
                requires
                    w == wo * wj,
            ;
        }
        j += 1;
    }
    let ghost before: Seq<u64> = c@;
    let ghost k: int = off + b@.len();
    proof {
        assert(before.skip(k)[0] == c0.skip(k)[0]);
        assert(c0.skip(k)[0] == 0);
    }
    c[off + b.len()] = carry;
    proof {
        value::lemma_val_take_all(b@);
        value::lemma_val_take_step(c@, k);
        assert(c@.take(k) =~= before.take(k));
        let above: Seq<u64> = c@.skip(k + 1);
        assert forall|i: int| 0 <= i < above.len() implies above[i] == 0 by {
            assert(before.skip(k)[i + 1] == c0.skip(k)[i + 1]);
        }
        value::lemma_val_high_zero(c@, k + 1);
        value::lemma_val_high_zero(c0, k);
    }
}

/// `c = a * b` (schoolbook). Requires `c.len() >= a.len() + b.len()`; `c` is
/// fully overwritten (excess top limbs are zeroed).
pub fn mul_words(c: &mut [u64], a: &[u64], b: &[u64])
    requires
        old(c)@.len() >= a@.len() + b@.len(),
    ensures
        final(c)@.len() == old(c)@.len(),
        value::val(final(c)@) == value::val(a@) * value::val(b@),
{
    let mut k: usize = 0;
    while k < c.len()
        invariant
            0 <= k <= c@.len(),
            c@.len() == old(c)@.len(),
            forall|i: int| 0 <= i < k ==> c@[i] == 0,
        decreases c@.len() - k,
    {
        c[k] = 0;
        k += 1;
    }
    let mut i: usize = 0;
    proof {
        value::lemma_val_zero(c@);
        value::lemma_val_take_all(a@);
        assert(0 * value::val(b@) == 0);
        assert(value::all_zero(c@.skip(i + b@.len())));
    }
    while i < a.len()
        invariant
            0 <= i <= a@.len(),
            c@.len() >= a@.len() + b@.len(),
            c@.len() == old(c)@.len(),
            value::all_zero(c@.skip(i + b@.len())),
            value::val(c@) == value::val(a@.take(i as int)) * value::val(b@),
        decreases a@.len() - i,
    {
        mul_row(c, i, a[i], b);
        proof {
            value::lemma_val_take_step(a@, i as int);
            let t: int = value::val(a@.take(i as int)) as int;
            let x: int = a@[i as int] as int;
            let w: int = value::bpow(i as nat) as int;
            let v: int = value::val(b@) as int;
            assert((t + x * w) * v == t * v + x * v * w) by (nonlinear_arith);
        }
        i += 1;
    }
    proof {
        value::lemma_val_take_all(a@);
    }
}

/// Number of significant limbs (at least 1 for a non-empty array, even for
/// zero).
pub fn sig_limbs(l: &[u64]) -> (n: usize)
    ensures
        n <= l@.len(),
        l@.len() > 0 ==> n >= 1,
        value::all_zero(l@.skip(n as int)),
        n > 1 ==> l@[n - 1] != 0,
{
    let mut n: usize = l.len();
    while n > 1 && l[n - 1] == 0
        invariant
            n <= l@.len(),
            l@.len() > 0 ==> n >= 1,
            value::all_zero(l@.skip(n as int)),
        decreases n,
    {
        let ghost k: int = n as int;
        n -= 1;
        assert forall|i: int| 0 <= i < l@.skip(n as int).len() implies l@.skip(n as int)[i] == 0 by {
            if i > 0 {
                assert(l@.skip(k)[i - 1] == 0);
            }
        }
    }
    n
}

/// True if every limb is zero.
pub fn is_zero(l: &[u64]) -> (r: bool)
    ensures
        r == value::all_zero(l@),
        r == (value::val(l@) == 0),
{
    proof {
        value::lemma_val_zero(l@);
    }
    let mut i: usize = 0;
    while i < l.len()
        invariant
            0 <= i <= l@.len(),
            forall|j: int| 0 <= j < i ==> l@[j] == 0,
            value::all_zero(l@) <==> value::val(l@) == 0,
        decreases l@.len() - i,
    {
        if l[i] != 0 {
            return false;
        }
        i += 1;
    }
    true
}

/// The outcome of comparing two magnitudes.
#[derive(Debug, Clone, Copy, PartialEq, Eq, Structural)]
pub enum Order {
    /// The first is smaller.
    Less,
    /// Both are the same.
    Equal,
    /// The first is larger.
    Greater,
}

/// How `a` relates to `b`.
pub open spec fn order_of(a: nat, b: nat) -> Order {
    if a < b {
        Order::Less
    } else if a == b {
        Order::Equal
    } else {
        Order::Greater
    }
}

/// Compares equal-length limb arrays as unsigned integers.
pub fn order_words(a: &[u64], b: &[u64]) -> (r: Order)
    requires
        a@.len() == b@.len(),
    ensures
        r == order_of(value::val(a@), value::val(b@)),
{
    let mut i: usize = a.len();
    proof {
        value::lemma_val_skip_ends(a@);
        value::lemma_val_skip_ends(b@);
    }
    while i > 0
        invariant
            0 <= i <= a@.len(),
            a@.len() == b@.len(),
            value::val(a@.skip(i as int)) == value::val(b@.skip(i as int)),
        decreases i,
    {
        i -= 1;
        proof {
            value::lemma_val_skip_step(a@, i as int);
            value::lemma_val_skip_step(b@, i as int);
            value::lemma_val_split(a@, i as int);
            value::lemma_val_split(b@, i as int);
            value::lemma_val_bound(a@.take(i as int));
            value::lemma_val_bound(b@.take(i as int));
            let w: int = value::bpow(i as nat) as int;
            let va: int = value::val(a@.skip(i as int)) as int;
            let vb: int = value::val(b@.skip(i as int)) as int;
            if va < vb {
                assert(w * va + w <= w * vb) by (nonlinear_arith)
                    requires
                        va + 1 <= vb,
                        w >= 0,
                ;
            }
            if vb < va {
                assert(w * vb + w <= w * va) by (nonlinear_arith)
                    requires
                        vb + 1 <= va,
                        w >= 0,
                ;
            }
        }
        if a[i] < b[i] {
            return Order::Less;
        }
        if a[i] > b[i] {
            return Order::Greater;
        }
    }
    proof {
        value::lemma_val_skip_ends(a@);
        value::lemma_val_skip_ends(b@);
    }
    Order::Equal
}

/// Lexicographic comparison of equal-length limb arrays as unsigned integers.
pub fn cmp_words(a: &[u64], b: &[u64]) -> (r: Ordering)
    requires
        a@.len() == b@.len(),
    ensures
        r == Ordering::Less <==> value::val(a@) < value::val(b@),
        r == Ordering::Equal <==> value::val(a@) == value::val(b@),
        r == Ordering::Greater <==> value::val(a@) > value::val(b@),
{
    match order_words(a, b) {
        Order::Less => Ordering::Less,
        Order::Equal => Ordering::Equal,
        Order::Greater => Ordering::Greater,
    }
}

/// Shifts left by one bit in place; returns the bit shifted out of the top.
pub fn shl1(l: &mut [u64]) -> (carry: u64)
    ensures
        final(l)@.len() == old(l)@.len(),
        carry <= 1,
        value::val(final(l)@) + carry * value::bpow(old(l)@.len()) == 2 * value::val(old(l)@),
{
    let ghost l0: Seq<u64> = l@;
    let mut carry: u64 = 0;
    let mut i: usize = 0;
    proof {
        value::lemma_val_take_all(l0);
        assert(0 * value::bpow(0) == 0);
    }
    while i < l.len()
        invariant
            0 <= i <= l@.len(),
            l@.len() == l0.len(),
            carry <= 1,
            l@.skip(i as int) == l0.skip(i as int),
            value::val(l@.take(i as int)) + carry * value::bpow(i as nat) == 2 * value::val(
                l0.take(i as int),
            ),
        decreases l@.len() - i,
    {
        let ghost before: Seq<u64> = l@;
        let ghost carry0: u64 = carry;
        assert(before.skip(i as int)[0] == l0.skip(i as int)[0]);
        let x: u64 = l[i];
        let next: u64 = x >> 63;
        let y: u64 = (x << 1) | carry;
        assert(y + next * 0x1_0000_0000_0000_0000 == 2 * x + carry && next <= 1) by (bit_vector)
            requires
                next == x >> 63,
                y == (x << 1) | carry,
                carry <= 1,
        ;
        l[i] = y;
        carry = next;
        proof {
            value::lemma_val_take_step(l0, i as int);
            value::lemma_val_take_step(l@, i as int);
            assert(l@.take(i as int) =~= before.take(i as int));
            assert(l@.skip(i + 1) =~= before.skip(i as int).skip(1));
            assert(l0.skip(i + 1) =~= l0.skip(i as int).skip(1));
            let w: int = value::bpow(i as nat) as int;
            assert(value::bpow((i + 1) as nat) == value::base() * w);
            assert(y * w + next * (value::base() * w) == 2 * (x * w) + carry0 * w)
                by (nonlinear_arith)
                requires
                    y + next * value::base() == 2 * x + carry0,
            ;
        }
        i += 1;
    }
    proof {
        value::lemma_val_take_all(l0);
        value::lemma_val_take_all(l@);
    }
    carry
}

} // verus!
