//! Long division of limb arrays by divisors of two limbs or more, Knuth's
//! algorithm D.

use crate::value;
use crate::word_div;
use vstd::prelude::*;

verus! {

/// Maximum dividend size (in limbs) supported by [`div_knuth`].
pub const KNUTH_MAX_M: usize = 8;

/// Writes `src * 2^s` into `dst`, which gains one limb.
fn shl_into(dst: &mut [u64], src: &[u64], s: u32)
    requires
        s < 64,
        old(dst)@.len() > src@.len(),
        value::all_zero(old(dst)@),
    ensures
        final(dst)@.len() == old(dst)@.len(),
        value::val(final(dst)@) == value::val(src@) * vstd::arithmetic::power2::pow2(s as nat),
{
    let ghost p: int = vstd::arithmetic::power2::pow2(s as nat) as int;
    let mut carry: u64 = 0;
    let mut i: usize = 0;
    proof {
        value::lemma_val_take_all(src@);
        value::lemma_val_take_all(dst@);
        assert(0 * value::bpow(0) == 0 && 0 * p == 0);
        vstd::arithmetic::power2::lemma_pow2_pos(s as nat);
    }
    while i < src.len()
        invariant
            0 <= i <= src@.len(),
            s < 64,
            dst@.len() == old(dst)@.len(),
            dst@.len() > src@.len(),
            p == vstd::arithmetic::power2::pow2(s as nat),
            p > 0,
            carry < p,
            value::all_zero(dst@.skip(i as int)),
            value::val(dst@.take(i as int)) + carry * value::bpow(i as nat) == value::val(
                src@.take(i as int),
            ) * p,
        decreases src@.len() - i,
    {
        let ghost before: Seq<u64> = dst@;
        let ghost carry0: int = carry as int;
        let x: u64 = src[i];
        let y: u64;
        let next: u64;
        if s == 0 {
            proof {
                vstd::arithmetic::power2::lemma2_to64();
            }
            y = x;
            next = 0;
            assert(x * p == x) by (nonlinear_arith)
                requires
                    p == 1,
            ;
        } else {
            proof {
                word_div::lemma_shift_split(x, s as u64);
                lemma_or_is_sum(x, s as u64, carry);
            }
            y = (x << s) | carry;
            next = x >> (64 - s);
        }
        assert(y + next * value::base() == x * p + carry0);
        dst[i] = y;
        carry = next;
        proof {
            value::lemma_val_take_step(src@, i as int);
            value::lemma_val_take_step(dst@, i as int);
            assert(dst@.take(i as int) =~= before.take(i as int));
            assert forall|k: int| 0 <= k < dst@.skip(i + 1).len() implies #[trigger] dst@.skip(
                i + 1,
            )[k] == 0 by {
                assert(before.skip(i as int)[k + 1] == 0);
            }
            let w: int = value::bpow(i as nat) as int;
            let t: int = value::val(src@.take(i as int)) as int;
            assert(value::bpow((i + 1) as nat) == value::base() * w);
            assert(y * w + next * (value::base() * w) == (x * p) * w + carry0 * w)
                by (nonlinear_arith)
                requires
                    y + next * value::base() == x * p + carry0,
            ;
            assert((t + x * w) * p == t * p + (x * p) * w) by (nonlinear_arith);
        }
        i += 1;
    }
    let ghost before: Seq<u64> = dst@;
    dst[i] = carry;
    proof {
        value::lemma_val_take_all(src@);
        value::lemma_val_take_step(dst@, i as int);
        assert(dst@.take(i as int) =~= before.take(i as int));
        assert forall|k: int| 0 <= k < dst@.skip(i + 1).len() implies #[trigger] dst@.skip(i + 1)[k]
            == 0 by {
            assert(before.skip(i as int)[k + 1] == 0);
        }
        value::lemma_val_high_zero(dst@, i + 1);
    }
}

/// The low bits cleared by a shift take a carry by `|` as by `+`.
proof fn lemma_or_is_sum(x: u64, s: u64, carry: u64)
    requires
        0 < s < 64,
        carry < vstd::arithmetic::power2::pow2(s as nat),
    ensures
        ((x << s) | carry) == (x << s) + carry,
{
    vstd::bits::lemma_u64_pow2_no_overflow(s as nat);
    vstd::bits::lemma_u64_shl_is_mul(1, s);
    let p: u64 = 1u64 << s;
    assert(((x << s) | carry) == (x << s) + carry) by (bit_vector)
        requires
            0 < s < 64,
            p == 1u64 << s,
            carry < p,
    ;
}

/// The bits below `s` of a word, moved to the top of the limb below.
proof fn lemma_shift_down(x: u64, s: u64)
    requires
        0 < s < 64,
    ensures
        ({
            let p: int = vstd::arithmetic::power2::pow2(s as nat) as int;
            let rest: int = x - (x >> s) * p;
            &&& 0 <= rest < p
            &&& p * (x << ((64 - s) as u64)) == rest * value::base()
        }),
{
    let t: u64 = (64 - s) as u64;
    let p: int = vstd::arithmetic::power2::pow2(s as nat) as int;
    let w: int = vstd::arithmetic::power2::pow2(t as nat) as int;
    word_div::lemma_shift_split(x, t);
    assert((64 - t) as u64 == s);
    word_div::lemma_shift_right(x, s);
    vstd::arithmetic::div_mod::lemma_fundamental_div_mod(x as int, p);
    vstd::arithmetic::power2::lemma_pow2_adds(s as nat, t as nat);
    vstd::arithmetic::power2::lemma2_to64();
    let hi: int = (x >> s) as int;
    let lo: int = (x << t) as int;
    assert(p * hi == hi * p) by (nonlinear_arith);
    assert(p * lo == (x - hi * p) * value::base()) by (nonlinear_arith)
        requires
            lo + hi * value::base() == x * w,
            p * w == value::base(),
    ;
}

/// Writes the low `n` limbs of `src`, divided exactly by 2^s, into `dst`.
fn shr_into(dst: &mut [u64], src: &[u64], n: usize, s: u32)
    requires
        s < 64,
        0 < n < src@.len(),
        n <= old(dst)@.len(),
        value::all_zero(src@.skip(n as int)),
        value::val(src@) % vstd::arithmetic::power2::pow2(s as nat) == 0,
    ensures
        final(dst)@.len() == old(dst)@.len(),
        value::val(final(dst)@) * vstd::arithmetic::power2::pow2(s as nat) == value::val(src@),
{
    let ghost p: int = vstd::arithmetic::power2::pow2(s as nat) as int;
    let ghost r0: int = if s == 0 {
        0
    } else {
        src@[0] - (src@[0] >> s as u64) * p
    };
    let mut i: usize = 0;
    proof {
        value::lemma_val_take_all(src@);
        value::lemma_val_take_all(dst@);
        assert(r0 * value::bpow(0) == r0) by (nonlinear_arith)
            requires
                value::bpow(0) == 1,
        ;
        assert(0 * p == 0);
        vstd::arithmetic::power2::lemma_pow2_pos(s as nat);
    }
    while i < n
        invariant
            0 <= i <= n,
            s < 64,
            n < src@.len(),
            n <= dst@.len(),
            dst@.len() == old(dst)@.len(),
            p == vstd::arithmetic::power2::pow2(s as nat),
            p > 0,
            value::val(dst@.take(i as int)) * p + r0 == value::val(src@.take(i as int)) + (if s
                == 0 {
                0
            } else {
                src@[i as int] - (src@[i as int] >> s as u64) * p
            }) * value::bpow(i as nat),
        decreases n - i,
    {
        let ghost before: Seq<u64> = dst@;
        let ghost rest: int = if s == 0 {
            0
        } else {
            src@[i as int] - (src@[i as int] >> s as u64) * p
        };
        let ghost next: int = if s == 0 {
            0
        } else {
            src@[i + 1] - (src@[i + 1] >> s as u64) * p
        };
        let x: u64 = src[i];
        let y: u64;
        if s == 0 {
            proof {
                vstd::arithmetic::power2::lemma2_to64();
            }
            y = x;
            assert(y * p == y) by (nonlinear_arith)
                requires
                    p == 1,
            ;
        } else {
            let above: u64 = src[i + 1];
            proof {
                word_div::lemma_shift_join(above, x, (64 - s) as u64);
                assert((64 - (64 - s) as u64) as u64 == s as u64);
                lemma_shift_down(above, s as u64);
            }
            y = (above << (64 - s)) | (x >> s);
            let ghost hi: int = (x >> s) as int;
            let ghost up: int = (above << ((64 - s) as u64)) as int;
            assert(y == up + hi);
            assert((up + hi) * p == p * up + hi * p) by (nonlinear_arith);
        }
        assert(y * p == x - rest + next * value::base());
        dst[i] = y;
        proof {
            value::lemma_val_take_step(src@, i as int);
            value::lemma_val_take_step(dst@, i as int);
            assert(dst@.take(i as int) =~= before.take(i as int));
            let w: int = value::bpow(i as nat) as int;
            let t: int = value::val(dst@.take(i as int)) as int;
            assert(value::bpow((i + 1) as nat) == value::base() * w);
            assert((t + y * w) * p == t * p + (y * p) * w) by (nonlinear_arith);
            assert((x - rest + next * value::base()) * w == x * w - rest * w + next * (value::base()
                * w)) by (nonlinear_arith);
        }
        i += 1;
    }
    let ghost low: Seq<u64> = dst@.take(n as int);
    while i < dst.len()
        invariant
            n <= i <= dst@.len(),
            dst@.len() == old(dst)@.len(),
            dst@.take(n as int) == low,
            forall|k: int| n <= k < i ==> dst@[k] == 0,
        decreases dst@.len() - i,
    {
        let ghost before: Seq<u64> = dst@;
        dst[i] = 0;
        assert(dst@.take(n as int) =~= before.take(n as int));
        i += 1;
    }
    proof {
        assert(value::all_zero(dst@.skip(n as int)));
        value::lemma_val_high_zero(dst@, n as int);
        value::lemma_val_high_zero(src@, n as int);
        assert(src@.skip(n as int)[0] == 0);
        let top: u64 = src@[n as int];
        assert(top >> s as u64 == 0) by (bit_vector)
            requires
                top == 0,
        ;
        assert(0 * p == 0 && 0 * value::bpow(n as nat) == 0);
        // The bits shifted out at the bottom are zero as well.
        let v: int = value::val(src@) as int;
        let q: int = value::val(low) as int;
        assert(q * p + r0 == v);
        if s > 0 {
            lemma_shift_down(src@[0], s as u64);
            assert(q * p == p * q) by (nonlinear_arith);
            vstd::arithmetic::div_mod::lemma_fundamental_div_mod_converse(v, p, q, r0);
        }
    }
}

/// The value of three limbs, most significant first.
#[verifier::inline]
spec fn three(u2: u64, u1: u64, u0: u64) -> int {
    (u2 * value::base() + u1) * value::base() + u0
}

/// The value of two limbs, most significant first.
#[verifier::inline]
spec fn two(v1: u64, v0: u64) -> int {
    v1 * value::base() + v0
}

/// Estimates a quotient digit from the top three limbs of the running
/// dividend and the top two of the normalized divisor: their quotient, cut to
/// one limb.
fn estimate_digit(u2: u64, u1: u64, u0: u64, vtop: u64, vnext: u64) -> (digit: u64)
    requires
        vtop >= 0x8000_0000_0000_0000,
        u2 <= vtop,
    ensures
        digit * two(vtop, vnext) <= three(u2, u1, u0),
        three(u2, u1, u0) < (digit + 1) * two(vtop, vnext) || digit == 0xffff_ffff_ffff_ffff,
{
    let radix: u128 = 0x1_0000_0000_0000_0000;
    let ghost top: int = u2 * value::base() + u1;
    let mut qhat: u128;
    let mut rhat: u128;
    if u2 == vtop {
        // The generic path needs u2 < vtop; here the division splits exactly:
        // (vtop * 2^64 + u1) / vtop == 2^64 + u1 / vtop, rem u1 % vtop.
        qhat = radix + (u1 / vtop) as u128;
        rhat = (u1 % vtop) as u128;
        proof {
            vstd::arithmetic::div_mod::lemma_fundamental_div_mod(u1 as int, vtop as int);
            let k: int = (u1 / vtop) as int;
            assert((radix + k) * vtop == vtop * value::base() + vtop * k) by (nonlinear_arith)
                requires
                    radix == value::base(),
            ;
        }
    } else {
        let (q0, r0): (u64, u64) = word_div::div_2by1(u2, u1, vtop);
        qhat = q0 as u128;
        rhat = r0 as u128;
    }
    proof {
        assert(qhat * vtop + rhat == top);
        assert(three(u2, u1, u0) < (qhat + 1) * two(vtop, vnext)) by (nonlinear_arith)
            requires
                qhat * vtop + rhat == u2 * value::base() + u1,
                rhat < vtop,
                u0 < value::base(),
                qhat >= 0,
                vnext >= 0,
        ;
    }
    let mut again: bool = true;
    // Fine tune: while the estimate is too large by the next-limb test. The
    // `qhat >= radix` arm comes first so the product never overflows.
    while again
        invariant
            radix == value::base(),
            vtop >= 0x8000_0000_0000_0000,
            u2 <= vtop,
            top == u2 * value::base() + u1,
            qhat * vtop + rhat == top,
            again ==> rhat < radix,
            three(u2, u1, u0) < (qhat + 1) * two(vtop, vnext) || qhat + 1 >= radix,
            !again ==> qhat < radix && qhat * two(vtop, vnext) <= three(u2, u1, u0),
        decreases qhat, (if again { 1int } else { 0int }),
    {
        let ghost q0: int = qhat as int;
        let ghost r0: int = rhat as int;
        let too_large: bool = if qhat >= radix {
            true
        } else {
            assert(qhat * vnext <= 0xffff_ffff_ffff_ffff * 0xffff_ffff_ffff_ffff)
                by (nonlinear_arith)
                requires
                    qhat <= 0xffff_ffff_ffff_ffff,
                    vnext <= 0xffff_ffff_ffff_ffff,
            ;
            qhat * (vnext as u128) > rhat * radix + u0 as u128
        };
        proof {
            if q0 < radix {
                assert(q0 * two(vtop, vnext) == (q0 * vtop) * value::base() + q0 * vnext)
                    by (nonlinear_arith);
            }
        }
        if too_large {
            proof {
                assert(q0 > 0) by {
                    if q0 == 0 {
                        assert(q0 * vnext == 0) by (nonlinear_arith)
                            requires
                                q0 == 0,
                        ;
                    }
                }
                assert((q0 - 1) * vtop == q0 * vtop - vtop) by (nonlinear_arith);
            }
            qhat = qhat - 1;
            rhat = rhat + vtop as u128;
            if rhat >= radix {
                again = false;
                proof {
                    let q: int = qhat as int;
                    assert(q < radix) by (nonlinear_arith)
                        requires
                            q * vtop + rhat == u2 * value::base() + u1,
                            rhat >= radix,
                            radix == value::base(),
                            u2 <= vtop,
                            u1 < value::base(),
                            vtop > 0,
                    ;
                    assert(q * vnext <= value::base() * value::base()) by (nonlinear_arith)
                        requires
                            0 <= q < value::base(),
                            0 <= vnext < value::base(),
                    ;
                    assert(q * two(vtop, vnext) == (q * vtop) * value::base() + q * vnext)
                        by (nonlinear_arith);
                }
            }
        } else {
            again = false;
        }
    }
    qhat as u64
}

/// Subtracts `digit * vn` from the limbs of `un` at `off`, over `n + 1` limbs.
/// Returns whether it borrowed past the top.
fn sub_mul(un: &mut [u64], off: usize, n: usize, vn: &[u64], digit: u64) -> (borrowed: bool)
    requires
        off + n < old(un)@.len(),
        n <= vn@.len(),
    ensures
        final(un)@.len() == old(un)@.len(),
        final(un)@.take(off as int) == old(un)@.take(off as int),
        final(un)@.skip(off + n + 1) == old(un)@.skip(off + n + 1),
        value::val(final(un)@.subrange(off as int, off + n + 1)) + digit * value::val(
            vn@.take(n as int),
        ) == value::val(old(un)@.subrange(off as int, off + n + 1)) + (if borrowed {
            value::bpow((n + 1) as nat)
        } else {
            0
        }),
{
    let ghost s0: Seq<u64> = un@.subrange(off as int, off + n + 1);
    let ghost u0: Seq<u64> = un@;
    let len: usize = un.len();
    let mut borrow: u64 = 0;
    let mut i: usize = 0;
    proof {
        value::lemma_val_take_all(s0);
        value::lemma_val_take_all(vn@);
        assert(digit * 0 == 0 && 0 * value::bpow(0) == 0);
    }
    while i < n
        invariant
            0 <= i <= n,
            off + n < un@.len(),
            n <= vn@.len(),
            un@.len() == u0.len(),
            un@.len() == len,
            s0 == u0.subrange(off as int, off + n + 1),
            un@.take(off as int) == u0.take(off as int),
            un@.skip(off + i) == u0.skip(off + i),
            value::val(un@.subrange(off as int, off + n + 1).take(i as int)) + digit * value::val(
                vn@.take(i as int),
            ) == value::val(s0.take(i as int)) + borrow * value::bpow(i as nat),
        decreases n - i,
    {
        let ghost before: Seq<u64> = un@;
        let ghost seg: Seq<u64> = un@.subrange(off as int, off + n + 1);
        let ghost borrow0: int = borrow as int;
        assert(before.skip(off + i)[0] == u0.skip(off + i)[0]);
        let y: u64 = vn[i];
        let x: u64 = un[off + i];
        assert(digit * y <= 0xffff_ffff_ffff_ffff * 0xffff_ffff_ffff_ffff) by (nonlinear_arith);
        let v: u128 = (digit as u128) * (y as u128) + borrow as u128;
        proof {
            word_div::lemma_double_split(v);
        }
        let lo: u64 = v as u64;
        let hi: u64 = (v >> 64) as u64;
        un[off + i] = x.wrapping_sub(lo);
        borrow = if x < lo {
            hi + 1
        } else {
            hi
        };
        proof {
            let now: Seq<u64> = un@.subrange(off as int, off + n + 1);
            value::lemma_val_take_step(s0, i as int);
            value::lemma_val_take_step(now, i as int);
            value::lemma_val_take_step(vn@, i as int);
            assert(now.take(i as int) =~= seg.take(i as int));
            assert(un@.take(off as int) =~= before.take(off as int));
            assert(un@.skip(off + i + 1) =~= before.skip(off + i).skip(1));
            assert(u0.skip(off + i + 1) =~= u0.skip(off + i).skip(1));
            let d: int = now[i as int] as int;
            let w: int = value::bpow(i as nat) as int;
            let t: int = value::val(vn@.take(i as int)) as int;
            assert(d + digit * y + borrow0 == x + borrow * value::base());
            assert(value::bpow((i + 1) as nat) == value::base() * w);
            assert(d * w + (digit * y) * w + borrow0 * w == x * w + borrow * (value::base() * w))
                by (nonlinear_arith)
                requires
                    d + digit * y + borrow0 == x + borrow * value::base(),
            ;
            assert(digit * (t + y * w) == digit * t + (digit * y) * w) by (nonlinear_arith);
        }
        i += 1;
    }
    let ghost before: Seq<u64> = un@;
    let ghost seg: Seq<u64> = un@.subrange(off as int, off + n + 1);
    assert(before.skip(off + n)[0] == u0.skip(off + n)[0]);
    let x: u64 = un[off + n];
    un[off + n] = x.wrapping_sub(borrow);
    proof {
        let now: Seq<u64> = un@.subrange(off as int, off + n + 1);
        value::lemma_val_take_step(s0, n as int);
        value::lemma_val_take_step(now, n as int);
        value::lemma_val_take_all(s0);
        value::lemma_val_take_all(now);
        assert(now.take(n as int) =~= seg.take(n as int));
        assert(un@.take(off as int) =~= before.take(off as int));
        assert(un@.skip(off + n + 1) =~= before.skip(off + n).skip(1));
        assert(u0.skip(off + n + 1) =~= u0.skip(off + n).skip(1));
        let w: int = value::bpow(n as nat) as int;
        let d: int = now[n as int] as int;
        let c: int = if x < borrow {
            1
        } else {
            0
        };
        assert(value::bpow((n + 1) as nat) == value::base() * w);
        assert(d * w + borrow * w == x * w + c * (value::base() * w)) by (nonlinear_arith)
            requires
                d + borrow == x + c * value::base(),
        ;
    }
    x < borrow
}

/// Adds `vn` into the limbs of `un` at `off`, over `n + 1` limbs. Returns the
/// carry out of the top.
fn add_back(un: &mut [u64], off: usize, n: usize, vn: &[u64]) -> (carried: bool)
    requires
        off + n < old(un)@.len(),
        n <= vn@.len(),
    ensures
        final(un)@.len() == old(un)@.len(),
        final(un)@.take(off as int) == old(un)@.take(off as int),
        final(un)@.skip(off + n + 1) == old(un)@.skip(off + n + 1),
        value::val(final(un)@.subrange(off as int, off + n + 1)) + (if carried {
            value::bpow((n + 1) as nat)
        } else {
            0
        }) == value::val(old(un)@.subrange(off as int, off + n + 1)) + value::val(
            vn@.take(n as int),
        ),
{
    let ghost s0: Seq<u64> = un@.subrange(off as int, off + n + 1);
    let ghost u0: Seq<u64> = un@;
    let len: usize = un.len();
    let mut carry: u64 = 0;
    let mut i: usize = 0;
    proof {
        value::lemma_val_take_all(s0);
        value::lemma_val_take_all(vn@);
        assert(0 * value::bpow(0) == 0);
    }
    while i < n
        invariant
            0 <= i <= n,
            off + n < un@.len(),
            n <= vn@.len(),
            un@.len() == u0.len(),
            un@.len() == len,
            carry <= 1,
            s0 == u0.subrange(off as int, off + n + 1),
            un@.take(off as int) == u0.take(off as int),
            un@.skip(off + i) == u0.skip(off + i),
            value::val(un@.subrange(off as int, off + n + 1).take(i as int)) + carry * value::bpow(
                i as nat,
            ) == value::val(s0.take(i as int)) + value::val(vn@.take(i as int)),
        decreases n - i,
    {
        let ghost before: Seq<u64> = un@;
        let ghost seg: Seq<u64> = un@.subrange(off as int, off + n + 1);
        let ghost carry0: int = carry as int;
        assert(before.skip(off + i)[0] == u0.skip(off + i)[0]);
        let y: u64 = vn[i];
        let x: u64 = un[off + i];
        let v: u128 = (x as u128) + (y as u128) + carry as u128;
        proof {
            word_div::lemma_double_split(v);
        }
        un[off + i] = v as u64;
        carry = (v >> 64) as u64;
        proof {
            let now: Seq<u64> = un@.subrange(off as int, off + n + 1);
            value::lemma_val_take_step(s0, i as int);
            value::lemma_val_take_step(now, i as int);
            value::lemma_val_take_step(vn@, i as int);
            assert(now.take(i as int) =~= seg.take(i as int));
            assert(un@.take(off as int) =~= before.take(off as int));
            assert(un@.skip(off + i + 1) =~= before.skip(off + i).skip(1));
            assert(u0.skip(off + i + 1) =~= u0.skip(off + i).skip(1));
            let d: int = now[i as int] as int;
            let w: int = value::bpow(i as nat) as int;
            assert(value::bpow((i + 1) as nat) == value::base() * w);
            assert(d * w + carry * (value::base() * w) == x * w + y * w + carry0 * w)
                by (nonlinear_arith)
                requires
                    d + carry * value::base() == x + y + carry0,
            ;
        }
        i += 1;
    }
    let ghost before: Seq<u64> = un@;
    let ghost seg: Seq<u64> = un@.subrange(off as int, off + n + 1);
    assert(before.skip(off + n)[0] == u0.skip(off + n)[0]);
    let x: u64 = un[off + n];
    un[off + n] = x.wrapping_add(carry);
    proof {
        let now: Seq<u64> = un@.subrange(off as int, off + n + 1);
        value::lemma_val_take_step(s0, n as int);
        value::lemma_val_take_step(now, n as int);
        value::lemma_val_take_all(s0);
        value::lemma_val_take_all(now);
        assert(now.take(n as int) =~= seg.take(n as int));
        assert(un@.take(off as int) =~= before.take(off as int));
        assert(un@.skip(off + n + 1) =~= before.skip(off + n).skip(1));
        assert(u0.skip(off + n + 1) =~= u0.skip(off + n).skip(1));
        let w: int = value::bpow(n as nat) as int;
        let d: int = now[n as int] as int;
        let c: int = if x + carry >= value::base() {
            1
        } else {
            0
        };
        assert(value::bpow((n + 1) as nat) == value::base() * w);
        assert(d * w + c * (value::base() * w) == x * w + carry * w) by (nonlinear_arith)
            requires
                d + c * value::base() == x + carry,
        ;
    }
    carry == 1 && x == 0xffff_ffff_ffff_ffff
}

/// A digit estimated from the leading limbs is the true digit or one more.
/// `w` is the weight of the limbs left out, `tl` and `vl` their values.
proof fn lemma_estimate_close(t: int, v: int, u3: int, v2: int, tl: int, vl: int, w: int, digit: int)
    requires
        t == u3 * w + tl,
        v == v2 * w + vl,
        0 <= tl < w,
        0 <= vl < w,
        v2 >= 0x8000_0000_0000_0000 * value::base(),
        t < value::base() * v,
        0 <= digit < value::base(),
        digit * v2 <= u3,
        u3 < (digit + 1) * v2 || digit == 0xffff_ffff_ffff_ffff,
    ensures
        t < (digit + 1) * v,
        digit * v < t + v,
{
    assert((digit + 1) * v == (digit + 1) * v2 * w + (digit + 1) * vl) by (nonlinear_arith)
        requires
            v == v2 * w + vl,
    ;
    assert((digit + 1) * vl >= 0) by (nonlinear_arith)
        requires
            digit >= 0,
            vl >= 0,
    ;
    if u3 < (digit + 1) * v2 {
        assert(u3 * w + w <= (digit + 1) * v2 * w) by (nonlinear_arith)
            requires
                u3 + 1 <= (digit + 1) * v2,
                w >= 0,
        ;
    }
    assert(digit * v == digit * v2 * w + digit * vl) by (nonlinear_arith)
        requires
            v == v2 * w + vl,
    ;
    assert(digit * v2 * w <= u3 * w) by (nonlinear_arith)
        requires
            digit * v2 <= u3,
            w >= 0,
    ;
    assert(digit * vl <= value::base() * w) by (nonlinear_arith)
        requires
            0 <= digit < value::base(),
            0 <= vl < w,
    ;
    assert(v2 * w > value::base() * w) by (nonlinear_arith)
        requires
            v2 >= 0x8000_0000_0000_0000 * value::base(),
            w > 0,
    ;
}

/// The value of the two top limbs among the first `n`, and of what lies below.
proof fn lemma_top_two(s: Seq<u64>, n: int)
    requires
        2 <= n <= s.len(),
    ensures
        value::val(s.take(n)) == two(s[n - 1], s[n - 2]) * value::bpow((n - 2) as nat)
            + value::val(s.take(n - 2)),
        value::val(s.take(n - 2)) < value::bpow((n - 2) as nat),
        value::val(s.take(n)) < (s[n - 1] + 1) * value::bpow((n - 1) as nat),
        value::val(s.take(n)) >= s[n - 1] * value::bpow((n - 1) as nat),
{
    value::lemma_val_take_step(s, n - 1);
    value::lemma_val_take_step(s, n - 2);
    value::lemma_val_bound(s.take(n - 2));
    value::lemma_val_bound(s.take(n - 1));
    let w: int = value::bpow((n - 2) as nat) as int;
    let a: int = s[n - 1] as int;
    let b: int = s[n - 2] as int;
    assert(value::bpow((n - 1) as nat) == value::base() * w);
    assert((a * value::base() + b) * w == a * (value::base() * w) + b * w) by (nonlinear_arith);
    assert((a + 1) * (value::base() * w) == a * (value::base() * w) + value::base() * w)
        by (nonlinear_arith);
}

/// Reduces the running dividend by one quotient digit at limb `j`.
fn next_digit(un: &mut [u64], vn: &[u64], n: usize, j: usize) -> (digit: u64)
    requires
        2 <= n < vn@.len(),
        j + n < old(un)@.len(),
        value::all_zero(vn@.skip(n as int)),
        vn@[n - 1] >= 0x8000_0000_0000_0000,
        value::val(old(un)@.skip(j + 1)) < value::val(vn@),
    ensures
        final(un)@.len() == old(un)@.len(),
        value::val(old(un)@) == value::val(final(un)@) + digit * value::val(vn@) * value::bpow(
            j as nat,
        ),
        value::val(final(un)@.skip(j as int)) < value::val(vn@),
{
    let ghost u0: Seq<u64> = un@;
    let ghost v: int = value::val(vn@) as int;
    let ghost t: int = value::val(u0.skip(j as int)) as int;
    let ghost seg: Seq<u64> = u0.subrange(j as int, j + n + 1);
    let ghost w: int = value::bpow((n - 2) as nat) as int;
    let len: usize = un.len();
    proof {
        value::lemma_val_high_zero(vn@, n as int);
        value::lemma_val_bound(vn@.take(n as int));
        lemma_top_two(vn@, n as int);
        value::lemma_val_skip_step(u0, j as int);
        value::lemma_val_small_high_zero(u0.skip(j + 1), n as int);
        assert(u0.skip(j + 1).skip(n as int) =~= u0.skip(j as int).skip(n + 1));
        value::lemma_val_high_zero(u0.skip(j as int), n + 1);
        assert(u0.skip(j as int).take(n + 1) =~= seg);
        assert(seg.take(n + 1) =~= seg);
        // The two leading limbs above position j are not above the divisor's.
        let up: Seq<u64> = u0.skip(j + 1);
        value::lemma_val_high_zero(up, n as int);
        lemma_top_two(up, n as int);
        let b: int = value::bpow((n - 1) as nat) as int;
        let u2: int = u0[j + n] as int;
        let vt: int = vn@[n - 1] as int;
        assert(up[n - 1] == u0[j + n]);
        assert(u2 <= vt) by (nonlinear_arith)
            requires
                u2 * b < (vt + 1) * b,
                b > 0,
        ;
    }
    let digit: u64 = estimate_digit(un[j + n], un[j + n - 1], un[j + n - 2], vn[n - 1], vn[n - 2]);
    proof {
        lemma_top_two(seg, n as int);
        value::lemma_val_take_step(seg, n as int);
        let u2: int = seg[n as int] as int;
        let lo2: int = two(seg[n - 1], seg[n - 2]);
        assert(value::bpow((n - 1) as nat) == value::base() * w);
        assert(value::bpow(n as nat) == value::base() * value::bpow((n - 1) as nat));
        assert(three(seg[n as int], seg[n - 1], seg[n - 2]) * w == u2 * (value::base() * (
        value::base() * w)) + lo2 * w) by (nonlinear_arith)
            requires
                three(seg[n as int], seg[n - 1], seg[n - 2]) == u2 * value::base() * value::base()
                    + lo2,
        ;
        lemma_estimate_close(
            t,
            v,
            three(seg[n as int], seg[n - 1], seg[n - 2]),
            two(vn@[n - 1], vn@[n - 2]),
            value::val(seg.take(n - 2)) as int,
            value::val(vn@.take(n - 2)) as int,
            w,
            digit as int,
        );
        assert((digit + 1) * v == digit * v + v) by (nonlinear_arith);
    }
    let borrowed: bool = sub_mul(un, j, n, vn, digit);
    let ghost mid: Seq<u64> = un@;
    let mut result: u64 = digit;
    if borrowed {
        // The estimate was one too large: add the divisor back and adjust.
        proof {
            value::lemma_val_bound(mid.subrange(j as int, j + n + 1));
            assert(digit > 0) by {
                if digit == 0 {
                    assert(digit * v == 0) by (nonlinear_arith)
                        requires
                            digit == 0,
                    ;
                }
            }
            assert((digit - 1) * v == digit * v - v) by (nonlinear_arith);
        }
        let _carried: bool = add_back(un, j, n, vn);
        result = digit - 1;
        proof {
            value::lemma_val_bound(un@.subrange(j as int, j + n + 1));
        }
    }
    proof {
        let now: Seq<u64> = un@;
        let fin: Seq<u64> = now.subrange(j as int, j + n + 1);
        value::lemma_val_bound(fin);
        assert(now.skip(j as int).take(n + 1) =~= fin);
        assert(now.skip(j as int).skip(n + 1) =~= now.skip(j + n + 1));
        assert(u0.skip(j as int).skip(n + 1) =~= u0.skip(j + n + 1));
        value::lemma_val_high_zero(now.skip(j as int), n + 1);
        assert(value::val(fin) == t - result * v);
        value::lemma_val_split(u0, j as int);
        value::lemma_val_split(now, j as int);
        let b: int = value::bpow(j as nat) as int;
        assert(b * (t - result * v) == b * t - result * v * b) by (nonlinear_arith);
    }
    result
}

/// Divides `u` (m limbs) by `v` (n limbs, `2 <= n <= m <= 8`, top limb of `v`
/// non-zero). Writes the quotient into `q` (needs `m - n + 1` limbs; excess
/// limbs are zeroed) and the remainder into `r` (needs `n` limbs; excess limbs
/// are zeroed).
pub fn div_knuth(q: &mut [u64], r: &mut [u64], u: &[u64], v: &[u64])
    requires
        2 <= v@.len() <= u@.len() <= KNUTH_MAX_M,
        v@.last() != 0,
        old(q)@.len() > u@.len() - v@.len(),
        old(r)@.len() >= v@.len(),
    ensures
        final(q)@.len() == old(q)@.len(),
        final(r)@.len() == old(r)@.len(),
        value::val(u@) == value::val(final(q)@) * value::val(v@) + value::val(final(r)@),
        value::val(final(r)@) < value::val(v@),
{
    let m: usize = u.len();
    let n: usize = v.len();
    // Normalize so the divisor's top bit is set, which the quality of the
    // digit estimates rests on. The dividend gains one limb.
    let mut un: [u64; 9] = [0u64; 9];
    let mut vn: [u64; 9] = [0u64; 9];
    let s: u32 = v[n - 1].leading_zeros();
    let ghost p: int = vstd::arithmetic::power2::pow2(s as nat) as int;
    proof {
        word_div::lemma_normalize(v@[n - 1], s as u64);
        vstd::arithmetic::power2::lemma_pow2_pos(s as nat);
    }
    shl_into(&mut vn, v, s);
    shl_into(&mut un, u, s);
    let ghost big: int = value::val(un@) as int;
    let ghost d: int = value::val(vn@) as int;
    proof {
        lemma_normalized(v@, vn@, s);
        lemma_start(u@, un@, v@, vn@, s);
    }
    let mut k: usize = 0;
    while k < q.len()
        invariant
            0 <= k <= q@.len(),
            q@.len() == old(q)@.len(),
            forall|i: int| 0 <= i < k ==> q@[i] == 0,
        decreases q@.len() - k,
    {
        q[k] = 0;
        k += 1;
    }
    proof {
        value::lemma_val_zero(q@);
        assert(0 * d == 0);
    }
    let mut j: usize = m - n + 1;
    // Reduce the dividend digit by digit from the top.
    while j > 0
        invariant
            0 <= j <= m - n + 1,
            2 <= n <= m <= 8,
            un@.len() == 9,
            vn@.len() == 9,
            q@.len() > m - n,
            q@.len() == old(q)@.len(),
            d == value::val(vn@),
            value::all_zero(vn@.skip(n as int)),
            vn@[n - 1] >= 0x8000_0000_0000_0000,
            value::val(un@.skip(j as int)) < d,
            forall|i: int| 0 <= i < j ==> q@[i] == 0,
            big == value::val(un@) + value::val(q@) * d,
        decreases j,
    {
        j -= 1;
        let ghost q0: Seq<u64> = q@;
        let digit: u64 = next_digit(&mut un, &vn, n, j);
        q[j] = digit;
        proof {
            value::lemma_val_update(q0, j as int, digit);
            let w: int = value::bpow(j as nat) as int;
            let t: int = value::val(q0) as int;
            assert((t + digit * w) * d == t * d + digit * d * w) by (nonlinear_arith);
        }
    }
    proof {
        value::lemma_val_skip_ends(un@);
        let quo: int = value::val(q@) as int;
        let vv: int = value::val(v@) as int;
        let uu: int = value::val(u@) as int;
        assert(p * uu == uu * p) by (nonlinear_arith);
        value::lemma_val_zero(v@);
        assert(v@[n - 1] != 0);
        assert(vv > 0);
        word_div::lemma_unscale(uu, quo, vv, p, value::val(un@) as int);
        value::lemma_val_high_zero(vn@, n as int);
        value::lemma_val_bound(vn@.take(n as int));
        value::lemma_val_small_high_zero(un@, n as int);
        let rr: int = value::val(un@) as int / p;
        vstd::arithmetic::div_mod::lemma_mod_multiples_basic(rr, p);
        assert(p * rr == rr * p) by (nonlinear_arith);
    }
    shr_into(r, &un, n, s);
    proof {
        let rv: int = value::val(r@) as int;
        let rr: int = value::val(un@) as int / p;
        assert(rv == rr) by (nonlinear_arith)
            requires
                rv * p == p * rr,
                p > 0,
        ;
    }
}

/// What normalization gives the divisor: no extra limb, and the top bit set.
proof fn lemma_normalized(v: Seq<u64>, vn: Seq<u64>, s: u32)
    requires
        2 <= v.len() < vn.len(),
        v.last() != 0,
        s < 64,
        s as int == vstd::std_specs::bits::u64_leading_zeros(v.last()),
        value::val(vn) == value::val(v) * vstd::arithmetic::power2::pow2(s as nat),
    ensures
        value::all_zero(vn.skip(v.len() as int)),
        vn[v.len() - 1] >= 0x8000_0000_0000_0000,
        value::val(v) >= value::bpow((v.len() - 1) as nat),
{
    let n: int = v.len() as int;
    let p: int = vstd::arithmetic::power2::pow2(s as nat) as int;
    let top: int = v.last() as int;
    let w: int = value::bpow((n - 1) as nat) as int;
    let x: int = value::val(v) as int;
    word_div::lemma_normalize(v.last(), s as u64);
    if s > 0 {
        word_div::lemma_shift_split(v.last(), s as u64);
    } else {
        vstd::arithmetic::power2::lemma2_to64();
    }
    vstd::arithmetic::power2::lemma_pow2_pos(s as nat);
    assert(v.take(n) =~= v);
    lemma_top_two(v, n);
    value::lemma_bpow_pos((n - 1) as nat);
    assert(value::bpow(n as nat) == value::base() * w);
    assert(top * p + p <= value::base());
    assert(x * p < value::base() * w) by (nonlinear_arith)
        requires
            x < (top + 1) * w,
            top * p + p <= value::base(),
            p > 0,
            w > 0,
    ;
    value::lemma_val_small_high_zero(vn, n);
    value::lemma_val_high_zero(vn, n);
    lemma_top_two(vn, n);
    let y: int = vn[n - 1] as int;
    assert(x * p >= 0x8000_0000_0000_0000 * w) by (nonlinear_arith)
        requires
            x >= top * w,
            top * p >= 0x8000_0000_0000_0000,
            p > 0,
            w > 0,
    ;
    assert(y >= 0x8000_0000_0000_0000) by (nonlinear_arith)
        requires
            (y + 1) * w > 0x8000_0000_0000_0000 * w,
            w > 0,
    ;
    assert(x >= w) by (nonlinear_arith)
        requires
            x >= top * w,
            top >= 1,
            w > 0,
    ;
}

/// Before the first digit, the leading limbs are below the divisor.
proof fn lemma_start(u: Seq<u64>, un: Seq<u64>, v: Seq<u64>, vn: Seq<u64>, s: u32)
    requires
        2 <= v.len() <= u.len() < un.len(),
        s < 64,
        value::val(un) == value::val(u) * vstd::arithmetic::power2::pow2(s as nat),
        value::val(vn) == value::val(v) * vstd::arithmetic::power2::pow2(s as nat),
        value::val(v) >= value::bpow((v.len() - 1) as nat),
    ensures
        value::val(un.skip(u.len() - v.len() + 1)) < value::val(vn),
{
    let k: int = u.len() - v.len() + 1;
    let p: int = vstd::arithmetic::power2::pow2(s as nat) as int;
    vstd::arithmetic::power2::lemma_pow2_pos(s as nat);
    value::lemma_val_split(un, k);
    value::lemma_val_bound(u);
    value::lemma_bpow_add(k as nat, (v.len() - 1) as nat);
    value::lemma_bpow_pos(k as nat);
    let b: int = value::bpow(k as nat) as int;
    let h: int = value::val(un.skip(k)) as int;
    let c: int = value::bpow((v.len() - 1) as nat) as int;
    let x: int = value::val(u) as int;
    let y: int = value::val(v) as int;
    assert(b * h < b * c * p) by (nonlinear_arith)
        requires
            b * h <= x * p,
            x < b * c,
            p > 0,
    ;
    assert(h < y * p) by (nonlinear_arith)
        requires
            b * h < b * c * p,
            c <= y,
            p > 0,
            b > 0,
    ;
}

} // verus!
