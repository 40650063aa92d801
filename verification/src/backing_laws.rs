//! What the bits, bytes and limbs behind a number are.

use crate::arith;
use crate::bytes;
use crate::decimal128::Decimal128;
use crate::decimal64::Decimal;
use crate::i256::I256;
use crate::limbs;
use crate::limbs::Order;
use crate::number_laws;
use crate::value;
use crate::word_div;
use core::cmp::Ordering;
use vstd::arithmetic::div_mod;
use vstd::arithmetic::power;
use vstd::arithmetic::power2;
use vstd::prelude::*;
use vstd::std_specs::cmp::PartialOrdSpec;

verus! {

/// **Two's complement.** The bits of a backing integer are the number below the
/// power of two of its width that differs from it by a multiple of that power:
/// the integer itself, or that plus one such power where it is negative.
pub proof fn bits_are_twos_complement<const DIGITS: u8>(
    a: Decimal<DIGITS>,
    b: Decimal128<DIGITS>,
    x: I256,
)
    ensures
        a.bits() < power2::pow2(64),
        a.bits() == a.0 || a.bits() == a.0 + power2::pow2(64),
        b.bits() < power2::pow2(128),
        b.bits() == b.0 || b.bits() == b.0 + power2::pow2(128),
        x.bits() < power2::pow2(256),
        x.bits() == x@ || x.bits() == x@ + power2::pow2(256),
{
    power2::lemma2_to64();
    power2::lemma_pow2_adds(64, 64);
    power2::lemma_pow2_adds(128, 128);
    let q: int = power2::pow2(128) as int;
    assert(q * q == 0x1_0000_0000_0000_0000_0000_0000_0000_0000_0000_0000_0000_0000_0000_0000_0000_0000int)
        by (nonlinear_arith)
        requires
            q == 0x1_0000_0000_0000_0000_0000_0000_0000_0000int,
    ;
}

/// **A wide integer** is its high half times 2^128 plus its low half; every
/// number from -2^255 up to 2^255 is one such integer.
pub proof fn wide_integers_are_numbers(x: I256, v: int)
    ensures
        x@ == x.hi * power2::pow2(128) + x.lo,
        -power2::pow2(255) <= v < power2::pow2(255) ==> I256::of(v)@ == v,
{
    number_laws::ranges_are_powers_of_two(0, 0, 0);
    if -power2::pow2(255) <= v < power2::pow2(255) {
        I256::lemma_of(v);
    }
}

/// The order of two types means what its specification says.
pub open spec fn ordered<A: PartialOrdSpec<B>, B>() -> bool {
    A::obeys_partial_cmp_spec()
}

/// **Wide integers compare** as the numbers they are, and are equal only where
/// these are.
pub proof fn wide_integers_compare(x: I256, y: I256)
    ensures
        ordered::<I256, I256>(),
        x == y <==> x@ == y@,
        x.partial_cmp_spec(&y) == Some(Ordering::Less) <==> x@ < y@,
        x.partial_cmp_spec(&y) == Some(Ordering::Equal) <==> x@ == y@,
        x.partial_cmp_spec(&y) == Some(Ordering::Greater) <==> x@ > y@,
{
    x.lemma_view();
}

/// **Bytes are digits to the base 256**, the least significant first.
pub proof fn bytes_are_digits(x: nat, n: nat, i: nat)
    requires
        i < n,
    ensures
        bytes::le_bytes(x, n).len() == n,
        bytes::le_bytes(x, n)[i as int] == (x as int / power::pow(256, i)) % 256,
    decreases i,
{
    bytes::lemma_le_bytes_len(x, n);
    bytes::lemma_le_bytes_len(x / 256, (n - 1) as nat);
    if i == 0 {
        power::lemma_pow0(256);
        div_mod::lemma_div_basics(x as int);
    } else {
        bytes_are_digits(x / 256, (n - 1) as nat, (i - 1) as nat);
        power::lemma_pow1(256);
        power::lemma_pow_adds(256, 1, (i - 1) as nat);
        power::lemma_pow_positive(256, (i - 1) as nat);
        div_mod::lemma_div_denominator(x as int, 256, power::pow(256, (i - 1) as nat));
    }
}

/// **Reading bytes.** No bytes are zero, and every byte put behind the others
/// counts 256 times as much as the one before it.
pub proof fn bytes_add_up(b: Seq<u8>, c: u8)
    ensures
        bytes::le_value(Seq::<u8>::empty()) == 0,
        bytes::le_value(seq![c]) == c,
        bytes::le_value(b.push(c)) == bytes::le_value(b) + c * power::pow(256, b.len()),
{
    let e: Seq<u8> = Seq::empty();
    assert(e.push(c) =~= seq![c]);
    assert(bytes::le_value(e) == 0);
    bytes::lemma_le_value_push(e, c);
    bytes::lemma_le_value_push(b, c);
    byte_weights(b.len());
    byte_weights(0);
    power::lemma_pow0(256);
    assert(c as nat * 1 == c);
}

/// **Weights of bytes** are powers of 256.
pub proof fn byte_weights(n: nat)
    ensures
        bytes::pow256(n) == power::pow(256, n),
    decreases n,
{
    reveal(power::pow);
    if n > 0 {
        byte_weights((n - 1) as nat);
    }
}

/// **Reading limbs.** No limbs are zero, and every limb put above the others
/// counts 2^64 times as much as the one before it.
pub proof fn limbs_add_up(s: Seq<u64>, x: u64)
    ensures
        value::val(Seq::<u64>::empty()) == 0,
        value::val(s.push(x)) == value::val(s) + x * power2::pow2(64 * s.len()),
        value::base() == power2::pow2(64),
        value::all_zero(s) <==> value::val(s) == 0,
{
    assert(s.push(x).drop_last() =~= s);
    number_laws::ranges_are_powers_of_two(0, 0, s.len());
    number_laws::ranges_are_powers_of_two(0, 0, 1);
    value::lemma_bpow_small();
    value::lemma_val_zero(s);
}

/// **Limb operations.** Multiplying and adding a word is what it says, and two
/// numbers compare as numbers.
pub proof fn limb_operations(acc: Seq<u64>, mul: u64, add: u64, a: nat, b: nat)
    ensures
        limbs::mul_add(acc, mul, add) == value::val(acc) * mul + add,
        limbs::order_of(a, b) == Order::Less <==> a < b,
        limbs::order_of(a, b) == Order::Equal <==> a == b,
        limbs::order_of(a, b) == Order::Greater <==> a > b,
{
}

/// **Fitting.** A magnitude is given back with its sign exactly where twice it
/// is below the power of two of its width.
pub proof fn fitting_magnitudes<const W: usize>(
    res: Option<(bool, [u64; W])>,
    neg: bool,
    m: nat,
)
    ensures
        arith::fits_symmetric(res, neg, m) && 2 * m < power2::pow2(64 * W as nat)
            ==> (res matches Some((n, mag)) && n == neg && value::val(mag@) == m),
        arith::fits_symmetric(res, neg, m) && 2 * m >= power2::pow2(64 * W as nat) ==> res is None,
{
    number_laws::ranges_are_powers_of_two(0, 0, W as nat);
}

/// **Reciprocals.** With 2^64 added, the reciprocal of a divisor is the largest
/// number whose product with it stays below 2^128.
pub proof fn reciprocals_are_largest(dn: u64)
    requires
        dn > 0,
    ensures
        ({
            let w: int = word_div::reciprocal(dn) + power2::pow2(64);
            &&& w * dn < power2::pow2(128)
            &&& (w + 1) * dn >= power2::pow2(128)
        }),
{
    power2::lemma2_to64();
    power2::lemma_pow2_adds(64, 64);
    let top: int = 0xffff_ffff_ffff_ffff_ffff_ffff_ffff_ffffint;
    let d: int = dn as int;
    let w: int = top / d;
    div_mod::lemma_fundamental_div_mod(top, d);
    div_mod::lemma_mod_bound(top, d);
    assert(w * d == d * w) by (nonlinear_arith);
    assert((w + 1) * d == d * w + d) by (nonlinear_arith);
}

/// **Equal limbs.** The numbers of two runs of limbs of one length are equal
/// only where the limbs are.
pub proof fn limbs_are_unique(s: Seq<u64>, t: Seq<u64>)
    requires
        s.len() == t.len(),
        value::val(s) == value::val(t),
    ensures
        s == t,
    decreases s.len(),
{
    if s.len() > 0 {
        let p: int = value::bpow((s.len() - 1) as nat) as int;
        let x: int = s.last() as int;
        let y: int = t.last() as int;
        value::lemma_val_bound(s.drop_last());
        value::lemma_val_bound(t.drop_last());
        assert(x > y ==> x * p >= y * p + p) by (nonlinear_arith)
            requires
                p > 0,
        ;
        assert(x < y ==> x * p + p <= y * p) by (nonlinear_arith)
            requires
                p > 0,
        ;
        limbs_are_unique(s.drop_last(), t.drop_last());
        assert(s =~= s.drop_last().push(s.last()));
        assert(t =~= t.drop_last().push(t.last()));
    } else {
        assert(s =~= t);
    }
}

} // verus!
