//! Powers of ten: their mathematics, and the bounded tables of them.

use vstd::prelude::*;

verus! {

/// 10^n.
pub open spec fn pow10(n: nat) -> nat
    decreases n,
{
    if n == 0 {
        1
    } else {
        10 * pow10((n - 1) as nat)
    }
}

/// 10^d for a digit count held in a byte.
pub open spec fn p10(d: u8) -> nat {
    pow10(d as nat)
}

pub proof fn lemma_pow10_pos(n: nat)
    ensures
        pow10(n) > 0,
    decreases n,
{
    if n > 0 {
        lemma_pow10_pos((n - 1) as nat);
    }
}

pub proof fn lemma_pow10_add(a: nat, b: nat)
    ensures
        pow10(a + b) == pow10(a) * pow10(b),
    decreases a,
{
    if a == 0 {
        assert(pow10(0) * pow10(b) == pow10(b)) by (nonlinear_arith)
            requires
                pow10(0) == 1,
        ;
    } else {
        lemma_pow10_add((a - 1) as nat, b);
        let p: nat = pow10((a - 1) as nat);
        let q: nat = pow10(b);
        assert((10 * p) * q == 10 * (p * q)) by (nonlinear_arith);
        assert(((a - 1) as nat) + b == (a + b - 1) as nat);
    }
}

pub proof fn lemma_pow10_strict_mono(a: nat, b: nat)
    requires
        a < b,
    ensures
        pow10(a) < pow10(b),
    decreases b,
{
    lemma_pow10_pos((b - 1) as nat);
    if a < b - 1 {
        lemma_pow10_strict_mono(a, (b - 1) as nat);
    }
}

pub proof fn lemma_pow10_mono(a: nat, b: nat)
    requires
        a <= b,
    ensures
        pow10(a) <= pow10(b),
{
    if a < b {
        lemma_pow10_strict_mono(a, b);
    }
}

pub proof fn lemma_pow10_even(n: nat)
    requires
        n > 0,
    ensures
        pow10(n) % 2 == 0,
{
}

/// The powers that fit one 64-bit word.
pub proof fn lemma_pow10_words()
    ensures
        pow10(0) == 1,
        pow10(1) == 10,
        pow10(2) == 100,
        pow10(3) == 1_000,
        pow10(4) == 10_000,
        pow10(5) == 100_000,
        pow10(6) == 1_000_000,
        pow10(7) == 10_000_000,
        pow10(8) == 100_000_000,
        pow10(9) == 1_000_000_000,
        pow10(10) == 10_000_000_000,
        pow10(11) == 100_000_000_000,
        pow10(12) == 1_000_000_000_000,
        pow10(13) == 10_000_000_000_000,
        pow10(14) == 100_000_000_000_000,
        pow10(15) == 1_000_000_000_000_000,
        pow10(16) == 10_000_000_000_000_000,
        pow10(17) == 100_000_000_000_000_000,
        pow10(18) == 1_000_000_000_000_000_000,
        pow10(19) == 10_000_000_000_000_000_000,
{
    assert(pow10(0) == 1);
    assert(pow10(1) == 10);
    assert(pow10(2) == 100);
    assert(pow10(3) == 1_000);
    assert(pow10(4) == 10_000);
    assert(pow10(5) == 100_000);
    assert(pow10(6) == 1_000_000);
    assert(pow10(7) == 10_000_000);
    assert(pow10(8) == 100_000_000);
    assert(pow10(9) == 1_000_000_000);
    assert(pow10(10) == 10_000_000_000);
    assert(pow10(11) == 100_000_000_000);
    assert(pow10(12) == 1_000_000_000_000);
    assert(pow10(13) == 10_000_000_000_000);
    assert(pow10(14) == 100_000_000_000_000);
    assert(pow10(15) == 1_000_000_000_000_000);
    assert(pow10(16) == 10_000_000_000_000_000);
    assert(pow10(17) == 100_000_000_000_000_000);
    assert(pow10(18) == 1_000_000_000_000_000_000);
    assert(pow10(19) == 10_000_000_000_000_000_000);
}

/// A power of at most 19 fits a word.
pub proof fn lemma_p10_word(d: u8)
    requires
        d <= 19,
    ensures
        1 <= p10(d) <= 10_000_000_000_000_000_000,
        d >= 1 ==> p10(d) % 2 == 0 && p10(d) >= 10,
        d == 0 ==> p10(d) == 1,
        d <= 18 ==> p10(d) <= 1_000_000_000_000_000_000,
{
    lemma_pow10_words();
    lemma_pow10_pos(d as nat);
    lemma_pow10_mono(d as nat, 19);
    if d <= 18 {
        lemma_pow10_mono(d as nat, 18);
    }
    if d >= 1 {
        lemma_pow10_mono(1, d as nat);
    }
}

/// Computes 10^pow as a word. Valid for `pow <= 19` (10^19 < 2^64).
pub fn upow10(pow: u32) -> (r: u64)
    requires
        pow <= 19,
    ensures
        r == pow10(pow as nat),
{
    proof {
        lemma_pow10_words();
    }
    let table: [u64; 20] = [
        1,
        10,
        100,
        1_000,
        10_000,
        100_000,
        1_000_000,
        10_000_000,
        100_000_000,
        1_000_000_000,
        10_000_000_000,
        100_000_000_000,
        1_000_000_000_000,
        10_000_000_000_000,
        100_000_000_000_000,
        1_000_000_000_000_000,
        10_000_000_000_000_000,
        100_000_000_000_000_000,
        1_000_000_000_000_000_000,
        10_000_000_000_000_000_000,
    ];
    table[pow as usize]
}

/// What [`ipow10`] returns: 10^pow where that fits an `i64`, 1 below the range
/// and 0 above it.
pub open spec fn ipow10_spec(pow: int) -> int {
    if pow <= 0 {
        1
    } else if pow > 18 {
        0
    } else {
        pow10(pow as nat) as int
    }
}

/// Computes a power of ten for exponents 0 to 18, which fit the `i64` range.
/// Returns 1 if `pow` is negative and 0 if the result would overflow.
pub fn ipow10(pow: i64) -> (r: i64)
    ensures
        r == ipow10_spec(pow as int),
{
    if pow <= 0 {
        1
    } else if pow > 18 {
        0
    } else {
        proof {
            lemma_pow10_mono(pow as nat, 18);
            lemma_pow10_words();
        }
        upow10(pow as u32) as i64
    }
}

/// Computes 10^pow as an `i128` for non-negative `pow`.
/// Returns `None` if `pow` is negative or the result overflows.
pub fn ipow10_i128(pow: i64) -> (r: Option<i128>)
    ensures
        r matches Some(v) ==> pow >= 0 && v == pow10(pow as nat),
        r is None ==> pow < 0 || pow10(pow as nat) > i128::MAX,
{
    if pow < 0 {
        return None;
    }
    let mut result: i128 = 1;
    let mut i: i64 = 0;
    while i < pow
        invariant
            0 <= i <= pow,
            result == pow10(i as nat),
        decreases pow - i,
    {
        match result.checked_mul(10) {
            Some(v) => {
                result = v;
            },
            None => {
                proof {
                    lemma_pow10_mono((i + 1) as nat, pow as nat);
                }
                return None;
            },
        }
        i += 1;
    }
    Some(result)
}

/// The scale of the wide decimal types: 10^digits. They have at most 19 digits;
/// beyond those it does not fit a word, and 0 stands for it.
pub open spec fn wide_scale(digits: u8) -> int {
    if digits <= 19 {
        p10(digits) as int
    } else {
        0
    }
}

/// Computes [`wide_scale`] as a word.
pub fn scale_word(digits: u8) -> (r: u64)
    ensures
        r == wide_scale(digits),
{
    if digits <= 19 {
        upow10(digits as u32)
    } else {
        0
    }
}

} // verus!
