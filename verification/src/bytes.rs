//! Byte representations of unsigned words.

use vstd::prelude::*;

verus! {

/// 256^n.
pub open spec fn pow256(n: nat) -> nat
    decreases n,
{
    if n == 0 {
        1
    } else {
        256 * pow256((n - 1) as nat)
    }
}

/// The number that `b` writes, least significant byte first.
pub open spec fn le_value(b: Seq<u8>) -> nat
    decreases b.len(),
{
    if b.len() == 0 {
        0
    } else {
        b[0] as nat + 256 * le_value(b.skip(1))
    }
}

/// The low `n` bytes of `x`, least significant first.
pub open spec fn le_bytes(x: nat, n: nat) -> Seq<u8>
    decreases n,
{
    if n == 0 {
        Seq::empty()
    } else {
        seq![(x % 256) as u8] + le_bytes(x / 256, (n - 1) as nat)
    }
}

pub proof fn lemma_le_bytes_len(x: nat, n: nat)
    ensures
        le_bytes(x, n).len() == n,
    decreases n,
{
    if n > 0 {
        lemma_le_bytes_len(x / 256, (n - 1) as nat);
    }
}

/// The bytes of a number write that number.
pub proof fn lemma_value_of_bytes(x: nat, n: nat)
    requires
        x < pow256(n),
    ensures
        le_value(le_bytes(x, n)) == x,
    decreases n,
{
    if n > 0 {
        let b: Seq<u8> = le_bytes(x, n);
        let h: nat = x / 256;
        lemma_value_of_bytes(h, (n - 1) as nat);
        assert(b.skip(1) =~= le_bytes(h, (n - 1) as nat));
    }
}

/// A number is written by its own bytes only.
pub proof fn lemma_bytes_of_value(b: Seq<u8>)
    ensures
        le_bytes(le_value(b), b.len()) == b,
        le_value(b) < pow256(b.len()),
    decreases b.len(),
{
    if b.len() > 0 {
        let t: Seq<u8> = b.skip(1);
        lemma_bytes_of_value(t);
        let x: nat = le_value(b);
        assert(x % 256 == b[0] && x / 256 == le_value(t));
        assert(le_bytes(x, b.len()) =~= b);
    } else {
        assert(le_bytes(0, 0) =~= b);
    }
}

pub proof fn lemma_pow256_words()
    ensures
        pow256(8) == 0x1_0000_0000_0000_0000,
        pow256(16) == 0x1_0000_0000_0000_0000_0000_0000_0000_0000,
        pow256(32) == 0x1_0000_0000_0000_0000_0000_0000_0000_0000_0000_0000_0000_0000_0000_0000_0000_0000,
{
    reveal_with_fuel(pow256, 33);
}

/// A byte further on carries 256 times the weight.
pub proof fn lemma_le_value_push(b: Seq<u8>, c: u8)
    ensures
        le_value(b.push(c)) == le_value(b) + c as nat * pow256(b.len()),
    decreases b.len(),
{
    let t: Seq<u8> = b.push(c);
    if b.len() == 0 {
        assert(t.skip(1) =~= Seq::<u8>::empty());
        assert(le_value(t.skip(1)) == 0);
        assert(c as nat * 1 == c as nat);
    } else {
        assert(t.skip(1) =~= b.skip(1).push(c));
        lemma_le_value_push(b.skip(1), c);
        let p: nat = pow256((b.len() - 1) as nat);
        let k: nat = c as nat;
        assert(256 * (k * p) == k * (256 * p)) by (nonlinear_arith);
    }
}

/// Two runs of bytes, one after the other.
pub proof fn lemma_le_value_concat(a: Seq<u8>, b: Seq<u8>)
    ensures
        le_value(a + b) == le_value(a) + pow256(a.len()) * le_value(b),
    decreases b.len(),
{
    if b.len() == 0 {
        assert(a + b =~= a);
        assert(le_value(b) == 0);
        assert(pow256(a.len()) * 0 == 0);
    } else {
        let t: Seq<u8> = b.drop_last();
        lemma_le_value_concat(a, t);
        lemma_le_value_push(a + t, b.last());
        lemma_le_value_push(t, b.last());
        assert((a + t).push(b.last()) =~= a + b);
        assert(t.push(b.last()) =~= b);
        lemma_pow256_add(a.len(), t.len());
        let p: int = pow256(a.len()) as int;
        let q: int = pow256(t.len()) as int;
        let c: int = b.last() as int;
        let v: int = le_value(t) as int;
        assert(p * (v + c * q) == p * v + c * (p * q)) by (nonlinear_arith);
    }
}

pub proof fn lemma_pow256_add(a: nat, b: nat)
    ensures
        pow256(a + b) == pow256(a) * pow256(b),
    decreases a,
{
    if a == 0 {
        assert(1 * pow256(b) == pow256(b));
    } else {
        lemma_pow256_add((a - 1) as nat, b);
        let p: nat = pow256((a - 1) as nat);
        let q: nat = pow256(b);
        assert(256 * (p * q) == (256 * p) * q) by (nonlinear_arith);
    }
}

/// The bytes of a word, least significant first.
pub fn to_le<const N: usize>(x: u128) -> (b: [u8; N])
    requires
        x < pow256(N as nat),
    ensures
        b@ == le_bytes(x as nat, N as nat),
        le_value(b@) == x,
{
    let mut b: [u8; N] = [0u8; N];
    let mut rest: u128 = x;
    let mut i: usize = 0;
    proof {
        lemma_le_bytes_len(x as nat, N as nat);
    }
    while i < N
        invariant
            i <= N,
            b@.len() == N,
            le_bytes(x as nat, N as nat) =~= b@.take(i as int) + le_bytes(
                rest as nat,
                (N - i) as nat,
            ),
        decreases N - i,
    {
        let ghost head: Seq<u8> = b@.take(i as int);
        let c: u8 = (rest % 256) as u8;
        b[i] = c;
        proof {
            assert(b@.take(i + 1) =~= head.push(c));
            assert(le_bytes(rest as nat, (N - i) as nat) == seq![c] + le_bytes(
                rest as nat / 256,
                (N - i - 1) as nat,
            ));
            assert(head.push(c) + le_bytes(rest as nat / 256, (N - i - 1) as nat) =~= head + (
            seq![c] + le_bytes(rest as nat / 256, (N - i - 1) as nat)));
        }
        rest = rest / 256;
        i += 1;
    }
    proof {
        assert(b@.take(N as int) =~= b@);
        assert(le_bytes(rest as nat, 0) =~= Seq::<u8>::empty());
        assert(b@ =~= le_bytes(x as nat, N as nat));
        lemma_value_of_bytes(x as nat, N as nat);
    }
    b
}

/// The word that bytes write, least significant first.
pub fn from_le<const N: usize>(b: &[u8; N]) -> (x: u128)
    requires
        N <= 16,
    ensures
        x == le_value(b@),
        x < pow256(N as nat),
{
    let mut x: u128 = 0;
    let mut i: usize = N;
    proof {
        lemma_bytes_of_value(b@);
        assert(b@.skip(N as int) =~= Seq::<u8>::empty());
        assert(b@.skip(0) =~= b@);
    }
    while i > 0
        invariant
            i <= N <= 16,
            x == le_value(b@.skip(i as int)),
        decreases i,
    {
        i -= 1;
        proof {
            let t: Seq<u8> = b@.skip(i as int);
            assert(t.skip(1) =~= b@.skip(i + 1));
            lemma_bytes_of_value(t);
            lemma_pow256_words();
            lemma_pow256_mono(t.len(), 16);
        }
        x = x * 256 + b[i] as u128;
    }
    x
}

proof fn lemma_pow256_mono(a: nat, b: nat)
    requires
        a <= b,
    ensures
        0 < pow256(a) <= pow256(b),
    decreases b,
{
    if a < b {
        lemma_pow256_mono(a, (b - 1) as nat);
    } else if a > 0 {
        lemma_pow256_mono((a - 1) as nat, (a - 1) as nat);
    }
}

/// Bytes in the opposite order.
pub fn reversed<const N: usize>(b: &[u8; N]) -> (r: [u8; N])
    ensures
        r@ == b@.reverse(),
{
    let mut r: [u8; N] = [0u8; N];
    let mut i: usize = 0;
    while i < N
        invariant
            i <= N,
            b@.len() == N,
            r@.len() == N,
            forall|k: int| 0 <= k < i ==> r@[k] == b@[N - 1 - k],
        decreases N - i,
    {
        r[i] = b[N - 1 - i];
        i += 1;
    }
    assert(r@ =~= b@.reverse());
    r
}

/// The unsigned word with the same bits as a signed one.
pub open spec fn bits64(v: int) -> nat {
    if v < 0 {
        (v + 0x1_0000_0000_0000_0000) as nat
    } else {
        v as nat
    }
}

/// The unsigned double word with the same bits as a signed one.
pub open spec fn bits128(v: int) -> nat {
    if v < 0 {
        (v + 0x1_0000_0000_0000_0000_0000_0000_0000_0000) as nat
    } else {
        v as nat
    }
}

/// The bits of a signed word.
pub fn i64_bits(v: i64) -> (r: u64)
    ensures
        r == bits64(v as int),
{
    if v >= 0 {
        v as u64
    } else {
        u64::MAX - (-1 - v) as u64
    }
}

/// The signed word with given bits.
pub fn i64_from_bits(b: u64) -> (v: i64)
    ensures
        b == bits64(v as int),
{
    if b <= i64::MAX as u64 {
        b as i64
    } else {
        -1 - (u64::MAX - b) as i64
    }
}

/// The bits of a signed double word.
pub fn i128_bits(v: i128) -> (r: u128)
    ensures
        r == bits128(v as int),
{
    if v >= 0 {
        v as u128
    } else {
        u128::MAX - (-1 - v) as u128
    }
}

/// The signed double word with given bits.
pub fn i128_from_bits(b: u128) -> (v: i128)
    ensures
        b == bits128(v as int),
{
    if b <= i128::MAX as u128 {
        b as i128
    } else {
        -1 - (u128::MAX - b) as i128
    }
}

/// `u64::to_ne_bytes`: the bytes of a word in the order of the machine, which
/// is least significant first or most significant first.
///
/// Which of the two orders a machine has is left open.
#[verifier::external_body]
pub(crate) fn word_to_ne(x: u64) -> (b: [u8; 8])
    ensures
        b@ == le_bytes(x as nat, 8) || b@ == le_bytes(x as nat, 8).reverse(),
{
    x.to_ne_bytes()
}

/// `u64::from_ne_bytes`: the word whose bytes in the order of the machine are
/// given.
///
/// Which of the two orders a machine has is left open.
#[verifier::external_body]
pub(crate) fn word_from_ne(b: [u8; 8]) -> (x: u64)
    ensures
        x == le_value(b@) || x == le_value(b@.reverse()),
{
    u64::from_ne_bytes(b)
}

} // verus!
