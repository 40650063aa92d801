//! The number a little-endian sequence of 64-bit limbs stands for.

use vstd::prelude::*;

verus! {

/// The radix of one limb, 2^64.
#[verifier::inline]
pub open spec fn base() -> nat {
    0x1_0000_0000_0000_0000
}

/// The weight of the limb at position `n`, 2^(64 n).
pub open spec fn bpow(n: nat) -> nat
    decreases n,
{
    if n == 0 {
        1
    } else {
        base() * bpow((n - 1) as nat)
    }
}

/// The natural number written by `s`, least significant limb first.
pub open spec fn val(s: Seq<u64>) -> nat
    decreases s.len(),
{
    if s.len() == 0 {
        0
    } else {
        val(s.drop_last()) + s.last() as nat * bpow((s.len() - 1) as nat)
    }
}

/// Every limb of `s` is zero.
pub open spec fn all_zero(s: Seq<u64>) -> bool {
    forall|i: int| 0 <= i < s.len() ==> s[i] == 0
}

pub proof fn lemma_bpow_pos(n: nat)
    ensures
        bpow(n) > 0,
    decreases n,
{
    if n > 0 {
        lemma_bpow_pos((n - 1) as nat);
    }
}

pub proof fn lemma_bpow_add(a: nat, b: nat)
    ensures
        bpow(a + b) == bpow(a) * bpow(b),
    decreases a,
{
    if a == 0 {
        assert(bpow(0) * bpow(b) == bpow(b)) by (nonlinear_arith)
            requires
                bpow(0) == 1,
        ;
    } else {
        lemma_bpow_add((a - 1) as nat, b);
        let p: nat = bpow((a - 1) as nat);
        let q: nat = bpow(b);
        assert((base() * p) * q == base() * (p * q)) by (nonlinear_arith);
        assert(((a - 1) as nat) + b == (a + b - 1) as nat);
    }
}

pub proof fn lemma_bpow_mono(a: nat, b: nat)
    requires
        a <= b,
    ensures
        bpow(a) <= bpow(b),
    decreases b,
{
    if a < b {
        lemma_bpow_mono(a, (b - 1) as nat);
        lemma_bpow_pos((b - 1) as nat);
    }
}

pub proof fn lemma_bpow_small()
    ensures
        bpow(0) == 1,
        bpow(1) == base(),
        bpow(2) == 0x1_0000_0000_0000_0000_0000_0000_0000_0000,
        bpow(4) == 0x1_0000_0000_0000_0000_0000_0000_0000_0000_0000_0000_0000_0000_0000_0000_0000_0000,
{
    assert(bpow(0) == 1);
    assert(bpow(1) == base() * bpow(0));
    assert(bpow(2) == base() * bpow(1));
    assert(bpow(3) == base() * bpow(2));
    assert(bpow(4) == base() * bpow(3));
}

pub proof fn lemma_val_take_step(s: Seq<u64>, i: int)
    requires
        0 <= i < s.len(),
    ensures
        val(s.take(i + 1)) == val(s.take(i)) + s[i] as nat * bpow(i as nat),
{
    assert(s.take(i + 1).drop_last() =~= s.take(i));
}

pub proof fn lemma_val_take_all(s: Seq<u64>)
    ensures
        val(s.take(s.len() as int)) == val(s),
        val(s.take(0)) == 0,
{
    assert(s.take(s.len() as int) =~= s);
}

pub proof fn lemma_val_bound(s: Seq<u64>)
    ensures
        val(s) < bpow(s.len()),
    decreases s.len(),
{
    if s.len() > 0 {
        lemma_val_bound(s.drop_last());
        let p: int = bpow((s.len() - 1) as nat) as int;
        let x: int = s.last() as int;
        assert(x * p + p <= base() * p) by (nonlinear_arith)
            requires
                0 <= x <= 0xffff_ffff_ffff_ffff,
                p >= 0,
        ;
    }
}

/// Splitting a number between two limbs.
pub proof fn lemma_val_split(s: Seq<u64>, i: int)
    requires
        0 <= i <= s.len(),
    ensures
        val(s) == val(s.take(i)) + bpow(i as nat) * val(s.skip(i)),
    decreases s.len() - i,
{
    if i == s.len() {
        assert(s.take(i) =~= s);
        assert(s.skip(i) =~= Seq::<u64>::empty());
        assert(bpow(i as nat) * 0 == 0);
    } else {
        let t: Seq<u64> = s.drop_last();
        lemma_val_split(t, i);
        assert(t.take(i) =~= s.take(i));
        assert(s.skip(i).drop_last() =~= t.skip(i));
        let k: nat = (s.len() - 1 - i) as nat;
        lemma_bpow_add(i as nat, k);
        assert(s.skip(i).last() == s.last());
        let b: int = bpow(i as nat) as int;
        let x: int = s.last() as int;
        let p: int = bpow(k) as int;
        let v: int = val(t.skip(i)) as int;
        assert(b * (v + x * p) == b * v + x * (b * p)) by (nonlinear_arith);
    }
}

pub proof fn lemma_val_skip_step(s: Seq<u64>, i: int)
    requires
        0 <= i < s.len(),
    ensures
        val(s.skip(i)) == s[i] as nat + base() * val(s.skip(i + 1)),
{
    let t: Seq<u64> = s.skip(i);
    lemma_val_split(t, 1);
    assert(t.take(1).drop_last() =~= Seq::<u64>::empty());
    assert(val(Seq::<u64>::empty()) == 0);
    assert(val(t.take(1)) == s[i] as nat * bpow(0));
    assert(t.skip(1) =~= s.skip(i + 1));
    lemma_bpow_small();
}

pub proof fn lemma_val_skip_ends(s: Seq<u64>)
    ensures
        val(s.skip(0)) == val(s),
        val(s.skip(s.len() as int)) == 0,
{
    assert(s.skip(0) =~= s);
    assert(s.skip(s.len() as int) =~= Seq::<u64>::empty());
}

/// Setting one limb changes the value by its weight.
pub proof fn lemma_val_update(s: Seq<u64>, i: int, x: u64)
    requires
        0 <= i < s.len(),
    ensures
        val(s.update(i, x)) == val(s) + (x - s[i]) * bpow(i as nat),
{
    let t: Seq<u64> = s.update(i, x);
    lemma_val_split(s, i);
    lemma_val_split(t, i);
    lemma_val_skip_step(s, i);
    lemma_val_skip_step(t, i);
    assert(t.take(i) =~= s.take(i));
    assert(t.skip(i + 1) =~= s.skip(i + 1));
    let b: int = bpow(i as nat) as int;
    let h: int = (base() * val(s.skip(i + 1))) as int;
    let old_x: int = s[i] as int;
    let new_x: int = x as int;
    assert(b * (new_x + h) == b * (old_x + h) + (new_x - old_x) * b) by (nonlinear_arith);
}

pub proof fn lemma_val_zero(s: Seq<u64>)
    ensures
        all_zero(s) <==> val(s) == 0,
    decreases s.len(),
{
    if s.len() > 0 {
        let t: Seq<u64> = s.drop_last();
        lemma_val_zero(t);
        lemma_bpow_pos((s.len() - 1) as nat);
        let p: int = bpow((s.len() - 1) as nat) as int;
        let x: int = s.last() as int;
        assert(x * p == 0 <==> x == 0) by (nonlinear_arith)
            requires
                p > 0,
        ;
        if all_zero(s) {
            assert(all_zero(t));
        }
        if val(s) == 0 {
            assert(x * p >= 0) by (nonlinear_arith)
                requires
                    x >= 0,
                    p > 0,
            ;
            assert forall|i: int| 0 <= i < s.len() implies s[i] == 0 by {
                if i < t.len() {
                    assert(s[i] == t[i]);
                }
            }
        }
    }
}

/// High limbs that are zero add nothing.
pub proof fn lemma_val_high_zero(s: Seq<u64>, i: int)
    requires
        0 <= i <= s.len(),
        all_zero(s.skip(i)),
    ensures
        val(s) == val(s.take(i)),
{
    lemma_val_split(s, i);
    lemma_val_zero(s.skip(i));
    assert(bpow(i as nat) * 0 == 0);
}

/// A value below the weight of limb `i` has only zeros from limb `i` on.
pub proof fn lemma_val_small_high_zero(s: Seq<u64>, i: int)
    requires
        0 <= i <= s.len(),
    ensures
        val(s) < bpow(i as nat) <==> all_zero(s.skip(i)),
{
    lemma_val_split(s, i);
    lemma_val_bound(s.take(i));
    lemma_val_zero(s.skip(i));
    let b: int = bpow(i as nat) as int;
    let h: int = val(s.skip(i)) as int;
    lemma_bpow_pos(i as nat);
    if h > 0 {
        assert(b * h >= b) by (nonlinear_arith)
            requires
                b > 0,
                h >= 1,
        ;
    } else {
        assert(b * h == 0) by (nonlinear_arith)
            requires
                h == 0,
        ;
    }
}

pub proof fn lemma_val_one(x: u64)
    ensures
        val(seq![x]) == x,
{
    assert(seq![x].drop_last() =~= Seq::<u64>::empty());
    assert(val(Seq::<u64>::empty()) == 0);
    lemma_bpow_small();
    assert(val(seq![x]) == val(Seq::<u64>::empty()) + x as nat * bpow(0));
}

pub proof fn lemma_val_two(x: u64, y: u64)
    ensures
        val(seq![x, y]) == x + y * base(),
{
    assert(seq![x, y].drop_last() =~= seq![x]);
    lemma_val_one(x);
    lemma_bpow_small();
}

pub proof fn lemma_val_four(s: Seq<u64>)
    requires
        s.len() == 4,
    ensures
        val(s) == s[0] + s[1] * bpow(1) + s[2] * bpow(2) + s[3] * bpow(3),
{
    lemma_val_take_all(s);
    lemma_val_take_step(s, 0);
    lemma_val_take_step(s, 1);
    lemma_val_take_step(s, 2);
    lemma_val_take_step(s, 3);
    lemma_bpow_small();
}

/// Four limbs as two double words.
pub proof fn lemma_val_halves(s: Seq<u64>)
    requires
        s.len() == 4,
    ensures
        val(s) == (s[0] + s[1] * base()) + (s[2] + s[3] * base())
            * 0x1_0000_0000_0000_0000_0000_0000_0000_0000,
{
    lemma_val_four(s);
    lemma_bpow_small();
    let p: int = bpow(1) as int;
    let q: int = bpow(2) as int;
    let r: int = bpow(3) as int;
    let x: int = s[1] as int;
    let y: int = s[2] as int;
    let z: int = s[3] as int;
    assert(x * p == x * base()) by (nonlinear_arith)
        requires
            p == base(),
    ;
    assert(y * q == y * 0x1_0000_0000_0000_0000_0000_0000_0000_0000) by (nonlinear_arith)
        requires
            q == 0x1_0000_0000_0000_0000_0000_0000_0000_0000,
    ;
    assert(bpow(3) == base() * bpow(2));
    assert(z * r == (z * base()) * 0x1_0000_0000_0000_0000_0000_0000_0000_0000)
        by (nonlinear_arith)
        requires
            r == base() * 0x1_0000_0000_0000_0000_0000_0000_0000_0000,
    ;
}

} // verus!
