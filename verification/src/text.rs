//! Decimal text: how a run of ASCII bytes denotes a number.

use crate::pow10;
use vstd::prelude::*;

verus! {

/// An ASCII decimal digit.
pub open spec fn is_digit(c: u8) -> bool {
    0x30 <= c <= 0x39
}

/// The decimal point.
pub open spec fn is_point(c: u8) -> bool {
    c == 0x2e
}

/// The number that the digits of `b` write, whatever stands between them.
pub open spec fn digits_value(b: Seq<u8>) -> nat
    decreases b.len(),
{
    if b.len() == 0 {
        0
    } else if is_digit(b.last()) {
        10 * digits_value(b.drop_last()) + (b.last() - 0x30) as nat
    } else {
        digits_value(b.drop_last())
    }
}

/// How many digits `b` holds.
pub open spec fn digit_count(b: Seq<u8>) -> nat
    decreases b.len(),
{
    if b.len() == 0 {
        0
    } else if is_digit(b.last()) {
        digit_count(b.drop_last()) + 1
    } else {
        digit_count(b.drop_last())
    }
}

/// Whether `b` holds a decimal point.
pub open spec fn has_point(b: Seq<u8>) -> bool {
    exists|i: int| 0 <= i < b.len() && is_point(#[trigger] b[i])
}

/// How many digits of `b` stand after a decimal point.
pub open spec fn frac_count(b: Seq<u8>) -> nat
    decreases b.len(),
{
    if b.len() == 0 {
        0
    } else if is_digit(b.last()) && has_point(b.drop_last()) {
        frac_count(b.drop_last()) + 1
    } else {
        frac_count(b.drop_last())
    }
}

/// Whether the byte `c` may follow the text `b`: a digit always may, a point
/// only where there is none yet.
pub open spec fn may_follow(b: Seq<u8>, c: u8) -> bool {
    is_digit(c) || (is_point(c) && !has_point(b))
}

/// The length of the longest prefix of `b` made of digits and at most one point.
pub open spec fn good_len(b: Seq<u8>) -> nat
    decreases b.len(),
{
    if b.len() == 0 {
        0
    } else {
        let g: nat = good_len(b.drop_last());
        if g == b.len() - 1 && may_follow(b.drop_last(), b.last()) {
            b.len()
        } else {
            g
        }
    }
}

/// Digits and at most one point, nothing else.
pub open spec fn is_plain(b: Seq<u8>) -> bool {
    good_len(b) == b.len()
}

/// Whether the text starts with a minus sign.
pub open spec fn is_negative(s: Seq<u8>) -> bool {
    s.len() > 0 && s[0] == 0x2d
}

/// The text without its sign.
pub open spec fn unsigned_part(s: Seq<u8>) -> Seq<u8> {
    if s.len() > 0 && (s[0] == 0x2b || s[0] == 0x2d) {
        s.skip(1)
    } else {
        s
    }
}

/// One more byte at the end of a text.
pub proof fn lemma_step(b: Seq<u8>, i: int)
    requires
        0 <= i < b.len(),
    ensures
        b.take(i + 1).drop_last() == b.take(i),
        b.take(i + 1).last() == b[i],
        b.take(i + 1).len() == i + 1,
        digits_value(b.take(i + 1)) == (if is_digit(b[i]) {
            10 * digits_value(b.take(i)) + (b[i] - 0x30) as nat
        } else {
            digits_value(b.take(i))
        }),
        digit_count(b.take(i + 1)) == digit_count(b.take(i)) + (if is_digit(b[i]) {
            1nat
        } else {
            0nat
        }),
        frac_count(b.take(i + 1)) == frac_count(b.take(i)) + (if is_digit(b[i]) && has_point(
            b.take(i),
        ) {
            1nat
        } else {
            0nat
        }),
        has_point(b.take(i + 1)) <==> has_point(b.take(i)) || is_point(b[i]),
        good_len(b.take(i + 1)) == (if good_len(b.take(i)) == i && may_follow(b.take(i), b[i]) {
            (i + 1) as nat
        } else {
            good_len(b.take(i))
        }),
{
    assert(b.take(i + 1).drop_last() =~= b.take(i));
    let p: Seq<u8> = b.take(i);
    let q: Seq<u8> = b.take(i + 1);
    if has_point(p) {
        let k: int = choose|k: int| 0 <= k < p.len() && is_point(#[trigger] p[k]);
        assert(is_point(q[k]));
    }
    if is_point(b[i]) {
        assert(is_point(q[i]));
    }
    if has_point(q) {
        let k: int = choose|k: int| 0 <= k < q.len() && is_point(#[trigger] q[k]);
        if k < i {
            assert(is_point(p[k]));
        }
    }
}

/// The good part never ends before a good prefix does, and never runs past a
/// byte that may not follow.
pub proof fn lemma_good_len(b: Seq<u8>, i: int)
    requires
        0 <= i <= b.len(),
        good_len(b.take(i)) == i,
    ensures
        i <= good_len(b) <= b.len(),
        i < b.len() && !may_follow(b.take(i), b[i]) ==> good_len(b) == i,
        i == b.len() ==> is_plain(b),
    decreases b.len(),
{
    if i == b.len() {
        assert(b.take(i) =~= b);
    } else {
        let n: int = b.len() - 1;
        let t: Seq<u8> = b.drop_last();
        assert(t.take(i) =~= b.take(i));
        lemma_good_len(t, i);
        assert(b.take(n) =~= t);
        assert(b.take(n + 1) =~= b);
        lemma_step(b, n);
    }
}

/// The good part is no longer than the text.
pub proof fn lemma_good_bound(b: Seq<u8>)
    ensures
        good_len(b) <= b.len(),
    decreases b.len(),
{
    if b.len() > 0 {
        lemma_good_bound(b.drop_last());
    }
}

/// The digits after the point are among the digits, and the point is a byte.
pub proof fn lemma_counts(b: Seq<u8>)
    ensures
        frac_count(b) <= digit_count(b) <= b.len(),
        has_point(b) ==> frac_count(b) + 1 <= b.len(),
        !has_point(b) ==> frac_count(b) == 0,
        digits_value(b) < pow10::pow10(digit_count(b)),
    decreases b.len(),
{
    if b.len() > 0 {
        let n: int = b.len() - 1;
        assert(b.take(n) =~= b.drop_last());
        assert(b.take(n + 1) =~= b);
        lemma_step(b, n);
        lemma_counts(b.drop_last());
    }
}

} // verus!
