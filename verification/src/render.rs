//! Formatting scaled magnitudes as decimal text.

use crate::limbs::{div_words_by_pow10, div_words_by_word, is_zero, mul_add_word, sig_limbs};
use crate::pow10;
use crate::pow10::upow10;
use crate::rounding;
use crate::rounding::Rounding;
use crate::value;
use vstd::prelude::*;
use vstd::string::StringSliceAdditionalSpecFns;

verus! {

/// The error of [`core::str::from_utf8`]: where the bytes stop being UTF-8.
#[verifier::external_type_specification]
#[verifier::external_body]
pub struct ExUtf8Error(core::str::Utf8Error);

/// [`core::str::from_utf8`] succeeds exactly on valid UTF-8, and then hands the
/// same bytes back as a string.
pub assume_specification[ core::str::from_utf8 ](v: &[u8]) -> (r: Result<
    &str,
    core::str::Utf8Error,
>)
    ensures
        r is Ok <==> vstd::utf8::valid_utf8(v@),
        r matches Ok(s) ==> s.spec_bytes() == v@,
;

/// Defines how to display the sign of the parsed number.
#[derive(Debug, Clone, Copy, PartialEq, Eq, Structural)]
pub enum AmountSign {
    /// Omit the sign entirely.
    NoSign,
    /// Display only the negative sign.
    Negative,
    /// Always display the sign (+ or -).
    Always,
}

/// The decimal digit of `n` at position `i`, counted from the right.
pub open spec fn digit_at(n: nat, i: nat) -> nat {
    (n / pow10::pow10(i)) % 10
}

/// The ASCII byte of a digit.
pub open spec fn ascii(d: nat) -> u8 {
    (0x30 + d) as u8
}

/// `n` in decimal, without leading zeros; zero is one digit.
pub open spec fn dec_digits(n: nat) -> Seq<u8>
    decreases n,
{
    if n < 10 {
        seq![ascii(n)]
    } else {
        dec_digits(n / 10).push(ascii(n % 10))
    }
}

/// The last `k` decimal digits of `n`, zeros included.
pub open spec fn fixed_digits(n: nat, k: nat) -> Seq<u8>
    decreases k,
{
    if k == 0 {
        Seq::empty()
    } else {
        fixed_digits(n / 10, (k - 1) as nat).push(ascii(n % 10))
    }
}

/// `n / 10^f` in decimal with exactly `f` fractional digits.
pub open spec fn plain_text(n: nat, f: nat) -> Seq<u8> {
    if f == 0 {
        dec_digits(n)
    } else {
        dec_digits(n / pow10::pow10(f)) + seq![0x2eu8] + fixed_digits(n, f)
    }
}

/// `n / 10^f` without its trailing fractional zeros.
pub open spec fn trim(n: nat, f: nat) -> (nat, nat)
    decreases f,
{
    if f > 0 && n % 10 == 0 {
        trim(n / 10, (f - 1) as nat)
    } else {
        (n, f)
    }
}

/// `n / 10^f` at `p` fractional digits: rounded half away from zero, or
/// extended with zeros.
pub open spec fn at_precision(n: nat, f: nat, p: nat) -> nat {
    if p < f {
        rounding::round_mag(n, pow10::pow10((f - p) as nat), false, Rounding::HalfUp)
    } else {
        n * pow10::pow10((p - f) as nat)
    }
}

/// The digits of `n / 10^f`: without trailing zeros, or at a given precision.
pub open spec fn body_text(n: nat, f: nat, precision: Option<usize>) -> Seq<u8> {
    match precision {
        None => plain_text(trim(n, f).0, trim(n, f).1),
        Some(p) => plain_text(at_precision(n, f, p as nat), p as nat),
    }
}

/// The sign that stands before the digits. Zero has none.
pub open spec fn sign_text(neg: bool, zero: bool, sign: AmountSign) -> Seq<u8> {
    match sign {
        AmountSign::NoSign => Seq::empty(),
        AmountSign::Negative => if neg && !zero {
            seq![0x2du8]
        } else {
            Seq::empty()
        },
        AmountSign::Always => if zero {
            Seq::empty()
        } else if neg {
            seq![0x2du8]
        } else {
            seq![0x2bu8]
        },
    }
}

/// The whole text of a number with the sign `neg` and the magnitude `n / 10^f`.
pub open spec fn decimal_text(
    n: nat,
    neg: bool,
    f: nat,
    precision: Option<usize>,
    sign: AmountSign,
) -> Seq<u8> {
    sign_text(neg, n == 0, sign) + body_text(n, f, precision)
}

/// ASCII bytes as characters.
pub open spec fn as_chars(t: Seq<u8>) -> Seq<char> {
    t.map_values(|b: u8| b as char)
}

/// Every byte is ASCII.
pub open spec fn is_ascii(t: Seq<u8>) -> bool {
    forall|i: int| 0 <= i < t.len() ==> t[i] < 0x80
}

pub proof fn lemma_ascii_text(t: Seq<u8>)
    requires
        is_ascii(t),
    ensures
        vstd::utf8::encode_utf8(as_chars(t)) == t,
        vstd::utf8::valid_utf8(t),
        forall|c: Seq<char>| vstd::utf8::encode_utf8(c) == t ==> c == as_chars(t),
{
    let c: Seq<char> = as_chars(t);
    assert(vstd::utf8::is_ascii_chars(c));
    vstd::utf8::is_ascii_chars_encode_utf8(c);
    assert(vstd::utf8::encode_utf8(c) =~= t);
    vstd::utf8::encode_utf8_valid_utf8(c);
    vstd::utf8::encode_utf8_decode_utf8(c);
    assert forall|d: Seq<char>| vstd::utf8::encode_utf8(d) == t implies d == c by {
        vstd::utf8::encode_utf8_decode_utf8(d);
    }
}

/// Digit positions seen through a division by a power of ten.
pub proof fn lemma_digit_shift(n: nat, k: nat, i: nat)
    ensures
        digit_at(n / pow10::pow10(k), i) == digit_at(n, k + i),
        n / pow10::pow10(k) / pow10::pow10(i) == n / pow10::pow10(k + i),
{
    pow10::lemma_pow10_pos(k);
    pow10::lemma_pow10_pos(i);
    pow10::lemma_pow10_add(k, i);
    vstd::arithmetic::div_mod::lemma_div_denominator(
        n as int,
        pow10::pow10(k) as int,
        pow10::pow10(i) as int,
    );
}

/// The first position of `n / 10` is the second of `n`.
proof fn lemma_digit_next(n: nat, i: nat)
    ensures
        digit_at(n / 10, i) == digit_at(n, i + 1),
        digit_at(n, 0) == n % 10,
{
    lemma_digit_shift(n, 1, i);
    assert(pow10::pow10(0) == 1);
    assert(pow10::pow10(1) == 10);
    vstd::arithmetic::div_mod::lemma_div_basics(n as int);
}

/// Which digits [`dec_digits`] holds, and how many.
pub proof fn lemma_dec_digits(n: nat)
    ensures
        dec_digits(n).len() >= 1,
        n < pow10::pow10(dec_digits(n).len()),
        dec_digits(n).len() > 1 ==> n >= pow10::pow10((dec_digits(n).len() - 1) as nat),
        forall|j: int|
            0 <= j < dec_digits(n).len() ==> #[trigger] dec_digits(n)[j] == ascii(
                digit_at(n, (dec_digits(n).len() - 1 - j) as nat),
            ),
    decreases n,
{
    let t: Seq<u8> = dec_digits(n);
    assert(pow10::pow10(0) == 1);
    assert(pow10::pow10(1) == 10);
    if n < 10 {
        lemma_digit_next(n, 0);
    } else {
        let h: nat = n / 10;
        lemma_dec_digits(h);
        let l: nat = dec_digits(h).len();
        assert(pow10::pow10(l + 1) == 10 * pow10::pow10(l));
        assert(pow10::pow10(l) == 10 * pow10::pow10((l - 1) as nat));
        assert forall|j: int| 0 <= j < t.len() implies #[trigger] t[j] == ascii(
            digit_at(n, (t.len() - 1 - j) as nat),
        ) by {
            if j < l {
                lemma_digit_next(n, (l - 1 - j) as nat);
                assert(t[j] == dec_digits(h)[j]);
            } else {
                lemma_digit_next(n, 0);
            }
        }
    }
}

/// How many digits a number has is fixed by the powers of ten around it.
pub proof fn lemma_dec_len(n: nat, l: nat)
    requires
        l >= 1,
        n < pow10::pow10(l),
        l > 1 ==> n >= pow10::pow10((l - 1) as nat),
    ensures
        dec_digits(n).len() == l,
{
    lemma_dec_digits(n);
    let k: nat = dec_digits(n).len();
    if k < l {
        pow10::lemma_pow10_mono(k, (l - 1) as nat);
    } else if k > l {
        pow10::lemma_pow10_mono(l, (k - 1) as nat);
    }
}

/// Which digits [`fixed_digits`] holds.
pub proof fn lemma_fixed_digits(n: nat, k: nat)
    ensures
        fixed_digits(n, k).len() == k,
        forall|j: int|
            0 <= j < k ==> #[trigger] fixed_digits(n, k)[j] == ascii(
                digit_at(n, (k - 1 - j) as nat),
            ),
    decreases k,
{
    if k > 0 {
        let h: nat = n / 10;
        let t: Seq<u8> = fixed_digits(n, k);
        lemma_fixed_digits(h, (k - 1) as nat);
        assert forall|j: int| 0 <= j < k implies #[trigger] t[j] == ascii(
            digit_at(n, (k - 1 - j) as nat),
        ) by {
            if j < k - 1 {
                lemma_digit_next(n, (k - 2 - j) as nat);
                assert(t[j] == fixed_digits(h, (k - 1) as nat)[j]);
            } else {
                lemma_digit_next(n, 0);
            }
        }
    }
}

/// Trimming drops exactly the trailing zeros of the fraction.
pub proof fn lemma_trim(n: nat, f: nat, s: nat)
    requires
        s <= f,
        forall|i: nat| i < s ==> #[trigger] digit_at(n, i) == 0,
        s < f ==> digit_at(n, s) != 0,
    ensures
        trim(n, f) == (n / pow10::pow10(s), (f - s) as nat),
    decreases f,
{
    assert(pow10::pow10(0) == 1);
    lemma_digit_next(n, 0);
    vstd::arithmetic::div_mod::lemma_div_basics(n as int);
    if s > 0 {
        assert(digit_at(n, 0) == 0);
        assert forall|i: nat| i < s - 1 implies #[trigger] digit_at(n / 10, i) == 0 by {
            lemma_digit_next(n, i);
            assert(digit_at(n, i + 1) == 0);
        }
        lemma_digit_next(n, (s - 1) as nat);
        lemma_trim(n / 10, (f - 1) as nat, (s - 1) as nat);
        lemma_digit_shift(n, 1, (s - 1) as nat);
        assert(pow10::pow10(1) == 10);
    }
}

/// The digits of a number extended with zeros.
pub proof fn lemma_digit_pad(n: nat, pad: nat, i: nat)
    ensures
        digit_at(n * pow10::pow10(pad), i) == (if i < pad {
            0
        } else {
            digit_at(n, (i - pad) as nat)
        }),
{
    let p: int = pow10::pow10(pad) as int;
    pow10::lemma_pow10_pos(pad);
    if i < pad {
        let lo: int = pow10::pow10(i) as int;
        let k: nat = (pad - i - 1) as nat;
        let hi: int = pow10::pow10(k) as int;
        pow10::lemma_pow10_pos(i);
        pow10::lemma_pow10_add(i, (k + 1) as nat);
        assert(pow10::pow10(k + 1) == 10 * hi);
        let m: int = n as int;
        assert(m * (lo * (10 * hi)) == (10 * (m * hi)) * lo) by (nonlinear_arith);
        vstd::arithmetic::div_mod::lemma_div_by_multiple(10 * (m * hi), lo);
        assert((10 * (m * hi)) % 10 == 0);
    } else {
        lemma_digit_shift((n * pow10::pow10(pad)) as nat, pad, (i - pad) as nat);
        vstd::arithmetic::div_mod::lemma_div_by_multiple(n as int, p);
    }
}

/// The low digits of a number are those of its remainder.
proof fn lemma_digit_low(q: nat, rem: nat, k: nat, j: nat)
    requires
        j < k,
    ensures
        digit_at(q * pow10::pow10(k) + rem, j) == digit_at(rem, j),
{
    let d: int = pow10::pow10(j) as int;
    let c: nat = (k - j - 1) as nat;
    let h: int = pow10::pow10(c) as int;
    pow10::lemma_pow10_pos(j);
    pow10::lemma_pow10_add(j, (c + 1) as nat);
    assert(pow10::pow10(c + 1) == 10 * h);
    let u: int = q as int;
    let w: int = u * h;
    assert(u * (d * (10 * h)) == (10 * w) * d) by (nonlinear_arith)
        requires
            w == u * h,
    ;
    vstd::arithmetic::div_mod::lemma_hoist_over_denominator(rem as int, 10 * w, d as nat);
    vstd::arithmetic::div_mod::lemma_mod_multiples_vanish(w, rem as int / d, 10);
}

/// The largest magnitude of four limbs has fewer than 79 digits.
proof fn lemma_four_limb_digits()
    ensures
        value::bpow(4) < pow10::pow10(78),
        pow10::pow10(19) < value::base(),
{
    pow10::lemma_pow10_words();
    pow10::lemma_pow10_add(19, 19);
    pow10::lemma_pow10_add(38, 38);
    pow10::lemma_pow10_add(76, 2);
    value::lemma_bpow_small();
    let a: int = pow10::pow10(19) as int;
    let b: int = pow10::pow10(38) as int;
    assert(a * a == 1_00000_00000_00000_00000_00000_00000_00000_000int) by (nonlinear_arith)
        requires
            a == 10_000_000_000_000_000_000,
    ;
    assert(b * b * 100 > 0x1_0000_0000_0000_0000_0000_0000_0000_0000_0000_0000_0000_0000_0000_0000_0000_0000) by (nonlinear_arith)
        requires
            b == 1_00000_00000_00000_00000_00000_00000_00000_000,
    ;
}

/// The digits of `m` from position `from` to position `to` stand in `digits`.
spec fn holds_digits(digits: Seq<u8>, m: nat, from: int, to: int) -> bool {
    forall|i: int| from <= i < to ==> #[trigger] digits[i] == ascii(digit_at(m, i as nat))
}

/// Writes 19 digits of one word, least significant first.
fn put_chunk(digits: &mut [u8; 96], nd: usize, word: u64)
    requires
        nd + 19 <= 96,
        word < pow10::pow10(19),
    ensures
        forall|j: int|
            0 <= j < 19 ==> #[trigger] final(digits)@[nd + j] == ascii(
                digit_at(word as nat, j as nat),
            ),
        forall|i: int|
            0 <= i < 96 && !(nd <= i < nd + 19) ==> final(digits)@[i] == old(digits)@[i],
{
    let ghost before: Seq<u8> = digits@;
    let mut rem: u64 = word;
    let mut k: usize = 0;
    proof {
        assert(pow10::pow10(0) == 1);
        vstd::arithmetic::div_mod::lemma_div_basics(word as int);
    }
    while k < 19
        invariant
            k <= 19,
            nd + 19 <= 96,
            rem == word as nat / pow10::pow10(k as nat),
            digits@.len() == 96,
            forall|j: int|
                0 <= j < k ==> #[trigger] digits@[nd + j] == ascii(
                    digit_at(word as nat, j as nat),
                ),
            forall|i: int| 0 <= i < 96 && !(nd <= i < nd + k) ==> digits@[i] == before[i],
        decreases 19 - k,
    {
        proof {
            lemma_digit_shift(word as nat, k as nat, 1);
            pow10::lemma_pow10_words();
        }
        digits[nd + k] = (rem % 10) as u8 + 0x30;
        rem = rem / 10;
        k += 1;
    }
}

/// Writes the digits of a magnitude, least significant first, and counts them.
/// Zero has none.
fn extract_digits(mag: &[u64; 5], digits: &mut [u8; 96]) -> (nd: usize)
    requires
        value::val(mag@) < pow10::pow10(78),
        forall|i: int| 0 <= i < 96 ==> old(digits)@[i] == 0x30,
    ensures
        holds_digits(final(digits)@, value::val(mag@), 0, 96),
        nd <= 78,
        value::val(mag@) < pow10::pow10(nd as nat),
        nd > 0 ==> value::val(mag@) >= pow10::pow10((nd - 1) as nat),
{
    let ghost m: nat = value::val(mag@);
    let mut work: [u64; 5] = *mag;
    let mut nd: usize = 0;
    proof {
        assert(pow10::pow10(0) == 1);
        vstd::arithmetic::div_mod::lemma_div_basics(m as int);
    }
    let mut n: usize = sig_limbs(&work);
    while n > 1
        invariant
            1 <= n <= 5,
            value::all_zero(work@.skip(n as int)),
            n > 1 ==> work@[n - 1] != 0,
            m < pow10::pow10(78),
            nd <= 78,
            digits@.len() == 96,
            value::val(work@) == m / pow10::pow10(nd as nat),
            value::val(work@) < pow10::pow10((78 - nd) as nat),
            nd > 0 ==> value::val(work@) >= 1,
            holds_digits(digits@, m, 0, nd as int),
            forall|i: int| nd <= i < 96 ==> digits@[i] == 0x30,
        decreases 78 - nd,
    {
        let ghost v: nat = value::val(work@);
        proof {
            lemma_wide_is_large(work@, n as int);
            lemma_four_limb_digits();
            if nd > 59 {
                pow10::lemma_pow10_mono((78 - nd) as nat, 19);
            }
        }
        let rem: u64 = div_words_by_pow10::<19>(&mut work);
        let ghost q: nat = value::val(work@);
        put_chunk(digits, nd, rem);
        proof {
            let p: int = pow10::pow10(19) as int;
            vstd::arithmetic::div_mod::lemma_fundamental_div_mod_converse(
                v as int,
                p,
                q as int,
                rem as int,
            );
            lemma_digit_shift(m, nd as nat, 19);
            pow10::lemma_pow10_add(19, (78 - nd - 19) as nat);
            vstd::arithmetic::div_mod::lemma_multiply_divide_lt(
                v as int,
                p,
                pow10::pow10((78 - nd - 19) as nat) as int,
            );
            if q == 0 {
                assert(0 * p == 0);
            }
            assert forall|i: int| 0 <= i < nd + 19 implies #[trigger] digits@[i] == ascii(
                digit_at(m, i as nat),
            ) by {
                if i >= nd {
                    let j: int = i - nd;
                    assert(digits@[nd + j] == ascii(digit_at(rem as nat, j as nat)));
                    lemma_digit_shift(m, nd as nat, j as nat);
                    lemma_digit_low(q, rem as nat, 19, j as nat);
                }
            }
        }
        nd += 19;
        n = sig_limbs(&work);
    }
    let mut rem: u64 = work[0];
    proof {
        value::lemma_val_high_zero(work@, 1);
        assert(work@.take(1) =~= seq![rem]);
        value::lemma_val_one(rem);
        if nd > 0 {
            lemma_quotient_positive(m, nd as nat);
            pow10::lemma_pow10_mono((nd - 1) as nat, nd as nat);
        }
    }
    while rem != 0
        invariant
            m < pow10::pow10(78),
            nd <= 78,
            digits@.len() == 96,
            rem == m / pow10::pow10(nd as nat),
            rem < pow10::pow10((78 - nd) as nat),
            nd > 0 ==> m >= pow10::pow10((nd - 1) as nat),
            holds_digits(digits@, m, 0, nd as int),
            forall|i: int| nd <= i < 96 ==> digits@[i] == 0x30,
        decreases rem,
    {
        proof {
            assert(pow10::pow10(0) == 1);
            assert(nd < 78);
            lemma_digit_shift(m, nd as nat, 1);
            assert(pow10::pow10(1) == 10);
            assert(pow10::pow10((78 - nd) as nat) == 10 * pow10::pow10((77 - nd) as nat));
            pow10::lemma_pow10_pos(nd as nat);
            lemma_quotient_positive(m, nd as nat);
        }
        digits[nd] = (rem % 10) as u8 + 0x30;
        rem = rem / 10;
        nd += 1;
    }
    proof {
        pow10::lemma_pow10_pos(nd as nat);
        vstd::arithmetic::div_mod::lemma_fundamental_div_mod(
            m as int,
            pow10::pow10(nd as nat) as int,
        );
        assert forall|i: int| 0 <= i < 96 implies #[trigger] digits@[i] == ascii(
            digit_at(m, i as nat),
        ) by {
            if i >= nd {
                pow10::lemma_pow10_mono(nd as nat, i as nat);
                vstd::arithmetic::div_mod::lemma_basic_div(
                    m as int,
                    pow10::pow10(i as nat) as int,
                );
            }
        }
    }
    nd
}

/// A nonzero quotient by 10^k means at least 10^k.
proof fn lemma_quotient_positive(m: nat, k: nat)
    requires
        m / pow10::pow10(k) != 0,
    ensures
        m >= pow10::pow10(k),
{
    pow10::lemma_pow10_pos(k);
    if m < pow10::pow10(k) {
        vstd::arithmetic::div_mod::lemma_basic_div(m as int, pow10::pow10(k) as int);
    }
}

/// A number with more than one significant limb is at least 2^64.
proof fn lemma_wide_is_large(s: Seq<u64>, n: int)
    requires
        1 < n <= s.len(),
        s[n - 1] != 0,
    ensures
        value::val(s) >= value::base(),
{
    value::lemma_val_split(s, 1);
    value::lemma_bpow_small();
    let h: Seq<u64> = s.skip(1);
    assert(h[n - 2] != 0);
    value::lemma_val_zero(h);
    let b: int = value::bpow(1) as int;
    let v: int = value::val(h) as int;
    assert(b * v >= b) by (nonlinear_arith)
        requires
            v >= 1,
            b >= 0,
    ;
}

/// How a number is laid out: the magnitude `m` has `f` fractional digits, of
/// which the last `skip` are left out, and `pad` zeros follow them.
#[derive(Clone, Copy)]
struct Layout {
    f: usize,
    skip: usize,
    pad: usize,
    int_len: usize,
}

impl Layout {
    spec fn wf(self, m: nat) -> bool {
        &&& self.skip <= self.f <= 19
        &&& self.skip == 0 || self.pad == 0
        &&& self.f - self.skip + self.pad <= usize::MAX
        &&& 1 <= self.int_len
        &&& self.f + self.int_len <= 78
        &&& m / pow10::pow10(self.f as nat) < pow10::pow10(self.int_len as nat)
        &&& self.int_len > 1 ==> m / pow10::pow10(self.f as nat) >= pow10::pow10(
            (self.int_len - 1) as nat,
        )
    }

    /// The fractional digits that are printed.
    spec fn printed(self) -> nat {
        (self.f - self.skip + self.pad) as nat
    }

    /// The number that is printed, as an integer.
    spec fn number(self, m: nat) -> nat {
        (m / pow10::pow10(self.skip as nat)) * pow10::pow10(self.pad as nat)
    }

    spec fn text(self, m: nat) -> Seq<u8> {
        plain_text(self.number(m), self.printed())
    }

    /// The bytes before the fraction: integer digits and the point.
    spec fn head_len(self) -> nat {
        self.int_len as nat + (if self.printed() > 0 {
            1nat
        } else {
            0nat
        })
    }

    /// The byte at distance `d` from the right end of the text.
    spec fn byte_at(self, m: nat, d: nat) -> u8 {
        if d < self.pad {
            0x30
        } else if d < self.printed() {
            ascii(digit_at(m, (self.skip + d - self.pad) as nat))
        } else if self.printed() > 0 && d == self.printed() {
            0x2e
        } else if self.printed() > 0 {
            ascii(digit_at(m, (self.f + d - self.printed() - 1) as nat))
        } else {
            ascii(digit_at(m, (self.f + d) as nat))
        }
    }

    proof fn lemma_number(self, m: nat)
        requires
            self.wf(m),
        ensures
            self.number(m) / pow10::pow10(self.printed()) == m / pow10::pow10(self.f as nat),
            forall|d: nat|
                #[trigger] digit_at(self.number(m), d) == (if d < self.pad {
                    0
                } else {
                    digit_at(m, (self.skip + d - self.pad) as nat)
                }),
    {
        let x: nat = self.number(m);
        let h: nat = m / pow10::pow10(self.skip as nat);
        let pad: nat = self.pad as nat;
        let skip: nat = self.skip as nat;
        assert(pow10::pow10(0) == 1);
        vstd::arithmetic::div_mod::lemma_div_basics(m as int);
        if self.pad == 0 {
            let one: nat = pow10::pow10(pad);
            assert(h * one == h) by (nonlinear_arith)
                requires
                    one == 1,
            ;
            assert(x == h * one);
            lemma_digit_shift(m, skip, (self.f - self.skip) as nat);
            assert(skip + (self.f - self.skip) as nat == self.f as nat);
            assert(self.printed() == (self.f - self.skip) as nat);
            assert(x / pow10::pow10(self.printed()) == m / pow10::pow10(self.f as nat));
        } else {
            pow10::lemma_pow10_pos(pad);
            assert(h == m);
            assert(self.printed() == pad + self.f as nat);
            lemma_digit_shift(x, pad, self.f as nat);
            vstd::arithmetic::div_mod::lemma_div_by_multiple(m as int, pow10::pow10(pad) as int);
            assert(x / pow10::pow10(pad) == m);
            assert(x / pow10::pow10(self.printed()) == m / pow10::pow10(self.f as nat));
        }
        assert forall|d: nat| #[trigger] digit_at(x, d) == (if d < self.pad {
            0
        } else {
            digit_at(m, (self.skip + d - self.pad) as nat)
        }) by {
            lemma_digit_pad(h, pad, d);
            if d >= pad {
                lemma_digit_shift(m, skip, (d - pad) as nat);
            }
        }
    }

    proof fn lemma_text(self, m: nat)
        requires
            self.wf(m),
        ensures
            self.text(m).len() == self.head_len() + self.printed(),
            forall|d: int|
                0 <= d < self.text(m).len() ==> #[trigger] self.text(m)[self.text(m).len() - 1 - d]
                    == self.byte_at(m, d as nat),
            is_ascii(self.text(m)),
    {
        let x: nat = self.number(m);
        let pf: nat = self.printed();
        let i: nat = m / pow10::pow10(self.f as nat);
        let t: Seq<u8> = self.text(m);
        self.lemma_number(m);
        lemma_dec_len(i, self.int_len as nat);
        lemma_dec_digits(i);
        lemma_fixed_digits(x, pf);
        assert(pow10::pow10(0) == 1);
        vstd::arithmetic::div_mod::lemma_div_basics(x as int);
        let a: Seq<u8> = dec_digits(i);
        let b: Seq<u8> = fixed_digits(x, pf);
        assert(t.len() == self.head_len() + pf);
        assert forall|d: int| 0 <= d < t.len() implies #[trigger] t[t.len() - 1 - d]
            == self.byte_at(m, d as nat) by {
            let at: int = t.len() - 1 - d;
            if d < pf {
                assert(t[at] == b[pf - 1 - d]);
                assert(b[pf - 1 - d] == ascii(digit_at(x, d as nat)));
            } else if pf > 0 && d == pf {
            } else {
                let j: int = if pf > 0 {
                    d - pf - 1
                } else {
                    d
                };
                assert(t[at] == a[self.int_len - 1 - j]);
                assert(a[self.int_len - 1 - j] == ascii(digit_at(i, j as nat)));
                lemma_digit_shift(m, self.f as nat, j as nat);
            }
        }
        assert forall|k: int| 0 <= k < t.len() implies t[k] < 0x80 by {
            let d: int = t.len() - 1 - k;
            assert(t[t.len() - 1 - d] == self.byte_at(m, d as nat));
        }
    }

    /// The byte at distance `d` from the right end of the text.
    fn byte(&self, digits: &[u8; 96], d: usize, Ghost(m): Ghost<nat>) -> (c: u8)
        requires
            self.wf(m),
            holds_digits(digits@, m, 0, 96),
            d < self.text(m).len(),
        ensures
            c == self.byte_at(m, d as nat),
    {
        proof {
            self.lemma_text(m);
        }
        let printed: usize = self.f - self.skip + self.pad;
        if d < self.pad {
            0x30
        } else if d < printed {
            digits[self.skip + (d - self.pad)]
        } else if printed > 0 && d == printed {
            0x2e
        } else if printed > 0 {
            digits[self.f + (d - printed - 1)]
        } else {
            digits[self.f + d]
        }
    }
}

/// What writing `t` at the right end of a buffer leaves in it: as much of the
/// text as fits, and the bytes before it as they were.
pub open spec fn written(before: Seq<u8>, t: Seq<u8>) -> Seq<u8> {
    if t.len() <= before.len() {
        before.take(before.len() - t.len()) + t
    } else {
        t.skip(t.len() - before.len())
    }
}

/// The sign byte, where there is one.
fn sign_byte(neg: bool, zero: bool, sign: AmountSign) -> (c: Option<u8>)
    ensures
        match c {
            Some(b) => sign_text(neg, zero, sign) == seq![b] && b < 0x80,
            None => sign_text(neg, zero, sign) == Seq::<u8>::empty(),
        },
{
    match sign {
        AmountSign::NoSign => None,
        AmountSign::Negative => if neg && !zero {
            Some(0x2d)
        } else {
            None
        },
        AmountSign::Always => if zero {
            None
        } else if neg {
            Some(0x2d)
        } else {
            Some(0x2b)
        },
    }
}

/// Rounds a magnitude half away from zero to `p < f` fractional digits.
fn round_digits(work: &mut [u64; 5], f: usize, p: usize)
    requires
        p < f <= 19,
    ensures
        value::val(final(work)@) == at_precision(value::val(old(work)@), f as nat, p as nat),
{
    let scale: u64 = upow10((f - p) as u32);
    let ghost n: nat = value::val(work@);
    proof {
        pow10::lemma_p10_word((f - p) as u8);
    }
    let dropped: u64 = div_words_by_word(work, scale);
    let ghost q: nat = value::val(work@);
    proof {
        rounding::lemma_round_mag_parts(
            n,
            scale as nat,
            q,
            dropped as nat,
            false,
            Rounding::HalfUp,
        );
    }
    if dropped >= scale - dropped {
        let _ = mul_add_word(work, 1, 1);
        proof {
            // The quotient by ten or more leaves room for one.
            value::lemma_val_bound(old(work)@);
            assert(q * scale >= q * 10) by (nonlinear_arith)
                requires
                    scale >= 10,
                    q >= 0,
            ;
            value::lemma_bpow_mono(1, 5);
            value::lemma_bpow_small();
            vstd::arithmetic::div_mod::lemma_small_mod(q + 1, value::bpow(5));
        }
    }
}

/// Counts the zeros at the end of the fraction.
fn trailing_zeros(digits: &[u8; 96], f: usize, Ghost(m): Ghost<nat>) -> (skip: usize)
    requires
        f <= 19,
        holds_digits(digits@, m, 0, 96),
    ensures
        skip <= f,
        trim(m, f as nat) == (m / pow10::pow10(skip as nat), (f - skip) as nat),
{
    let mut skip: usize = 0;
    while skip < f && digits[skip] == 0x30
        invariant
            skip <= f <= 19,
            holds_digits(digits@, m, 0, 96),
            forall|i: nat| i < skip ==> #[trigger] digit_at(m, i) == 0,
        decreases f - skip,
    {
        assert(digits@[skip as int] == ascii(digit_at(m, skip as nat)));
        skip += 1;
    }
    proof {
        if skip < f {
            assert(digits@[skip as int] == ascii(digit_at(m, skip as nat)));
        }
        lemma_trim(m, f as nat, skip as nat);
    }
    skip
}

/// A magnitude in five limbs.
fn load(mag: &[u64]) -> (work: [u64; 5])
    requires
        mag@.len() <= 4,
    ensures
        value::val(work@) == value::val(mag@),
        value::val(work@) < value::bpow(4),
{
    let mut work: [u64; 5] = [0u64; 5];
    let mut i: usize = 0;
    while i < mag.len()
        invariant
            i <= mag@.len() <= 4,
            forall|k: int| 0 <= k < i ==> work@[k] == mag@[k],
            forall|k: int| i <= k < 5 ==> work@[k] == 0,
        decreases mag@.len() - i,
    {
        work[i] = mag[i];
        i += 1;
    }
    proof {
        assert(work@.take(i as int) =~= mag@);
        value::lemma_val_high_zero(work@, i as int);
        value::lemma_val_bound(mag@);
        value::lemma_bpow_mono(mag@.len(), 4);
    }
    work
}

/// Rounds a magnitude where the precision asks for it, takes its digits, and
/// decides which of them are printed.
fn plan(mag: &[u64], frac_digits: usize, precision: Option<usize>) -> (res: (
    Layout,
    [u8; 96],
    Ghost<nat>,
))
    requires
        frac_digits <= 19,
        mag@.len() <= 4,
    ensures
        res.0.wf(res.2@),
        holds_digits(res.1@, res.2@, 0, 96),
        res.0.text(res.2@) == body_text(value::val(mag@), frac_digits as nat, precision),
{
    let ghost n: nat = value::val(mag@);
    // A working copy with one spare limb.
    let mut work: [u64; 5] = load(mag);
    let mut f: usize = frac_digits;
    proof {
        lemma_four_limb_digits();
    }
    if let Some(p) = precision {
        if p < frac_digits {
            round_digits(&mut work, frac_digits, p);
            proof {
                pow10::lemma_p10_word((frac_digits - p) as u8);
                lemma_rounding_shrinks(n, pow10::pow10((frac_digits - p) as nat));
            }
            f = p;
        }
    }
    let ghost m: nat = value::val(work@);
    let mut digits: [u8; 96] = [0x30u8; 96];
    let nd: usize = extract_digits(&work, &mut digits);
    // Guarantee at least one integer digit (possibly zero).
    let int_len: usize = if nd > f {
        nd - f
    } else {
        1
    };
    let (skip, pad): (usize, usize) = match precision {
        Some(p) => (0, p - f),
        // Trim trailing zeros of the fractional part.
        None => (trailing_zeros(&digits, f, Ghost(m)), 0),
    };
    let layout: Layout = Layout { f, skip, pad, int_len };
    proof {
        lemma_int_len(m, f as nat, nd as nat);
        lemma_layout_text(layout, m, n, frac_digits as nat, precision);
    }
    (layout, digits, Ghost(m))
}

/// ASCII bytes as a string.
fn ascii_str(bytes: &[u8]) -> (res: Option<&str>)
    requires
        is_ascii(bytes@),
    ensures
        res matches Some(s) && s@ == as_chars(bytes@),
{
    proof {
        lemma_ascii_text(bytes@);
    }
    match core::str::from_utf8(bytes) {
        Ok(s) => Some(s),
        Err(_) => None,
    }
}

/// Writes a text at the right end of `buf` and tells where it starts, if it fits.
fn fill(
    buf: &mut [u8],
    layout: Layout,
    digits: &[u8; 96],
    lead: Option<u8>,
    Ghost(m): Ghost<nat>,
) -> (start: Option<usize>)
    requires
        layout.wf(m),
        holds_digits(digits@, m, 0, 96),
    ensures
        ({
            let t: Seq<u8> = lead_text(lead) + layout.text(m);
            &&& final(buf)@ == written(old(buf)@, t)
            &&& start is Some <==> t.len() <= old(buf)@.len()
            &&& start matches Some(at) ==> at == old(buf)@.len() - t.len()
        }),
{
    let ghost before: Seq<u8> = buf@;
    let ghost body: Seq<u8> = layout.text(m);
    let ghost t: Seq<u8> = lead_text(lead) + body;
    proof {
        layout.lemma_text(m);
    }
    let printed: usize = layout.f - layout.skip + layout.pad;
    // Integer digits and the point, then the sign.
    let body_head: usize = if printed > 0 {
        layout.int_len + 1
    } else {
        layout.int_len
    };
    let head: usize = if lead.is_some() {
        body_head + 1
    } else {
        body_head
    };
    let len: usize = buf.len();
    let fits: bool = printed <= len && head <= len - printed;
    let count: usize = if fits {
        printed + head
    } else {
        len
    };
    assert(t.len() == head + printed);
    let mut d: usize = 0;
    while d < count
        invariant
            d <= count <= len,
            count <= t.len(),
            buf@.len() == len,
            before.len() == len,
            layout.wf(m),
            body == layout.text(m),
            body.len() == printed + body_head,
            holds_digits(digits@, m, 0, 96),
            t == lead_text(lead) + body,
            forall|k: int| len - d <= k < len ==> #[trigger] buf@[k] == t[t.len() - len + k],
            forall|k: int| 0 <= k < len - d ==> buf@[k] == before[k],
        decreases count - d,
    {
        let ghost at: int = t.len() - 1 - d;
        let c: u8 = if d < printed || d - printed < body_head {
            assert(t[at] == layout.byte_at(m, d as nat)) by {
                layout.lemma_text(m);
                assert(t[at] == body[body.len() - 1 - d]);
            }
            layout.byte(digits, d, Ghost(m))
        } else {
            match lead {
                Some(b) => b,
                None => 0x30,
            }
        };
        assert(c == t[at]);
        buf[len - 1 - d] = c;
        d += 1;
    }
    assert(buf@ =~= written(before, t));
    if fits {
        Some(len - count)
    } else {
        None
    }
}

/// The sign byte as text.
spec fn lead_text(lead: Option<u8>) -> Seq<u8> {
    match lead {
        Some(b) => seq![b],
        None => Seq::empty(),
    }
}

/// The text of a one-limb magnitude without a precision, written straight into
/// `buf` from the right: no digit buffer and no second pass. At most 20 digits,
/// the point and a sign are written.
fn str_word<'a>(
    word: u64,
    neg: bool,
    frac_digits: usize,
    sign: AmountSign,
    buf: &'a mut [u8],
) -> (res: Option<&'a str>)
    requires
        frac_digits <= 19,
        old(buf)@.len() >= 24,
    ensures
        ({
            let t: Seq<u8> = decimal_text(word as nat, neg, frac_digits as nat, None, sign);
            &&& t.len() <= old(buf)@.len()
            &&& res matches Some(s) && s@ == as_chars(t)
            &&& final(buf)@ == written(old(buf)@, t)
        }),
{
    let ghost before: Seq<u8> = buf@;
    let len: usize = buf.len();
    let (x, f): (u64, usize) = trim_word(word, frac_digits);
    let ghost body: Seq<u8> = plain_text(x as nat, f as nat);
    let start: usize = put_plain(buf, x, f);
    let lead: Option<u8> = sign_byte(neg, word == 0, sign);
    let at: usize = match lead {
        Some(b) => {
            buf[start - 1] = b;
            start - 1
        },
        None => start,
    };
    proof {
        lemma_plain_ascii(x as nat, f as nat);
        lemma_sign_before(before, buf@, body, lead);
    }
    ascii_str(&buf[at..len])
}

/// A body at the right end of a buffer, with the sign put before it, is the
/// whole text at that end.
proof fn lemma_sign_before(before: Seq<u8>, after: Seq<u8>, body: Seq<u8>, lead: Option<u8>)
    requires
        after.len() == before.len(),
        is_ascii(body),
        lead matches Some(b) ==> b < 0x80,
        ({
            let at: int = before.len() - body.len() - lead_text(lead).len();
            &&& at >= 0
            &&& forall|k: int| 0 <= k < at ==> after[k] == before[k]
            &&& lead matches Some(b) ==> after[at] == b
            &&& forall|k: int|
                0 <= k < body.len() ==> #[trigger] body[k] == after[before.len() - body.len() + k]
        }),
    ensures
        ({
            let t: Seq<u8> = lead_text(lead) + body;
            &&& is_ascii(t)
            &&& t.len() <= before.len()
            &&& after == written(before, t)
            &&& after.skip(before.len() - t.len()) == t
        }),
{
    let t: Seq<u8> = lead_text(lead) + body;
    let at: int = before.len() - t.len();
    assert forall|k: int| 0 <= k < t.len() implies #[trigger] t[k] == after[at + k] by {
        let n: int = lead_text(lead).len() as int;
        if k >= n {
            assert(t[k] == body[k - n]);
        }
    }
    assert(after.skip(at) =~= t);
    assert(after =~= written(before, t));
}

/// A word without its trailing fractional zeros.
fn trim_word(word: u64, frac_digits: usize) -> (res: (u64, usize))
    ensures
        (res.0 as nat, res.1 as nat) == trim(word as nat, frac_digits as nat),
        res.1 <= frac_digits,
{
    let mut x: u64 = word;
    let mut f: usize = frac_digits;
    while f > 0 && x % 10 == 0
        invariant
            f <= frac_digits,
            trim(x as nat, f as nat) == trim(word as nat, frac_digits as nat),
        decreases f,
    {
        x = x / 10;
        f -= 1;
    }
    (x, f)
}

/// Writes `x / 10^f` at the right end of `buf` and returns where the text
/// starts, with room for a sign before it.
fn put_plain(buf: &mut [u8], x: u64, f: usize) -> (start: usize)
    requires
        f <= 19,
        old(buf)@.len() >= 24,
    ensures
        1 <= start <= old(buf)@.len(),
        final(buf)@.len() == old(buf)@.len(),
        final(buf)@ == old(buf)@.take(start as int) + plain_text(x as nat, f as nat),
{
    let ghost before: Seq<u8> = buf@;
    let (rest, pos): (u64, usize) = put_fraction(buf, x, f);
    let ghost tail: Seq<u8> = buf@.skip(pos as int);
    proof {
        lemma_word_digits(x, f as nat);
        assert(pow10::pow10(0) == 1);
        vstd::arithmetic::div_mod::lemma_div_basics(x as int);
        assert(plain_text(x as nat, f as nat) =~= dec_digits(rest as nat) + tail);
    }
    let start: usize = put_integer(buf, rest, pos, f);
    proof {
        assert(buf@.skip(pos as int) =~= tail);
        assert(buf@.take(start as int) =~= before.take(start as int));
        assert(buf@ =~= buf@.take(start as int) + (buf@.subrange(start as int, pos as int)
            + buf@.skip(pos as int)));
    }
    start
}

/// Writes the fraction and the point at the right end of `buf`. Returns what is
/// left of the number and where the written part starts.
fn put_fraction(buf: &mut [u8], x: u64, f: usize) -> (res: (u64, usize))
    requires
        f <= 19,
        old(buf)@.len() >= 24,
    ensures
        res.0 == x as nat / pow10::pow10(f as nat),
        final(buf)@.len() == old(buf)@.len(),
        res.1 == old(buf)@.len() - f - (if f > 0 {
            1int
        } else {
            0int
        }),
        forall|k: int| 0 <= k < res.1 ==> final(buf)@[k] == old(buf)@[k],
        f > 0 ==> final(buf)@.skip(res.1 as int) == seq![0x2eu8] + fixed_digits(
            x as nat,
            f as nat,
        ),
{
    let ghost before: Seq<u8> = buf@;
    let len: usize = buf.len();
    let mut rest: u64 = x;
    let mut k: usize = 0;
    proof {
        assert(pow10::pow10(0) == 1);
        vstd::arithmetic::div_mod::lemma_div_basics(x as int);
    }
    while k < f
        invariant
            k <= f <= 19,
            len >= 24,
            buf@.len() == len,
            before.len() == len,
            rest == x as nat / pow10::pow10(k as nat),
            forall|j: int|
                len - k <= j < len ==> #[trigger] buf@[j] == ascii(
                    digit_at(x as nat, (len - 1 - j) as nat),
                ),
            forall|j: int| 0 <= j < len - k ==> buf@[j] == before[j],
        decreases f - k,
    {
        proof {
            lemma_digit_shift(x as nat, k as nat, 1);
            pow10::lemma_pow10_words();
        }
        buf[len - 1 - k] = (rest % 10) as u8 + 0x30;
        rest = rest / 10;
        k += 1;
    }
    if f == 0 {
        return (rest, len);
    }
    buf[len - 1 - f] = 0x2e;
    proof {
        lemma_fixed_digits(x as nat, f as nat);
        let d: Seq<u8> = fixed_digits(x as nat, f as nat);
        let tail: Seq<u8> = buf@.skip(len - 1 - f);
        assert forall|j: int| 0 <= j < tail.len() implies #[trigger] tail[j] == (seq![0x2eu8]
            + d)[j] by {
            if j > 0 {
                assert(tail[j] == buf@[len - 1 - f + j]);
            }
        }
        assert(tail =~= seq![0x2eu8] + d);
    }
    (rest, len - 1 - f)
}

/// Writes the digits of `word`, at least one, so that they end at `pos`, and
/// returns where they start.
fn put_integer(buf: &mut [u8], word: u64, pos: usize, f: usize) -> (start: usize)
    requires
        f <= 19,
        word < pow10::pow10((20 - f) as nat),
        pos <= old(buf)@.len(),
        pos >= 23 - f,
    ensures
        1 <= start < pos,
        pos - start == dec_digits(word as nat).len(),
        final(buf)@.len() == old(buf)@.len(),
        final(buf)@.subrange(start as int, pos as int) == dec_digits(word as nat),
        forall|k: int| 0 <= k < start || pos <= k < old(buf)@.len() ==> final(buf)@[k] == old(
            buf,
        )@[k],
{
    let ghost before: Seq<u8> = buf@;
    let ghost n: nat = word as nat;
    buf[pos - 1] = (word % 10) as u8 + 0x30;
    let mut rest: u64 = word / 10;
    let mut k: usize = 1;
    proof {
        pow10::lemma_pow10_words();
        lemma_digit_next(n, 0);
    }
    while rest != 0
        invariant
            1 <= k <= 20,
            k <= 20 - f || k == 1,
            f <= 19,
            23 - f <= pos <= buf@.len(),
            buf@.len() == before.len(),
            n < pow10::pow10((20 - f) as nat),
            rest == n / pow10::pow10(k as nat),
            k > 1 ==> n >= pow10::pow10((k - 1) as nat),
            forall|j: int|
                pos - k <= j < pos ==> #[trigger] buf@[j] == ascii(
                    digit_at(n, (pos - 1 - j) as nat),
                ),
            forall|j: int| 0 <= j < pos - k || pos <= j < before.len() ==> buf@[j] == before[j],
        decreases rest,
    {
        proof {
            lemma_quotient_positive(n, k as nat);
            if k >= 20 - f {
                pow10::lemma_pow10_mono((20 - f) as nat, k as nat);
            }
            lemma_digit_shift(n, k as nat, 1);
            pow10::lemma_pow10_words();
        }
        buf[pos - 1 - k] = (rest % 10) as u8 + 0x30;
        rest = rest / 10;
        k += 1;
    }
    proof {
        pow10::lemma_pow10_pos(k as nat);
        vstd::arithmetic::div_mod::lemma_fundamental_div_mod(
            n as int,
            pow10::pow10(k as nat) as int,
        );
        vstd::arithmetic::div_mod::lemma_mod_bound(n as int, pow10::pow10(k as nat) as int);
        lemma_dec_len(n, k as nat);
        lemma_dec_digits(n);
        assert(buf@.subrange(pos - k, pos as int) =~= dec_digits(n));
    }
    pos - k
}

/// A word has at most 20 digits, so `f` of them leave at most `20 - f`.
proof fn lemma_word_digits(x: u64, f: nat)
    requires
        f <= 19,
    ensures
        x as nat / pow10::pow10(f) < pow10::pow10((20 - f) as nat),
{
    pow10::lemma_pow10_words();
    assert(pow10::pow10(20) == 10 * pow10::pow10(19));
    pow10::lemma_pow10_add(f, (20 - f) as nat);
    pow10::lemma_pow10_pos(f);
    vstd::arithmetic::div_mod::lemma_multiply_divide_lt(
        x as int,
        pow10::pow10(f) as int,
        pow10::pow10((20 - f) as nat) as int,
    );
}

/// Digits and the point are ASCII.
pub proof fn lemma_plain_ascii(x: nat, f: nat)
    ensures
        is_ascii(plain_text(x, f)),
{
    let t: Seq<u8> = plain_text(x, f);
    let i: nat = if f == 0 {
        x
    } else {
        x / pow10::pow10(f)
    };
    let a: Seq<u8> = dec_digits(i);
    lemma_dec_digits(i);
    lemma_fixed_digits(x, f);
    assert forall|j: int| 0 <= j < t.len() implies t[j] < 0x80 by {
        if j < a.len() {
            assert(t[j] == a[j]);
        } else if j > a.len() {
            assert(t[j] == fixed_digits(x, f)[j - a.len() - 1]);
        }
    }
}

/// Formats a scaled decimal magnitude into `buf`: trailing fractional zeros are
/// trimmed when no precision is given, an explicit precision rounds (half away
/// from zero) or zero-pads, and the string is built right-to-left in `buf`.
pub fn str_mag<'a>(
    mag: &[u64],
    neg: bool,
    frac_digits: usize,
    precision: Option<usize>,
    sign: AmountSign,
    buf: &'a mut [u8],
) -> (res: Option<&'a str>)
    requires
        frac_digits <= 19,
        mag@.len() <= 4,
    ensures
        ({
            let t: Seq<u8> = decimal_text(
                value::val(mag@),
                neg,
                frac_digits as nat,
                precision,
                sign,
            );
            &&& res is Some <==> t.len() <= old(buf)@.len()
            &&& res matches Some(s) ==> s@ == as_chars(t)
            &&& final(buf)@ == (if precision matches Some(p) && p >= old(buf)@.len() {
                old(buf)@
            } else {
                written(old(buf)@, t)
            })
        }),
{
    let ghost n: nat = value::val(mag@);
    let ghost t: Seq<u8> = decimal_text(n, neg, frac_digits as nat, precision, sign);
    if let Some(p) = precision {
        // If the requested precision cannot fit, bail out immediately.
        if p >= buf.len() {
            proof {
                lemma_precision_len(n, neg, frac_digits as nat, p, sign);
            }
            return None;
        }
    }
    // A single limb without a precision, which is every 64-bit value and most
    // wide ones, needs no digit buffer.
    if precision.is_none() && buf.len() >= 24 && sig_limbs(mag) == 1 {
        proof {
            crate::arith::lemma_low_only(mag@, 1);
            assert(mag@.take(1) =~= seq![mag@[0]]);
            value::lemma_val_one(mag@[0]);
        }
        return str_word(mag[0], neg, frac_digits, sign, buf);
    }
    let (layout, digits, m): (Layout, [u8; 96], Ghost<nat>) = plan(mag, frac_digits, precision);
    let lead: Option<u8> = sign_byte(neg, is_zero(mag), sign);
    match fill(buf, layout, &digits, lead, m) {
        None => None,
        Some(at) => {
            proof {
                layout.lemma_text(m@);
                assert(is_ascii(t));
                assert(buf@.subrange(at as int, buf@.len() as int) =~= t);
            }
            ascii_str(&buf[at..buf.len()])
        },
    }
}

/// A text at `p` fractional digits is longer than `p`.
proof fn lemma_precision_len(n: nat, neg: bool, f: nat, p: usize, sign: AmountSign)
    ensures
        decimal_text(n, neg, f, Some(p), sign).len() > p,
{
    let x: nat = at_precision(n, f, p as nat);
    lemma_dec_digits(x);
    lemma_dec_digits(x / pow10::pow10(p as nat));
    lemma_fixed_digits(x, p as nat);
}

/// Rounding a quotient gives at most one more than the dividend.
proof fn lemma_rounding_shrinks(n: nat, d: nat)
    requires
        d > 0,
    ensures
        rounding::round_mag(n, d, false, Rounding::HalfUp) <= n + 1,
{
    vstd::arithmetic::div_mod::lemma_div_is_ordered_by_denominator(n as int, 1, d as int);
    vstd::arithmetic::div_mod::lemma_div_basics(n as int);
}

/// How many digits the integer part of a number of `nd` digits has.
proof fn lemma_int_len(m: nat, f: nat, nd: nat)
    requires
        m < pow10::pow10(nd),
        nd > 0 ==> m >= pow10::pow10((nd - 1) as nat),
    ensures
        nd > f ==> m / pow10::pow10(f) < pow10::pow10((nd - f) as nat),
        nd > f + 1 ==> m / pow10::pow10(f) >= pow10::pow10((nd - f - 1) as nat),
        nd <= f ==> m / pow10::pow10(f) < pow10::pow10(1),
{
    let p: int = pow10::pow10(f) as int;
    pow10::lemma_pow10_pos(f);
    if nd > f {
        pow10::lemma_pow10_add(f, (nd - f) as nat);
        vstd::arithmetic::div_mod::lemma_multiply_divide_lt(
            m as int,
            p,
            pow10::pow10((nd - f) as nat) as int,
        );
        if nd > f + 1 {
            let k: int = pow10::pow10((nd - f - 1) as nat) as int;
            pow10::lemma_pow10_add(f, (nd - f - 1) as nat);
            assert(p * k == k * p) by (nonlinear_arith);
            vstd::arithmetic::div_mod::lemma_div_by_multiple(k, p);
            vstd::arithmetic::div_mod::lemma_div_is_ordered(k * p, m as int, p);
        }
    } else {
        pow10::lemma_pow10_mono(nd, f);
        vstd::arithmetic::div_mod::lemma_basic_div(m as int, p);
        assert(pow10::pow10(0) == 1);
    }
}

/// The layout that is chosen prints the wanted text.
proof fn lemma_layout_text(layout: Layout, m: nat, n: nat, frac: nat, precision: Option<usize>)
    requires
        match precision {
            Some(p) => {
                &&& layout.skip == 0
                &&& layout.f == (if p < frac {
                    p as nat
                } else {
                    frac
                })
                &&& layout.pad == p - layout.f
                &&& m == (if p < frac {
                    at_precision(n, frac, p as nat)
                } else {
                    n
                })
            },
            None => {
                &&& layout.pad == 0
                &&& layout.skip <= layout.f
                &&& layout.f == frac
                &&& m == n
                &&& trim(n, frac) == (
                    n / pow10::pow10(layout.skip as nat),
                    (frac - layout.skip) as nat,
                )
            },
        },
    ensures
        layout.text(m) == body_text(n, frac, precision),
{
    let h: nat = m / pow10::pow10(layout.skip as nat);
    assert(pow10::pow10(0) == 1);
    vstd::arithmetic::div_mod::lemma_div_basics(m as int);
    vstd::arithmetic::mul::lemma_mul_basics(h as int);
    match precision {
        Some(p) => {
            if p < frac {
                assert(layout.number(m) == m);
            }
        },
        None => {},
    }
}

/// Trimming never adds digits.
proof fn lemma_trim_shrinks(n: nat, f: nat)
    ensures
        trim(n, f).0 <= n,
        trim(n, f).1 <= f,
    decreases f,
{
    if f > 0 && n % 10 == 0 {
        lemma_trim_shrinks(n / 10, (f - 1) as nat);
    }
}

/// Without a precision, the text of four limbs is short.
pub proof fn lemma_text_len(n: nat, neg: bool, f: nat, sign: AmountSign)
    requires
        n < value::bpow(4),
        f <= 19,
    ensures
        decimal_text(n, neg, f, None, sign).len() <= 99,
{
    lemma_four_limb_digits();
    lemma_trim_shrinks(n, f);
    let x: nat = trim(n, f).0;
    let pf: nat = trim(n, f).1;
    let i: nat = x / pow10::pow10(pf);
    pow10::lemma_pow10_pos(pf);
    vstd::arithmetic::div_mod::lemma_div_is_ordered_by_denominator(
        x as int,
        1,
        pow10::pow10(pf) as int,
    );
    vstd::arithmetic::div_mod::lemma_div_basics(x as int);
    lemma_fixed_digits(x, pf);
    lemma_dec_digits(x);
    lemma_dec_digits(i);
    if dec_digits(x).len() > 78 {
        pow10::lemma_pow10_mono(78, (dec_digits(x).len() - 1) as nat);
    }
    if dec_digits(i).len() > 78 {
        pow10::lemma_pow10_mono(78, (dec_digits(i).len() - 1) as nat);
    }
}

/// The text of a magnitude of four limbs with its minus sign, if any.
pub fn signed_text(mag: &[u64; 4], neg: bool, frac_digits: usize) -> (r: String)
    requires
        frac_digits <= 19,
    ensures
        r@ == as_chars(
            decimal_text(
                value::val(mag@),
                neg,
                frac_digits as nat,
                None,
                AmountSign::Negative,
            ),
        ),
{
    let mut buf: [u8; 128] = [0u8; 128];
    proof {
        value::lemma_val_bound(mag@);
        lemma_text_len(value::val(mag@), neg, frac_digits as nat, AmountSign::Negative);
    }
    match str_mag(mag, neg, frac_digits, None, AmountSign::Negative, &mut buf) {
        Some(s) => s.to_owned(),
        None => String::new(),
    }
}

/// The digits that a formatter pads and puts a sign before: at the asked
/// precision, or a marker where they do not fit 128 bytes.
pub fn unsigned_text(
    mag: &[u64; 4],
    neg: bool,
    frac_digits: usize,
    precision: Option<usize>,
) -> (r: String)
    requires
        frac_digits <= 19,
    ensures
        r@ == unsigned_chars(value::val(mag@), neg, frac_digits as nat, precision),
{
    let mut buf: [u8; 128] = [0u8; 128];
    match str_mag(mag, neg, frac_digits, precision, AmountSign::NoSign, &mut buf) {
        Some(s) => s.to_owned(),
        None => "Amount::ERROR".to_owned(),
    }
}

/// What [`unsigned_text`] returns.
pub open spec fn unsigned_chars(
    n: nat,
    neg: bool,
    f: nat,
    precision: Option<usize>,
) -> Seq<char> {
    let t: Seq<u8> = decimal_text(n, neg, f, precision, AmountSign::NoSign);
    if t.len() <= 128 {
        as_chars(t)
    } else {
        "Amount::ERROR"@
    }
}

/// Converts an i64 to a fixed-point string representation, optionally padded.
///
/// Trailing fractional zeros are trimmed when no precision is given, and a
/// precision rounds half away from zero.
pub fn str_i64<'a>(
    num: i64,
    frac_digit: usize,
    precision: Option<usize>,
    sign: AmountSign,
    buf: &'a mut [u8],
) -> (res: Option<&'a str>)
    requires
        frac_digit <= 19,
    ensures
        ({
            let t: Seq<u8> = decimal_text(
                rounding::mag_of(num as int),
                num < 0,
                frac_digit as nat,
                precision,
                sign,
            );
            &&& res is Some <==> t.len() <= old(buf)@.len()
            &&& res matches Some(s) ==> s@ == as_chars(t)
            &&& final(buf)@ == (if precision matches Some(p) && p >= old(buf)@.len() {
                old(buf)@
            } else {
                written(old(buf)@, t)
            })
        }),
{
    let (neg, mag): (bool, [u64; 1]) = crate::decimal64::i64_sign_mag(num);
    str_mag(&mag, neg, frac_digit, precision, sign, buf)
}

} // verus!
