//! Parsing decimal text into a scaled magnitude.

use crate::error::AmountErrorKind;
use crate::limbs::mul_add_word;
use crate::pow10;
use crate::pow10::upow10;
use crate::rounding;
use crate::rounding::Rounding;
use crate::text;
use crate::value;
use vstd::prelude::*;

verus! {

/// Kept digits are gathered this many at a time before they join the
/// magnitude.
pub const CHUNK_DIGITS: u32 = 19;

/// How many fractional digits of `b` go beyond `scale`.
pub open spec fn excess(b: Seq<u8>, scale: nat) -> nat {
    if text::frac_count(b) > scale {
        (text::frac_count(b) - scale) as nat
    } else {
        0
    }
}

/// The number that the kept digits of `b` write: its integer digits and at
/// most `scale` fractional ones.
pub open spec fn kept_value(b: Seq<u8>, scale: nat) -> nat {
    text::digits_value(b) / pow10::pow10(excess(b, scale))
}

/// How many digits of `b` are kept.
pub open spec fn kept_count(b: Seq<u8>, scale: nat) -> nat {
    (text::digit_count(b) - excess(b, scale)) as nat
}

/// The number that the kept digits write up to the last full chunk.
pub open spec fn flushed(b: Seq<u8>, scale: nat) -> nat {
    kept_value(b, scale) / pow10::pow10(kept_count(b, scale) % CHUNK_DIGITS as nat)
}

/// The number that `b` writes, times 10^scale, rounded on its magnitude.
pub open spec fn scaled_value(b: Seq<u8>, scale: nat, mode: Rounding) -> nat {
    let n: nat = text::digits_value(b);
    let f: nat = text::frac_count(b);
    if f <= scale {
        n * pow10::pow10((scale - f) as nat)
    } else {
        rounding::round_mag(n, pow10::pow10((f - scale) as nat), false, mode)
    }
}

/// What parsing the text `s` gives: its sign and its scaled magnitude, which
/// must be below `limit`.
///
/// A stray byte is an `InvalidDigit`, unless the full chunks of digits before
/// it have already overflowed.
pub open spec fn parse_mag(s: Seq<u8>, scale: nat, limit: nat, mode: Rounding) -> Result<
    (bool, nat),
    AmountErrorKind,
> {
    let b: Seq<u8> = text::unsigned_part(s);
    if s.len() == 0 {
        Err(AmountErrorKind::Empty)
    } else if !text::is_plain(b) {
        if flushed(b.take(text::good_len(b) as int), scale) >= limit {
            Err(AmountErrorKind::Overflow)
        } else {
            Err(AmountErrorKind::InvalidDigit)
        }
    } else if text::digit_count(b) == 0 {
        Err(AmountErrorKind::Empty)
    } else if scaled_value(b, scale, mode) >= limit {
        Err(AmountErrorKind::Overflow)
    } else {
        Ok((text::is_negative(s), scaled_value(b, scale, mode)))
    }
}

/// A number cut by one digit more or less.
proof fn lemma_digit_div(n: nat, x: nat, k: nat)
    requires
        x < 10,
    ensures
        (10 * n + x) / pow10::pow10(k + 1) == n / pow10::pow10(k),
        n <= 10 * n + x,
{
    let p: int = pow10::pow10(k) as int;
    pow10::lemma_pow10_pos(k);
    assert(pow10::pow10(k + 1) == 10 * pow10::pow10(k));
    let m: int = (10 * n + x) as int;
    vstd::arithmetic::div_mod::lemma_div_denominator(m, 10, p);
    assert(m / 10 == n);
}

/// One more byte never lowers the flushed digits.
proof fn lemma_flushed_step(b: Seq<u8>, i: int, scale: nat)
    requires
        0 <= i < b.len(),
    ensures
        flushed(b.take(i), scale) <= flushed(b.take(i + 1), scale),
{
    let p: Seq<u8> = b.take(i);
    let q: Seq<u8> = b.take(i + 1);
    text::lemma_step(b, i);
    text::lemma_counts(p);
    if text::is_digit(b[i]) {
        let x: nat = (b[i] - 0x30) as nat;
        let n: nat = text::digits_value(p);
        if text::has_point(p) && text::frac_count(p) >= scale {
            assert(excess(q, scale) == excess(p, scale) + 1);
            lemma_digit_div(n, x, excess(p, scale));
            assert(kept_value(q, scale) == kept_value(p, scale));
            assert(kept_count(q, scale) == kept_count(p, scale));
        } else {
            assert(excess(q, scale) == 0 && excess(p, scale) == 0);
            assert(pow10::pow10(0) == 1);
            let c: nat = kept_count(p, scale);
            assert(kept_count(q, scale) == c + 1);
            let m: nat = 10 * n + x;
            assert(n / 1 == n);
            vstd::arithmetic::div_mod::lemma_div_basics(m as int);
            let k: nat = c % CHUNK_DIGITS as nat;
            pow10::lemma_pow10_pos(k);
            if k + 1 == CHUNK_DIGITS as nat {
                assert((c + 1) % CHUNK_DIGITS as nat == 0);
                vstd::arithmetic::div_mod::lemma_div_is_ordered_by_denominator(
                    n as int,
                    1,
                    pow10::pow10(k) as int,
                );
            } else {
                assert((c + 1) % CHUNK_DIGITS as nat == k + 1);
                lemma_digit_div(n, x, k);
            }
        }
    }
}

/// More text never lowers the flushed digits.
proof fn lemma_flushed_mono(b: Seq<u8>, i: int, j: int, scale: nat)
    requires
        0 <= i <= j <= b.len(),
    ensures
        flushed(b.take(i), scale) <= flushed(b.take(j), scale),
    decreases j - i,
{
    if i < j {
        lemma_flushed_mono(b, i, j - 1, scale);
        lemma_flushed_step(b, j - 1, scale);
    }
}

/// The whole value is at least what its kept digits write.
proof fn lemma_kept_below_scaled(b: Seq<u8>, scale: nat, mode: Rounding)
    ensures
        flushed(b, scale) <= kept_value(b, scale) <= scaled_value(b, scale, mode),
{
    let k: nat = kept_count(b, scale) % CHUNK_DIGITS as nat;
    pow10::lemma_pow10_pos(k);
    let kept: nat = kept_value(b, scale);
    vstd::arithmetic::div_mod::lemma_div_is_ordered_by_denominator(
        kept as int,
        1,
        pow10::pow10(k) as int,
    );
    assert(kept / 1 == kept);
    let n: nat = text::digits_value(b);
    let f: nat = text::frac_count(b);
    if f <= scale {
        assert(pow10::pow10(0) == 1);
        assert(n / 1 == n);
        let p: nat = pow10::pow10((scale - f) as nat);
        pow10::lemma_pow10_pos((scale - f) as nat);
        assert(n * p >= n) by (nonlinear_arith)
            requires
                p >= 1,
        ;
    }
}

/// Digits that overflow once flushed make the whole text overflow, whatever
/// follows them.
proof fn lemma_early_overflow(s: Seq<u8>, i: int, scale: nat, limit: nat, mode: Rounding)
    requires
        s.len() > 0,
        0 <= i <= text::unsigned_part(s).len(),
        text::good_len(text::unsigned_part(s).take(i)) == i,
        text::digit_count(text::unsigned_part(s).take(i)) > 0,
        flushed(text::unsigned_part(s).take(i), scale) >= limit,
    ensures
        parse_mag(s, scale, limit, mode) == Err::<(bool, nat), _>(AmountErrorKind::Overflow),
{
    let b: Seq<u8> = text::unsigned_part(s);
    text::lemma_good_len(b, i);
    let g: int = text::good_len(b) as int;
    lemma_flushed_mono(b, i, g, scale);
    if text::is_plain(b) {
        assert(b.take(g) =~= b);
        lemma_kept_below_scaled(b, scale, mode);
        lemma_count_mono(b, i, g);
    }
}

/// More text never holds fewer digits.
proof fn lemma_count_mono(b: Seq<u8>, i: int, j: int)
    requires
        0 <= i <= j <= b.len(),
    ensures
        text::digit_count(b.take(i)) <= text::digit_count(b.take(j)),
    decreases j - i,
{
    if i < j {
        lemma_count_mono(b, i, j - 1);
        text::lemma_step(b, j - 1);
    }
}

/// The parser's view of the text read so far.
struct Progress {
    /// The kept digits up to the last full chunk stand in the accumulator;
    /// the ones after it stand here.
    chunk: u64,
    chunk_len: u32,
    /// 0 before the point, then one more than the fractional digits read.
    point: usize,
    /// Whether there was any digit.
    digit: bool,
    /// The first fractional digit beyond the scale.
    round_digit: u64,
    /// Whether a later digit beyond the scale is not zero.
    sticky: bool,
}

impl Progress {
    /// The digits beyond the scale, as far as rounding looks at them: `dropped`
    /// is the number that `e` of them write.
    spec fn holds_dropped(self, dropped: nat, e: nat) -> bool {
        if e == 0 {
            dropped == 0 && self.round_digit == 0 && !self.sticky
        } else {
            let p: nat = pow10::pow10((e - 1) as nat);
            &&& self.round_digit <= 9
            &&& self.round_digit * p <= dropped < (self.round_digit + 1) * p
            &&& self.sticky <==> dropped != self.round_digit * p
        }
    }

    /// This is what reading the text `b` leaves behind, with the accumulator
    /// at `acc`.
    spec fn holds(self, b: Seq<u8>, scale: nat, acc: nat) -> bool {
        let e: nat = excess(b, scale);
        let n: nat = text::digits_value(b);
        &&& text::is_plain(b)
        &&& self.point == (if text::has_point(b) {
            text::frac_count(b) + 1
        } else {
            0
        })
        &&& self.digit <==> text::digit_count(b) > 0
        &&& self.chunk_len == kept_count(b, scale) % CHUNK_DIGITS as nat
        &&& self.chunk < pow10::pow10(self.chunk_len as nat)
        &&& kept_value(b, scale) == acc * pow10::pow10(self.chunk_len as nat) + self.chunk
        &&& self.holds_dropped(n % pow10::pow10(e), e)
    }

    /// Reads the decimal point.
    fn push_point(
        &mut self,
        Ghost(b): Ghost<Seq<u8>>,
        Ghost(i): Ghost<int>,
        Ghost(scale): Ghost<nat>,
        Ghost(acc): Ghost<nat>,
    )
        requires
            0 <= i < b.len(),
            text::is_point(b[i]),
            old(self).holds(b.take(i), scale, acc),
            old(self).point == 0,
        ensures
            final(self).holds(b.take(i + 1), scale, acc),
    {
        proof {
            text::lemma_step(b, i);
            text::lemma_counts(b.take(i));
        }
        self.point = 1;
        assert(self.holds_dropped(text::digits_value(b.take(i + 1)) % pow10::pow10(0), 0));
    }

    /// Reads a digit. Tells whether the full chunks overflow.
    fn push_digit<const W: usize>(
        &mut self,
        acc: &mut [u64; W],
        c: u8,
        scale: u8,
        Ghost(b): Ghost<Seq<u8>>,
        Ghost(i): Ghost<int>,
    ) -> (overflow: bool)
        requires
            scale <= 19,
            0 <= i < b.len() <= usize::MAX,
            b[i] == c,
            text::is_digit(c),
            old(self).holds(b.take(i), scale as nat, value::val(old(acc)@)),
        ensures
            overflow ==> {
                &&& text::is_plain(b.take(i + 1))
                &&& text::digit_count(b.take(i + 1)) > 0
                &&& flushed(b.take(i + 1), scale as nat) >= value::bpow(W as nat)
            },
            !overflow ==> final(self).holds(
                b.take(i + 1),
                scale as nat,
                value::val(final(acc)@),
            ),
    {
        let ghost was: Progress = *self;
        let ghost acc_was: nat = value::val(acc@);
        proof {
            text::lemma_step(b, i);
            text::lemma_counts(b.take(i));
        }
        let x: u64 = (c - 0x30) as u64;
        self.digit = true;
        if self.point <= scale as usize {
            proof {
                lemma_kept_digit(b, i, scale as nat, acc_was, was);
                pow10::lemma_p10_word((was.chunk_len + 1) as u8);
            }
            self.chunk = self.chunk * 10 + x;
            self.chunk_len = self.chunk_len + 1;
            if self.chunk_len == CHUNK_DIGITS {
                let overflow: bool = mul_add_word(acc, upow10(CHUNK_DIGITS), self.chunk);
                let ghost kept: nat = kept_value(b.take(i + 1), scale as nat);
                proof {
                    assert(pow10::pow10(0) == 1);
                    assert(kept_count(b.take(i + 1), scale as nat) % 19 == 0);
                    vstd::arithmetic::div_mod::lemma_div_basics(kept as int);
                    assert(flushed(b.take(i + 1), scale as nat) == kept);
                }
                if overflow {
                    return true;
                }
                proof {
                    vstd::arithmetic::div_mod::lemma_small_mod(kept, value::bpow(W as nat));
                    assert(value::val(acc@) * 1 == value::val(acc@));
                }
                self.chunk = 0;
                self.chunk_len = 0;
            }
        } else {
            proof {
                lemma_dropped_digit(b, i, scale as nat, acc_was, was);
            }
            if self.point == scale as usize + 1 {
                // first digit beyond the resolution of the type
                self.round_digit = x;
                proof {
                    assert(pow10::pow10(0) == 1);
                    assert(x * 1 == x);
                    assert((x + 1) * 1 == x + 1);
                }
            } else {
                if x != 0 {
                    // any further non-zero digit sets the sticky flag
                    self.sticky = true;
                }
                proof {
                    let e: nat = excess(b.take(i), scale as nat);
                    lemma_sticky(
                        was.round_digit as int,
                        text::digits_value(b.take(i)) as int % pow10::pow10(e) as int,
                        x as int,
                        (e - 1) as nat,
                    );
                }
            }
        }
        if self.point > 0 {
            self.point = self.point + 1;  // count digits after the decimal point
        }
        false
    }

    /// Decides whether the kept digits round up.
    fn round_up(&self, odd: bool, mode: Rounding) -> (r: bool)
        ensures
            forall|dropped: nat, e: nat|
                #![trigger self.holds_dropped(dropped, e)]
                self.holds_dropped(dropped, e) ==> r == rounding::rounds_up(
                    dropped,
                    pow10::pow10(e),
                    odd,
                    false,
                    mode,
                ),
    {
        proof {
            assert forall|dropped: nat, e: nat|
                #![trigger self.holds_dropped(dropped, e)]
                self.holds_dropped(dropped, e) && e > 0 implies {
                let rd: u64 = self.round_digit;
                let d: nat = pow10::pow10(e);
                &&& 2 * dropped >= d <==> rd >= 5
                &&& 2 * dropped > d <==> rd > 5 || (rd == 5 && self.sticky)
                &&& dropped != 0 <==> rd != 0 || self.sticky
            } by {
                let p: int = pow10::pow10((e - 1) as nat) as int;
                let rd: int = self.round_digit as int;
                pow10::lemma_pow10_pos((e - 1) as nat);
                assert(pow10::pow10(e) == 10 * p);
                assert((rd + 1) * p == rd * p + p) by (nonlinear_arith);
                if rd >= 6 {
                    assert(rd * p >= 6 * p) by (nonlinear_arith)
                        requires
                            rd >= 6,
                            p > 0,
                    ;
                } else if rd <= 4 {
                    assert(rd * p <= 4 * p) by (nonlinear_arith)
                        requires
                            rd <= 4,
                            p > 0,
                    ;
                    if rd >= 1 {
                        assert(rd * p >= p) by (nonlinear_arith)
                            requires
                                rd >= 1,
                                p > 0,
                        ;
                    } else {
                        assert(0 * p == 0);
                    }
                }
            }
        }
        match mode {
            Rounding::HalfUp => self.round_digit >= 5,
            Rounding::HalfDown => self.round_digit > 5 || (self.round_digit == 5 && self.sticky),
            Rounding::HalfEven => self.round_digit > 5 || (self.round_digit == 5 && (self.sticky
                || odd)),
            Rounding::Down => false,
            Rounding::Up => self.round_digit != 0 || self.sticky,
        }
    }
}

/// Reading a digit that is kept.
proof fn lemma_kept_digit(b: Seq<u8>, i: int, scale: nat, acc: nat, was: Progress)
    requires
        0 <= i < b.len(),
        text::is_digit(b[i]),
        was.holds(b.take(i), scale, acc),
        was.point <= scale,
    ensures
        text::is_plain(b.take(i + 1)),
        excess(b.take(i + 1), scale) == 0,
        kept_count(b.take(i + 1), scale) == kept_count(b.take(i), scale) + 1,
        kept_value(b.take(i + 1), scale) == acc * pow10::pow10((was.chunk_len + 1) as nat) + (10
            * was.chunk + (b[i] - 0x30)),
        10 * was.chunk + (b[i] - 0x30) < pow10::pow10((was.chunk_len + 1) as nat),
        was.holds_dropped(0, 0),
        text::digits_value(b.take(i + 1)) % pow10::pow10(0) == 0,
{
    let p: Seq<u8> = b.take(i);
    let q: Seq<u8> = b.take(i + 1);
    text::lemma_step(b, i);
    text::lemma_counts(p);
    text::lemma_counts(q);
    let n: nat = text::digits_value(p);
    let m: nat = text::digits_value(q);
    assert(excess(p, scale) == 0);
    assert(pow10::pow10(0) == 1);
    vstd::arithmetic::div_mod::lemma_div_basics(n as int);
    vstd::arithmetic::div_mod::lemma_div_basics(m as int);
    let k: nat = was.chunk_len as nat;
    let t: int = pow10::pow10(k) as int;
    assert(pow10::pow10(k + 1) == 10 * t);
    assert(10 * (acc * t) == acc * (10 * t)) by (nonlinear_arith);
}

/// Reading a digit beyond the scale.
proof fn lemma_dropped_digit(b: Seq<u8>, i: int, scale: nat, acc: nat, was: Progress)
    requires
        0 <= i < b.len(),
        text::is_digit(b[i]),
        was.holds(b.take(i), scale, acc),
        was.point > scale,
    ensures
        text::is_plain(b.take(i + 1)),
        excess(b.take(i), scale) == was.point - 1 - scale,
        excess(b.take(i + 1), scale) == excess(b.take(i), scale) + 1,
        kept_count(b.take(i + 1), scale) == kept_count(b.take(i), scale),
        kept_value(b.take(i + 1), scale) == kept_value(b.take(i), scale),
        text::digits_value(b.take(i + 1)) % pow10::pow10(excess(b.take(i + 1), scale)) == 10 * (
        text::digits_value(b.take(i)) % pow10::pow10(excess(b.take(i), scale))) + (b[i] - 0x30),
{
    let p: Seq<u8> = b.take(i);
    let q: Seq<u8> = b.take(i + 1);
    text::lemma_step(b, i);
    text::lemma_counts(p);
    let n: nat = text::digits_value(p);
    let x: int = b[i] - 0x30;
    let e: nat = excess(p, scale);
    let t: int = pow10::pow10(e) as int;
    let kept: int = kept_value(p, scale) as int;
    let d: int = n as int % t;
    pow10::lemma_pow10_pos(e);
    assert(pow10::pow10(e + 1) == 10 * t);
    vstd::arithmetic::div_mod::lemma_fundamental_div_mod(n as int, t);
    vstd::arithmetic::div_mod::lemma_mod_bound(n as int, t);
    assert(n == kept * t + d) by {
        assert(t * kept == kept * t) by (nonlinear_arith);
    }
    assert(10 * (kept * t) == kept * (10 * t)) by (nonlinear_arith);
    vstd::arithmetic::div_mod::lemma_fundamental_div_mod_converse(
        10 * n + x,
        10 * t,
        kept,
        10 * d + x,
    );
}

/// Whether the result of the parser is the one that `expected` describes.
pub open spec fn agrees<const W: usize>(
    res: Result<(bool, [u64; W]), AmountErrorKind>,
    expected: Result<(bool, nat), AmountErrorKind>,
) -> bool {
    match res {
        Ok((neg, mag)) => expected == Ok::<(bool, nat), AmountErrorKind>(
            (neg, value::val(mag@)),
        ),
        Err(e) => expected == Err::<(bool, nat), AmountErrorKind>(e),
    }
}

/// [`parse_decimal_mag_rounded`] on the bytes of the text.
fn parse_bytes<const W: usize>(
    src: &[u8],
    scale: u8,
    mode: Rounding,
) -> (res: Result<(bool, [u64; W]), AmountErrorKind>)
    requires
        scale <= 19,
        W >= 1,
    ensures
        agrees(
            res,
            parse_mag(
                src@,
                scale as nat,
                value::bpow(W as nat),
                mode,
            ),
        ),
{
    if src.len() == 0 {
        return Err(AmountErrorKind::Empty);
    }
    let neg: bool = src[0] == 0x2d;
    let digits: &[u8] = if src[0] == 0x2b || src[0] == 0x2d {
        &src[1..src.len()]
    } else {
        src
    };
    let ghost b: Seq<u8> = text::unsigned_part(src@);
    assert(digits@ =~= b);
    let mut acc: [u64; W] = [0u64; W];
    let mut st: Progress = Progress {
        chunk: 0,
        chunk_len: 0,
        point: 0,
        digit: false,
        round_digit: 0,
        sticky: false,
    };
    proof {
        assert(b.take(0) =~= Seq::<u8>::empty());
        value::lemma_val_zero(acc@);
        assert(pow10::pow10(0) == 1);
        assert(0 * pow10::pow10(0) == 0);
    }
    let mut i: usize = 0;
    while i < digits.len()
        invariant
            i <= digits@.len(),
            digits@ == b,
            b == text::unsigned_part(src@),
            src@.len() > 0,
            scale <= 19,
            W >= 1,
            st.holds(b.take(i as int), scale as nat, value::val(acc@)),
        decreases digits@.len() - i,
    {
        let c: u8 = digits[i];
        proof {
            text::lemma_step(b, i as int);
            text::lemma_counts(b.take(i as int));
            text::lemma_good_len(b, i as int);
        }
        let ghost was: Progress = st;
        if c == 0x2e {
            if st.point > 0 {
                // should be just one decimal point
                proof {
                    lemma_stray_byte(src@, i as int, scale as nat, value::val(acc@), mode, was);
                    value::lemma_val_bound(acc@);
                }
                return Err(AmountErrorKind::InvalidDigit);
            }
            st.push_point(Ghost(b), Ghost(i as int), Ghost(scale as nat), Ghost(value::val(acc@)));
        } else if 0x30 <= c && c <= 0x39 {
            if st.push_digit(&mut acc, c, scale, Ghost(b), Ghost(i as int)) {
                proof {
                    lemma_early_overflow(
                        src@,
                        i + 1,
                        scale as nat,
                        value::bpow(W as nat),
                        mode,
                    );
                }
                return Err(AmountErrorKind::Overflow);
            }
        } else {
            proof {
                lemma_stray_byte(src@, i as int, scale as nat, value::val(acc@), mode, was);
                value::lemma_val_bound(acc@);
            }
            return Err(AmountErrorKind::InvalidDigit);
        }
        i += 1;
    }
    assert(b.take(i as int) =~= b);
    if !st.digit {
        return Err(AmountErrorKind::Empty);
    }
    finish(&mut acc, &st, neg, scale, mode, Ghost(src@))
}

/// Turns what was read into the scaled, rounded magnitude.
fn finish<const W: usize>(
    acc: &mut [u64; W],
    st: &Progress,
    neg: bool,
    scale: u8,
    mode: Rounding,
    Ghost(s): Ghost<Seq<u8>>,
) -> (res: Result<(bool, [u64; W]), AmountErrorKind>)
    requires
        scale <= 19,
        W >= 1,
        s.len() > 0,
        neg == text::is_negative(s),
        st.digit,
        st.holds(text::unsigned_part(s), scale as nat, value::val(old(acc)@)),
    ensures
        agrees(res, parse_mag(s, scale as nat, value::bpow(W as nat), mode)),
{
    let ghost b: Seq<u8> = text::unsigned_part(s);
    let ghost limit: nat = value::bpow(W as nat);
    let ghost e: nat = excess(b, scale as nat);
    let ghost n: nat = text::digits_value(b);
    let ghost f: nat = text::frac_count(b);
    let ghost kept: nat = kept_value(b, scale as nat);
    proof {
        text::lemma_counts(b);
        lemma_kept_below_scaled(b, scale as nat, mode);
        pow10::lemma_pow10_pos(e);
        vstd::arithmetic::div_mod::lemma_div_basics(n as int);
        assert(pow10::pow10(0) == 1);
    }
    // Flush the partial chunk before scaling and rounding (the HalfEven parity
    // below inspects the fully-accumulated magnitude).
    if st.chunk_len > 0 {
        if mul_add_word(acc, upow10(st.chunk_len), st.chunk) {
            return Err(AmountErrorKind::Overflow);
        }
        proof {
            vstd::arithmetic::div_mod::lemma_small_mod(kept, limit);
        }
    } else {
        assert(value::val(acc@) * 1 == value::val(acc@));
    }
    assert(value::val(acc@) == kept);
    // No decimal point is the same as a trailing one.
    let point: usize = if st.point == 0 {
        1
    } else {
        st.point
    };
    // Append zeros so the magnitude carries exactly `scale` fractional digits
    // (when the input had more than `scale` of them, nothing is missing).
    if point <= scale as usize {
        if mul_add_word(acc, upow10((scale as usize + 1 - point) as u32), 0) {
            return Err(AmountErrorKind::Overflow);
        }
        proof {
            vstd::arithmetic::div_mod::lemma_small_mod(
                n * pow10::pow10((scale - f) as nat),
                limit,
            );
        }
    } else {
        proof {
            if f == scale {
                assert(n * 1 == n);
            }
        }
    }
    proof {
        crate::arith::lemma_parity(acc@);
    }
    let up: bool = st.round_up(acc[0] & 1 != 0, mode);
    if up {
        if mul_add_word(acc, 1, 1) {
            return Err(AmountErrorKind::Overflow);
        }
        proof {
            vstd::arithmetic::div_mod::lemma_small_mod(kept + 1, limit);
        }
    } else {
        proof {
            value::lemma_val_bound(acc@);
        }
    }
    Ok((neg, *acc))
}

/// Converts decimal text into a sign and a `W`-limb magnitude scaled by
/// 10^`scale`, rounding excess fractional digits with `mode`.
///
/// The rounding looks at the first dropped digit, at whether any further one
/// is not zero, and, for `HalfEven`, at the parity of what is kept. Range
/// checks against a concrete backing type are the caller's job; `Overflow` is
/// returned only when the scaled magnitude exceeds `W` limbs.
pub fn parse_decimal_mag_rounded<const W: usize>(
    src: &str,
    scale: u8,
    mode: Rounding,
) -> (res: Result<(bool, [u64; W]), AmountErrorKind>)
    requires
        scale <= 19,
        W >= 1,
    ensures
        agrees(
            res,
            parse_mag(
                vstd::utf8::encode_utf8(src@),
                scale as nat,
                value::bpow(W as nat),
                mode,
            ),
        ),
{
    parse_bytes::<W>(src.as_bytes(), scale, mode)
}

/// A digit far beyond the scale leaves the first dropped digit as it is.
proof fn lemma_sticky(rd: int, dropped: int, x: int, k: nat)
    requires
        0 <= x <= 9,
        rd * pow10::pow10(k) <= dropped < (rd + 1) * pow10::pow10(k),
    ensures
        rd * pow10::pow10(k + 1) <= 10 * dropped + x < (rd + 1) * pow10::pow10(k + 1),
        10 * dropped + x != rd * pow10::pow10(k + 1) <==> x != 0 || dropped != rd * pow10::pow10(k),
{
    let p: int = pow10::pow10(k) as int;
    assert(pow10::pow10(k + 1) == 10 * p);
    assert(10 * (rd * p) == rd * (10 * p)) by (nonlinear_arith);
    assert(10 * ((rd + 1) * p) == (rd + 1) * (10 * p)) by (nonlinear_arith);
}

/// A byte that may not follow ends the parse.
proof fn lemma_stray_byte(s: Seq<u8>, i: int, scale: nat, acc: nat, mode: Rounding, was: Progress)
    requires
        s.len() > 0,
        0 <= i < text::unsigned_part(s).len(),
        was.holds(text::unsigned_part(s).take(i), scale, acc),
        !text::may_follow(text::unsigned_part(s).take(i), text::unsigned_part(s)[i]),
    ensures
        forall|limit: nat|
            #![trigger parse_mag(s, scale, limit, mode)]
            acc < limit ==> parse_mag(s, scale, limit, mode) == Err::<(bool, nat), _>(
                AmountErrorKind::InvalidDigit,
            ),
{
    let b: Seq<u8> = text::unsigned_part(s);
    text::lemma_good_len(b, i);
    lemma_flushed_is(b.take(i), scale, acc, was);
}

/// The accumulator holds the flushed digits.
proof fn lemma_flushed_is(b: Seq<u8>, scale: nat, acc: nat, st: Progress)
    requires
        st.holds(b, scale, acc),
    ensures
        flushed(b, scale) == acc,
{
    let k: nat = st.chunk_len as nat;
    pow10::lemma_pow10_pos(k);
    vstd::arithmetic::div_mod::lemma_fundamental_div_mod_converse(
        kept_value(b, scale) as int,
        pow10::pow10(k) as int,
        acc as int,
        st.chunk as int,
    );
}

/// What parsing into a signed number of `w` limbs gives: its range is
/// symmetric, so a magnitude of 2^(64 w - 1) or more overflows.
pub open spec fn parse_int(s: Seq<char>, scale: nat, w: nat, mode: Rounding) -> Result<
    int,
    AmountErrorKind,
> {
    match parse_mag(vstd::utf8::encode_utf8(s), scale, value::bpow(w), mode) {
        Ok((neg, m)) => if 2 * m < value::bpow(w) {
            Ok(rounding::signed(neg, m))
        } else {
            Err(AmountErrorKind::Overflow)
        },
        Err(e) => Err(e),
    }
}

} // verus!
