//! What text decimals are written as, and what text is read as.

use crate::decimal128::Decimal128;
use crate::decimal256::Decimal256;
use crate::decimal64::Decimal;
use crate::error::AmountErrorKind;
use crate::laws;
use crate::number_laws;
use crate::parse;
use crate::pow10;
use crate::render;
use crate::render::AmountSign;
use crate::rounding;
use crate::rounding::Rounding;
use crate::text;
use crate::value;
use vstd::arithmetic::div_mod;
use vstd::arithmetic::power;
use vstd::arithmetic::power2;
use vstd::prelude::*;

verus! {

/// **Decimals are read back.** Reading what a decimal is written as, at its own
/// scale and in any mode, gives that decimal: on its own backing everywhere in
/// the symmetric range, and on a wider one for every value.
pub proof fn decimals_are_read_back<const DIGITS: u8>(
    a: Decimal<DIGITS>,
    b: Decimal128<DIGITS>,
    c: Decimal256<DIGITS>,
    mode: Rounding,
)
    ensures
        a.0 != i64::MIN ==> parse::parse_int(
            render::as_chars(a.text()),
            DIGITS as nat,
            1,
            mode,
        ) == Ok::<int, AmountErrorKind>(a.0 as int),
        parse::parse_int(render::as_chars(a.text()), DIGITS as nat, 2, mode) == Ok::<
            int,
            AmountErrorKind,
        >(a.0 as int),
        b.0 != i128::MIN ==> parse::parse_int(
            render::as_chars(b.text()),
            DIGITS as nat,
            2,
            mode,
        ) == Ok::<int, AmountErrorKind>(b.0 as int),
        parse::parse_int(render::as_chars(b.text()), DIGITS as nat, 4, mode) == Ok::<
            int,
            AmountErrorKind,
        >(b.0 as int),
        c.0@ > -power2::pow2(255) ==> parse::parse_int(
            render::as_chars(c.text()),
            DIGITS as nat,
            4,
            mode,
        ) == Ok::<int, AmountErrorKind>(c.0@),
        parse::parse_int(render::as_chars(c.text()), DIGITS as nat, 5, mode) == Ok::<
            int,
            AmountErrorKind,
        >(c.0@),
{
    number_laws::ranges_are_powers_of_two(0, 0, 0);
    value::lemma_bpow_small();
    assert(value::bpow(5) == value::base() * value::bpow(4));
    c.0.lemma_view();
    let sign: AmountSign = AmountSign::Negative;
    if a.0 != i64::MIN {
        laws::text_round_trip(a.0 as int, DIGITS, 1, sign, mode);
    }
    laws::text_round_trip(a.0 as int, DIGITS, 2, sign, mode);
    if b.0 != i128::MIN {
        laws::text_round_trip(b.0 as int, DIGITS, 2, sign, mode);
    }
    laws::text_round_trip(b.0 as int, DIGITS, 4, sign, mode);
    if c.0@ > -power2::pow2(255) {
        laws::text_round_trip(c.0@, DIGITS, 4, sign, mode);
    }
    laws::text_round_trip(c.0@, DIGITS, 5, sign, mode);
}

/// The first digit of a number that is not zero is not zero.
proof fn lemma_first_digit(n: nat)
    ensures
        render::dec_digits(n).len() >= 1,
        0x30 <= render::dec_digits(n)[0] <= 0x39,
        n > 0 ==> render::dec_digits(n)[0] != 0x30,
        n == 0 ==> render::dec_digits(n).len() == 1,
    decreases n,
{
    if n >= 10 {
        lemma_first_digit(n / 10);
        assert(render::dec_digits(n)[0] == render::dec_digits(n / 10)[0]);
    }
}

/// The shape of plain text: how it starts, where its point is and how it ends.
proof fn lemma_shape(x: nat, f: nat)
    ensures
        ({
            let t: Seq<u8> = render::plain_text(x, f);
            &&& t.len() >= 1
            &&& 0x30 <= t[0] <= 0x39
            &&& t[0] == 0x30 && t.len() > 1 ==> t[1] == 0x2e
            &&& t.last() == 0x30 + x % 10
            &&& f > 0 ==> t.len() >= f + 2 && t[t.len() - 1 - f] == 0x2e
        }),
{
    let t: Seq<u8> = render::plain_text(x, f);
    if f == 0 {
        lemma_first_digit(x);
        if x == 0 {
            assert(t.len() == 1);
        }
        assert(x < 10 ==> x % 10 == x);
    } else {
        pow10::lemma_pow10_pos(f);
        let i: nat = x / pow10::pow10(f);
        let d: Seq<u8> = render::dec_digits(i);
        div_mod::lemma_div_pos_is_pos(x as int, pow10::pow10(f) as int);
        lemma_first_digit(i);
        render::lemma_fixed_digits(x, f);
        assert(t[0] == d[0]);
        if i == 0 {
            assert(t[1] == 0x2e);
        }
        if t[0] == 0x30 {
            assert(i == 0);
        }
        assert(t.last() == render::fixed_digits(x, f).last());
        assert(render::fixed_digits(x, f).last() == render::ascii(x % 10));
        assert(t[t.len() - 1 - f] == 0x2e);
    }
}

/// Trimming stops at the point or at a digit that is not zero.
proof fn lemma_trimmed_end(n: nat, f: nat)
    ensures
        render::trim(n, f).1 > 0 ==> render::trim(n, f).0 % 10 != 0,
    decreases f,
{
    if f > 0 && n % 10 == 0 {
        lemma_trimmed_end(n / 10, (f - 1) as nat);
    }
}

/// **Signs are written** as asked: never, for negative numbers, or for all but
/// zero. Behind the sign comes a digit.
pub proof fn signs_are_written(
    n: nat,
    neg: bool,
    f: nat,
    precision: Option<usize>,
    sign: AmountSign,
)
    ensures
        ({
            let t: Seq<u8> = render::decimal_text(n, neg, f, precision, sign);
            let plain: Seq<u8> = render::decimal_text(n, neg, f, precision, AmountSign::NoSign);
            &&& plain.len() > 0 && 0x30 <= plain[0] <= 0x39
            &&& plain == render::decimal_text(n, !neg, f, precision, AmountSign::NoSign)
            &&& sign == AmountSign::Negative && neg && n > 0 ==> t == seq![0x2du8] + plain
            &&& sign == AmountSign::Negative && !(neg && n > 0) ==> t == plain
            &&& sign == AmountSign::Always && neg && n > 0 ==> t == seq![0x2du8] + plain
            &&& sign == AmountSign::Always && !neg && n > 0 ==> t == seq![0x2bu8] + plain
            &&& sign == AmountSign::Always && n == 0 ==> t == plain
        }),
{
    let e: Seq<u8> = Seq::empty();
    let body: Seq<u8> = render::body_text(n, f, precision);
    assert(e + body =~= body);
    match precision {
        None => lemma_shape(render::trim(n, f).0, render::trim(n, f).1),
        Some(p) => lemma_shape(render::at_precision(n, f, p as nat), p as nat),
    }
}

/// **Text is canonical.** Without a precision, the text of `n / 10^f` is digits
/// with at most one point. It denotes that number; it has no leading zero but one
/// right before the point or alone, and no zero or point at the end of a fraction.
pub proof fn text_is_canonical(n: nat, f: nat)
    ensures
        ({
            let t: Seq<u8> = render::decimal_text(n, false, f, None, AmountSign::NoSign);
            let g: nat = text::frac_count(t);
            &&& text::is_plain(t)
            &&& g <= f
            &&& text::digits_value(t) * power::pow(10, (f - g) as nat) == n
            &&& t.len() >= 1
            &&& 0x30 <= t[0] <= 0x39
            &&& t[0] == 0x30 && t.len() > 1 ==> t[1] == 0x2e
            &&& 0x30 <= t.last() <= 0x39
            &&& text::has_point(t) <==> g > 0
            &&& g > 0 ==> t.last() != 0x30 && t.len() >= g + 2 && t[t.len() - 1 - g] == 0x2e
        }),
{
    let e: Seq<u8> = Seq::empty();
    let x: nat = render::trim(n, f).0;
    let g: nat = render::trim(n, f).1;
    let t: Seq<u8> = render::plain_text(x, g);
    assert(e + t =~= t);
    lemma_shape(x, g);
    lemma_trimmed_end(n, f);
    laws::lemma_trim_value(n, f);
    laws::lemma_plain_text(x, g);
    number_laws::powers_of_ten((f - g) as nat);
    lemma_point(x, g);
}

/// There is a point exactly where there is a fraction.
proof fn lemma_point(x: nat, f: nat)
    ensures
        text::has_point(render::plain_text(x, f)) <==> f > 0,
{
    let t: Seq<u8> = render::plain_text(x, f);
    lemma_shape(x, f);
    if f > 0 {
        assert(text::is_point(t[t.len() - 1 - f]));
    } else {
        render::lemma_dec_digits(x);
        assert forall|i: int| 0 <= i < t.len() implies !text::is_point(#[trigger] t[i]) by {
            assert(t[i] == render::ascii(render::digit_at(x, (t.len() - 1 - i) as nat)));
        }
    }
}

/// **Decimals are written canonically**: the sign where they are negative, then
/// the canonical text of their magnitude at their scale.
pub proof fn decimals_are_written_canonically<const DIGITS: u8>(
    a: Decimal<DIGITS>,
    b: Decimal128<DIGITS>,
    c: Decimal256<DIGITS>,
)
    ensures
        ({
            let s: AmountSign = AmountSign::NoSign;
            let f: nat = DIGITS as nat;
            let minus: Seq<u8> = seq![0x2du8];
            &&& a.0 >= 0 ==> a.text() == render::decimal_text(a.0 as nat, false, f, None, s)
            &&& a.0 < 0 ==> a.text() == minus + render::decimal_text(
                (-a.0) as nat,
                false,
                f,
                None,
                s,
            )
            &&& b.0 >= 0 ==> b.text() == render::decimal_text(b.0 as nat, false, f, None, s)
            &&& b.0 < 0 ==> b.text() == minus + render::decimal_text(
                (-b.0) as nat,
                false,
                f,
                None,
                s,
            )
            &&& c.0@ >= 0 ==> c.text() == render::decimal_text(c.0@ as nat, false, f, None, s)
            &&& c.0@ < 0 ==> c.text() == minus + render::decimal_text(
                (-c.0@) as nat,
                false,
                f,
                None,
                s,
            )
        }),
{
    let f: nat = DIGITS as nat;
    let s: AmountSign = AmountSign::Negative;
    signs_are_written(rounding::mag_of(a.0 as int), a.0 < 0, f, None, s);
    signs_are_written(rounding::mag_of(b.0 as int), b.0 < 0, f, None, s);
    signs_are_written(rounding::mag_of(c.0@), c.0@ < 0, f, None, s);
}

/// **Text at a precision** has exactly that many fractional digits. It denotes
/// the number rounded half away from zero, or the number itself where there is
/// room, and its integer part has no leading zero.
pub proof fn text_has_its_precision(n: nat, f: nat, precision: usize, x: nat)
    requires
        precision < f ==> number_laws::rounds_to(
            n as int,
            power::pow(10, (f - precision) as nat),
            Rounding::HalfUp,
            x as int,
        ),
        precision >= f ==> x == n * power::pow(10, (precision - f) as nat),
    ensures
        ({
            let t: Seq<u8> = render::decimal_text(
                n,
                false,
                f,
                Some(precision),
                AmountSign::NoSign,
            );
            let p: nat = precision as nat;
            &&& text::is_plain(t)
            &&& text::digits_value(t) == x
            &&& text::frac_count(t) == p
            &&& text::has_point(t) <==> p > 0
            &&& t.len() >= 1
            &&& 0x30 <= t[0] <= 0x39
            &&& t[0] == 0x30 && t.len() > 1 ==> t[1] == 0x2e
            &&& p > 0 ==> t.len() >= p + 2 && t[t.len() - 1 - p] == 0x2e
        }),
{
    let e: Seq<u8> = Seq::empty();
    let p: nat = precision as nat;
    let y: nat = render::at_precision(n, f, p);
    let t: Seq<u8> = render::plain_text(y, p);
    assert(e + t =~= t);
    if p < f {
        let d: nat = pow10::pow10((f - p) as nat);
        number_laws::powers_of_ten((f - p) as nat);
        pow10::lemma_pow10_pos((f - p) as nat);
        number_laws::division_rounds(n as int, d, Rounding::HalfUp);
        number_laws::rounding_is_unique(n as int, d as int, Rounding::HalfUp, x as int, y as int);
    } else {
        number_laws::powers_of_ten((p - f) as nat);
    }
    lemma_shape(y, p);
    lemma_point(y, p);
    laws::lemma_plain_text(y, p);
}

/// **Text for a formatter** is the text without its sign, or a marker where
/// that is longer than 128 bytes; without a precision it never is.
pub proof fn unsigned_text_is_text(n: nat, neg: bool, f: nat, precision: Option<usize>)
    ensures
        ({
            let t: Seq<u8> = render::decimal_text(n, neg, f, precision, AmountSign::NoSign);
            let u: Seq<char> = render::unsigned_chars(n, neg, f, precision);
            &&& t.len() <= 128 ==> u == render::as_chars(t)
            &&& t.len() > 128 ==> u == "Amount::ERROR"@
            &&& precision is None && n < power2::pow2(256) && f <= 19 ==> u == render::as_chars(t)
        }),
{
    number_laws::ranges_are_powers_of_two(0, 0, 4);
    if n < power2::pow2(256) && f <= 19 {
        render::lemma_text_len(n, neg, f, AmountSign::NoSign);
    }
}

/// **Buffers.** Writing keeps the length of a buffer. A text that fits stands at
/// the right end with everything before it untouched; of one that does not, the
/// right end is there.
pub proof fn text_stands_at_the_right(before: Seq<u8>, t: Seq<u8>, i: int)
    requires
        0 <= i < before.len(),
    ensures
        ({
            let w: Seq<u8> = render::written(before, t);
            let at: int = before.len() - t.len();
            &&& w.len() == before.len()
            &&& i < at ==> w[i] == before[i]
            &&& i >= at ==> w[i] == t[i - at]
        }),
{
}

/// **Bytes and characters.** Text of digits, points and signs is the same byte
/// by byte and character by character.
pub proof fn bytes_are_characters(t: Seq<u8>, i: int)
    requires
        0 <= i < t.len(),
        t[i] < 0x80,
    ensures
        render::as_chars(t).len() == t.len(),
        render::as_chars(t)[i] == t[i] as char,
{
}

/// **Counting digits.** One more byte at the end of a text: a digit shifts the
/// number by ten and counts as a digit, and as a fractional one behind a point;
/// any other byte changes none of these.
pub proof fn digits_accumulate(b: Seq<u8>, c: u8)
    ensures
        text::digits_value(Seq::<u8>::empty()) == 0,
        text::digit_count(Seq::<u8>::empty()) == 0,
        text::frac_count(Seq::<u8>::empty()) == 0,
        !text::has_point(Seq::<u8>::empty()),
        ({
            let t: Seq<u8> = b.push(c);
            &&& 0x30 <= c <= 0x39 ==> text::digits_value(t) == 10 * text::digits_value(b) + (c
                - 0x30)
            &&& 0x30 <= c <= 0x39 ==> text::digit_count(t) == text::digit_count(b) + 1
            &&& 0x30 <= c <= 0x39 && text::has_point(b) ==> text::frac_count(t)
                == text::frac_count(b) + 1
            &&& 0x30 <= c <= 0x39 && !text::has_point(b) ==> text::frac_count(t)
                == text::frac_count(b)
            &&& !(0x30 <= c <= 0x39) ==> text::digits_value(t) == text::digits_value(b)
            &&& !(0x30 <= c <= 0x39) ==> text::digit_count(t) == text::digit_count(b)
            &&& !(0x30 <= c <= 0x39) ==> text::frac_count(t) == text::frac_count(b)
            &&& text::has_point(t) <==> text::has_point(b) || c == 0x2e
        }),
{
    let t: Seq<u8> = b.push(c);
    let n: int = b.len() as int;
    assert(t.take(n) =~= b);
    assert(t.take(n + 1) =~= t);
    text::lemma_step(t, n);
}

/// **What a number looks like**: the digits 0 to 9 with at most one point. A
/// byte is a digit or a point only where it is one of these.
pub proof fn numbers_are_digits_and_a_point(b: Seq<u8>, c: u8)
    ensures
        text::is_digit(c) <==> 0x30 <= c <= 0x39,
        text::is_point(c) <==> c == 0x2e,
        text::is_plain(b) <==> {
            &&& forall|i: int| 0 <= i < b.len() ==> 0x30 <= #[trigger] b[i] <= 0x39 || b[i] == 0x2e
            &&& forall|i: int, j: int|
                0 <= i < j < b.len() ==> !(#[trigger] b[i] == 0x2e && #[trigger] b[j] == 0x2e)
        },
{
    laws::plain_text_is_digits_and_a_point(b);
    if text::is_plain(b) {
        assert forall|i: int| 0 <= i < b.len() implies 0x30 <= #[trigger] b[i] <= 0x39 || b[i]
            == 0x2e by {
            assert(text::is_digit(b[i]) || text::is_point(b[i]));
        }
        assert forall|i: int, j: int| 0 <= i < j < b.len() implies !(#[trigger] b[i] == 0x2e
            && #[trigger] b[j] == 0x2e) by {
            assert(!(text::is_point(b[i]) && text::is_point(b[j])));
        }
    }
}

/// **The readable part** of a text is its longest prefix of digits with at most
/// one point.
pub proof fn readable_part_is_longest(b: Seq<u8>)
    ensures
        text::good_len(b) <= b.len(),
        text::is_plain(b.take(text::good_len(b) as int)),
        text::good_len(b) < b.len() ==> !text::is_plain(b.take(text::good_len(b) as int + 1)),
    decreases b.len(),
{
    let g: int = text::good_len(b) as int;
    text::lemma_good_bound(b);
    if b.len() > 0 {
        let n: int = b.len() - 1;
        let t: Seq<u8> = b.drop_last();
        readable_part_is_longest(t);
        assert(b.take(n) =~= t);
        assert(b.take(n + 1) =~= b);
        text::lemma_step(b, n);
        if g == b.len() {
            assert(b.take(g) =~= b);
        } else {
            assert(b.take(g) =~= t.take(g));
            if g < n {
                assert(b.take(g + 1) =~= t.take(g + 1));
            }
        }
    } else {
        assert(b.take(0) =~= b);
    }
}

/// **Signs are read.** A plus changes nothing, and a minus negates; neither may
/// stand alone or before another sign.
pub proof fn signs_are_read(b: Seq<u8>, scale: nat, limit: nat, mode: Rounding)
    ensures
        ({
            let plus: Seq<u8> = seq![0x2bu8] + b;
            let minus: Seq<u8> = seq![0x2du8] + b;
            let r: Result<(bool, nat), AmountErrorKind> = parse::parse_mag(b, scale, limit, mode);
            let p: Result<(bool, nat), AmountErrorKind> = parse::parse_mag(
                plus,
                scale,
                limit,
                mode,
            );
            let q: Result<(bool, nat), AmountErrorKind> = parse::parse_mag(
                minus,
                scale,
                limit,
                mode,
            );
            &&& text::unsigned_part(plus) == b && text::unsigned_part(minus) == b
            &&& !text::is_negative(plus) && text::is_negative(minus)
            &&& b.len() == 0 ==> p is Err && q is Err
            &&& b.len() > 0 && b[0] != 0x2b && b[0] != 0x2d ==> {
                &&& text::unsigned_part(b) == b && !text::is_negative(b)
                &&& p == r
                &&& r matches Ok((neg, m)) ==> !neg && q == Ok::<(bool, nat), AmountErrorKind>(
                    (true, m),
                )
                &&& r matches Err(e) ==> q == Err::<(bool, nat), AmountErrorKind>(e)
            }
            &&& b.len() > 0 && (b[0] == 0x2b || b[0] == 0x2d) ==> p is Err && q is Err
        }),
{
    let plus: Seq<u8> = seq![0x2bu8] + b;
    let minus: Seq<u8> = seq![0x2du8] + b;
    assert(plus.skip(1) =~= b);
    assert(minus.skip(1) =~= b);
    if b.len() > 0 && (b[0] == 0x2b || b[0] == 0x2d) {
        laws::plain_text_is_digits_and_a_point(b);
        assert(!text::is_digit(b[0]) && !text::is_point(b[0]));
    }
    if b.len() == 0 {
        assert(b =~= Seq::<u8>::empty());
        assert(text::digit_count(b) == 0);
    }
}

/// **Numbers are read.** Digits with at most one point, and at least one digit,
/// are the number they denote at the asked scale, its magnitude rounded where
/// there are more fractional digits. It is an overflow exactly where it reaches
/// the limit.
pub proof fn numbers_are_read(s: Seq<u8>, scale: nat, limit: nat, mode: Rounding, m: nat)
    requires
        text::is_plain(text::unsigned_part(s)),
        text::digit_count(text::unsigned_part(s)) > 0,
        ({
            let n: nat = text::digits_value(text::unsigned_part(s));
            let f: nat = text::frac_count(text::unsigned_part(s));
            &&& f <= scale ==> m == n * power::pow(10, (scale - f) as nat)
            &&& f > scale
                ==> number_laws::rounds_to(n as int, power::pow(10, (f - scale) as nat), mode, m as int)
        }),
    ensures
        m < limit ==> parse::parse_mag(s, scale, limit, mode) == Ok::<(bool, nat), AmountErrorKind>(
            (text::is_negative(s), m),
        ),
        m >= limit ==> parse::parse_mag(s, scale, limit, mode) == Err::<
            (bool, nat),
            AmountErrorKind,
        >(AmountErrorKind::Overflow),
{
    let b: Seq<u8> = text::unsigned_part(s);
    let n: nat = text::digits_value(b);
    let f: nat = text::frac_count(b);
    if s.len() == 0 {
        assert(b =~= Seq::<u8>::empty());
    }
    if f <= scale {
        number_laws::powers_of_ten((scale - f) as nat);
    } else {
        let d: nat = pow10::pow10((f - scale) as nat);
        number_laws::powers_of_ten((f - scale) as nat);
        pow10::lemma_pow10_pos((f - scale) as nat);
        number_laws::division_rounds(n as int, d, mode);
        number_laws::rounding_is_unique(
            n as int,
            d as int,
            mode,
            m as int,
            rounding::round_mag(n, d, false, mode) as int,
        );
    }
}

/// **Text without a number.** Nothing, or no digit, is empty. A byte that may
/// not stand where it does is an invalid digit, unless the digits before it have
/// overflowed already, counted in full chunks of 19.
pub proof fn other_text_is_refused(s: Seq<u8>, scale: nat, limit: nat, mode: Rounding)
    ensures
        ({
            let b: Seq<u8> = text::unsigned_part(s);
            let g: Seq<u8> = b.take(text::good_len(b) as int);
            let f: nat = text::frac_count(g);
            let cut: nat = if f > scale {
                (f - scale) as nat
            } else {
                0
            };
            let kept: int = text::digits_value(g) as int / power::pow(10, cut);
            let full: int = kept / power::pow(10, ((text::digit_count(g) - cut) as nat) % 19);
            let r: Result<(bool, nat), AmountErrorKind> = parse::parse_mag(s, scale, limit, mode);
            &&& s.len() == 0 ==> r == Err::<(bool, nat), AmountErrorKind>(AmountErrorKind::Empty)
            &&& text::is_plain(b) && text::digit_count(b) == 0 ==> r == Err::<
                (bool, nat),
                AmountErrorKind,
            >(AmountErrorKind::Empty)
            &&& !text::is_plain(b) && full < limit ==> r == Err::<(bool, nat), AmountErrorKind>(
                AmountErrorKind::InvalidDigit,
            )
            &&& !text::is_plain(b) && full >= limit ==> r == Err::<(bool, nat), AmountErrorKind>(
                AmountErrorKind::Overflow,
            )
        }),
{
    let b: Seq<u8> = text::unsigned_part(s);
    let g: Seq<u8> = b.take(text::good_len(b) as int);
    let cut: nat = parse::excess(g, scale);
    number_laws::powers_of_ten(cut);
    number_laws::powers_of_ten(((text::digit_count(g) - cut) as nat) % 19);
    if s.len() == 0 {
        assert(b =~= Seq::<u8>::empty());
        assert(text::digit_count(b) == 0);
    }
}

/// **Reading into a backing.** Text is read as bytes: the signed number where
/// twice its magnitude is below the power of two of the backing, an overflow
/// where it is not, and every other error as it is.
pub proof fn text_is_read_into_a_backing(c: Seq<char>, scale: nat, w: nat, mode: Rounding)
    ensures
        ({
            let top: nat = power2::pow2(64 * w);
            let r: Result<(bool, nat), AmountErrorKind> = parse::parse_mag(
                vstd::utf8::encode_utf8(c),
                scale,
                top,
                mode,
            );
            let p: Result<int, AmountErrorKind> = parse::parse_int(c, scale, w, mode);
            &&& r matches Ok((neg, m)) ==> {
                &&& 2 * m >= top ==> p == Err::<int, AmountErrorKind>(AmountErrorKind::Overflow)
                &&& 2 * m < top && !neg ==> p == Ok::<int, AmountErrorKind>(m as int)
                &&& 2 * m < top && neg ==> p == Ok::<int, AmountErrorKind>(-(m as int))
            }
            &&& r matches Err(e) ==> p == Err::<int, AmountErrorKind>(e)
        }),
{
    number_laws::ranges_are_powers_of_two(0, 0, w);
}

/// **Read magnitudes** are given back as limbs with their sign, and errors as
/// they are.
pub proof fn read_magnitudes<const W: usize>(
    neg: bool,
    mag: [u64; W],
    e: AmountErrorKind,
    x: Result<(bool, nat), AmountErrorKind>,
)
    ensures
        parse::agrees(Ok::<(bool, [u64; W]), AmountErrorKind>((neg, mag)), x) <==> x == Ok::<
            (bool, nat),
            AmountErrorKind,
        >((neg, value::val(mag@))),
        parse::agrees(Err::<(bool, [u64; W]), AmountErrorKind>(e), x) <==> x == Err::<
            (bool, nat),
            AmountErrorKind,
        >(e),
{
}

} // verus!
