//! What the operators, conversions and totals of [`Decimal256`] give, in terms of the
//! integers behind them.

use crate::decimal256;
use crate::decimal256::Decimal256;
use crate::error::AmountErrorKind;
use crate::i256::I256;
use crate::number_laws;
use crate::ops256;
use crate::pow10;
use crate::rounding;
use crate::rounding::Rounding;
use core::cmp::Ordering;
use vstd::arithmetic::power;
use vstd::arithmetic::power2;
use vstd::prelude::*;
use vstd::std_specs::cmp::{PartialEqSpec, PartialOrdSpec};
use vstd::std_specs::convert::FromSpec;
use vstd::std_specs::ops::{AddSpec, DivSpec, MulSpec, NegSpec, RemSpec, SubSpec};

verus! {

/// The integer that stands for one at a number of fractional digits.
pub open spec fn unit(digits: u8) -> int {
    power::pow(10, digits as nat)
}

/// A number that the backing integer can hold.
pub open spec fn holds(v: int) -> bool {
    -power2::pow2(255) <= v < power2::pow2(255)
}

/// A number in the symmetric range.
pub open spec fn symmetric(v: int) -> bool {
    -power2::pow2(255) < v < power2::pow2(255)
}

/// Equality of two types means what its specification says.
pub open spec fn equals<A: PartialEqSpec<B>, B>() -> bool {
    A::obeys_eq_spec()
}

/// The order of two types means what its specification says.
pub open spec fn ordered<A: PartialOrdSpec<B>, B>() -> bool {
    A::obeys_partial_cmp_spec()
}

/// The facts that the laws below share.
proof fn lemma_basics(digits: u8)
    ensures
        unit(digits) == pow10::p10(digits),
        unit(digits) > 0,
        digits <= 19 ==> pow10::wide_scale(digits) == unit(digits),
        forall|v: int| #[trigger] holds(v) <==> ops256::fits256(v),
        crate::i256::two255() == power2::pow2(255),
{
    number_laws::scales_are_powers(digits, 0);
    pow10::lemma_pow10_pos(digits as nat);
    number_laws::ranges_are_powers_of_two(0, 0, 0);
}

/// **Addition and subtraction** are those of the backing integers, wherever the
/// result fits; each undoes the other.
pub proof fn sums_and_differences<const DIGITS: u8>(a: Decimal256<DIGITS>, b: Decimal256<DIGITS>)
    ensures
        <Decimal256<DIGITS> as AddSpec>::obeys_add_spec(),
        <Decimal256<DIGITS> as SubSpec>::obeys_sub_spec(),
        AddSpec::add_req(a, b) <==> holds(a.0@ + b.0@),
        SubSpec::sub_req(a, b) <==> holds(a.0@ - b.0@),
        holds(a.0@ + b.0@) ==> AddSpec::add_spec(a, b).0@ == a.0@ + b.0@,
        holds(a.0@ - b.0@) ==> SubSpec::sub_spec(a, b).0@ == a.0@ - b.0@,
        holds(a.0@ + b.0@) ==> SubSpec::sub_spec(AddSpec::add_spec(a, b), b) == a,
        holds(a.0@ + b.0@) ==> AddSpec::add_spec(a, b) == AddSpec::add_spec(b, a),
{
    lemma_basics(DIGITS);
    a.0.lemma_view();
    b.0.lemma_view();
    if holds(a.0@ + b.0@) {
        I256::lemma_of(a.0@ + b.0@);
    }
    if holds(a.0@ - b.0@) {
        I256::lemma_of(a.0@ - b.0@);
    }
    I256::lemma_of(a.0@);
}

/// **Negation** changes the sign. The most negative integer, whose negative
/// does not fit, stays.
pub proof fn negatives<const DIGITS: u8>(a: Decimal256<DIGITS>)
    ensures
        <Decimal256<DIGITS> as NegSpec>::obeys_neg_spec(),
        NegSpec::neg_req(a),
        holds(-a.0@) ==> NegSpec::neg_spec(a).0@ == -a.0@,
        !holds(-a.0@) ==> NegSpec::neg_spec(a) == a,
        symmetric(a.0@) ==> NegSpec::neg_spec(NegSpec::neg_spec(a)) == a,
{
    lemma_basics(DIGITS);
    a.0.lemma_view();
    I256::lemma_of(a.0@);
    if holds(-a.0@) {
        I256::lemma_of(-a.0@);
    }
}

/// **Multiplication and division.** Where `p` is the exact product over one
/// scale, and `q` the exact quotient at one scale, rounded half up, they are what
/// the operators give exactly where they lie in the symmetric range.
pub proof fn products_and_quotients<const DIGITS: u8>(a: Decimal256<DIGITS>, b: Decimal256<DIGITS>, p: int, q: int)
    requires
        DIGITS <= 19,
        number_laws::rounds_to(a.0@ * b.0@, unit(DIGITS), Rounding::HalfUp, p),
        b.0@ > 0 ==> number_laws::rounds_to(a.0@ * unit(DIGITS), b.0@ as int, Rounding::HalfUp, q),
        b.0@ < 0 ==> number_laws::rounds_to(
            -(a.0@ * unit(DIGITS)),
            -(b.0@ as int),
            Rounding::HalfUp,
            q,
        ),
    ensures
        <Decimal256<DIGITS> as MulSpec>::obeys_mul_spec(),
        <Decimal256<DIGITS> as DivSpec>::obeys_div_spec(),
        MulSpec::mul_req(a, b) <==> symmetric(p),
        symmetric(p) ==> MulSpec::mul_spec(a, b).0@ == p,
        DivSpec::div_req(a, b) <==> b.0@ != 0 && symmetric(q),
        b.0@ != 0 && symmetric(q) ==> DivSpec::div_spec(a, b).0@ == q,
{
    let x: int = a.0@ as int;
    let y: int = b.0@ as int;
    lemma_basics(DIGITS);
    number_laws::product_rounds(x, y, DIGITS, Rounding::HalfUp);
    number_laws::rounding_is_unique(
        x * y,
        unit(DIGITS),
        Rounding::HalfUp,
        p,
        rounding::product(x, y, DIGITS, Rounding::HalfUp),
    );
    if y != 0 {
        number_laws::quotient_rounds(x, y, DIGITS, Rounding::HalfUp);
        let r: int = rounding::quotient(x, y, DIGITS, Rounding::HalfUp);
        if y > 0 {
            number_laws::rounding_is_unique(x * unit(DIGITS), y, Rounding::HalfUp, q, r);
        } else {
            number_laws::rounding_is_unique(-(x * unit(DIGITS)), -y, Rounding::HalfUp, q, r);
        }
    }
    if symmetric(p) {
        I256::lemma_of(p);
    }
    if symmetric(q) {
        I256::lemma_of(q);
    }
}

/// **Remainders.** What is left of `a` after taking away the multiple `k` of `b`
/// that leaves less than `b`, with the sign of `a`.
pub proof fn remainders<const DIGITS: u8>(a: Decimal256<DIGITS>, b: Decimal256<DIGITS>, k: int)
    requires
        b.0@ != 0,
        rounding::mag_of(a.0@ - k * b.0@) < rounding::mag_of(b.0@ as int),
        a.0@ >= 0 ==> a.0@ - k * b.0@ >= 0,
        a.0@ <= 0 ==> a.0@ - k * b.0@ <= 0,
    ensures
        <Decimal256<DIGITS> as RemSpec>::obeys_rem_spec(),
        RemSpec::rem_req(a, b) <==> b.0@ != 0,
        RemSpec::rem_spec(a, b).0@ == a.0@ - k * b.0@,
{
    let x: int = a.0@ as int;
    let y: int = b.0@ as int;
    let d: int = rounding::mag_of(y) as int;
    let r: int = x - k * y;
    let m: int = rounding::mag_of(x) as int;
    let j: int = rounding::mag_of(k) as int;
    assert(rounding::mag_of(r) as int + j * d == m) by {
        assert(k * y == j * d || k * y == -(j * d)) by (nonlinear_arith)
            requires
                (k == j || k == -j) && (y == d || y == -d),
        ;
        assert(j * d >= 0 && (j >= 1
            ==> j * d >= d) && (j == 0 ==> j * d == 0)) by (nonlinear_arith)
            requires
                j >= 0,
                d > 0,
        ;
    }
    assert(j * d == d * j) by (nonlinear_arith);
    vstd::arithmetic::div_mod::lemma_fundamental_div_mod_converse(
        m,
        d,
        j,
        rounding::mag_of(r) as int,
    );
    a.0.lemma_view();
    b.0.lemma_view();
    I256::lemma_of(r);
}

/// **Order.** Decimals compare as their backing integers do, and with integers
/// as these at the same scale.
pub proof fn comparisons<const DIGITS: u8>(a: Decimal256<DIGITS>, b: Decimal256<DIGITS>, n: i64)
    ensures
        equals::<Decimal256<DIGITS>, Decimal256<DIGITS>>() && equals::<Decimal256<DIGITS>, i64>(),
        ordered::<Decimal256<DIGITS>, Decimal256<DIGITS>>() && ordered::<Decimal256<DIGITS>, i64>(),
        a.eq_spec(&b) <==> a.0@ == b.0@,
        a.partial_cmp_spec(&b) == Some(Ordering::Less) <==> a.0@ < b.0@,
        a.partial_cmp_spec(&b) == Some(Ordering::Equal) <==> a.0@ == b.0@,
        a.partial_cmp_spec(&b) == Some(Ordering::Greater) <==> a.0@ > b.0@,
        DIGITS <= 19 ==> {
            &&& a.eq_spec(&n) <==> a.0@ == n * unit(DIGITS)
            &&& a.partial_cmp_spec(&n) == Some(Ordering::Less) <==> a.0@ < n * unit(DIGITS)
            &&& a.partial_cmp_spec(&n) == Some(Ordering::Equal) <==> a.0@ == n * unit(DIGITS)
            &&& a.partial_cmp_spec(&n) == Some(Ordering::Greater) <==> a.0@ > n * unit(DIGITS)
        },
{
    lemma_basics(DIGITS);
    number_laws::scales_are_powers(DIGITS, 0);
    assert(n * 0 == 0);
}

/// **Integer operands.** An integer counts as that many ones: converting it,
/// adding it and taking it away agree, and multiplying by it is repeated
/// addition.
pub proof fn integer_operands<const DIGITS: u8>(a: Decimal256<DIGITS>, n: i64, k: i32)
    requires
        DIGITS <= 19,
    ensures
        <Decimal256<DIGITS> as FromSpec<i64>>::obeys_from_spec(),
        <Decimal256<DIGITS> as FromSpec<i32>>::obeys_from_spec(),
        <Decimal256<DIGITS> as AddSpec<i64>>::obeys_add_spec(),
        <Decimal256<DIGITS> as AddSpec<i32>>::obeys_add_spec(),
        <Decimal256<DIGITS> as SubSpec<i64>>::obeys_sub_spec(),
        <Decimal256<DIGITS> as SubSpec<i32>>::obeys_sub_spec(),
        <Decimal256<DIGITS> as MulSpec<i64>>::obeys_mul_spec(),
        <Decimal256<DIGITS> as MulSpec<i32>>::obeys_mul_spec(),
        holds(n * unit(DIGITS))
            ==> <Decimal256<DIGITS> as FromSpec<i64>>::from_spec(n).0@ == n * unit(DIGITS),
        holds(k * unit(DIGITS))
            ==> <Decimal256<DIGITS> as FromSpec<i32>>::from_spec(k).0@ == k * unit(DIGITS),
        AddSpec::add_req(a, n) <==> holds(a.0@ + n * unit(DIGITS)),
        holds(a.0@ + n * unit(DIGITS)) ==> AddSpec::add_spec(a, n).0@ == a.0@ + n * unit(DIGITS),
        AddSpec::add_req(a, k) <==> holds(a.0@ + k * unit(DIGITS)),
        holds(a.0@ + k * unit(DIGITS)) ==> AddSpec::add_spec(a, k).0@ == a.0@ + k * unit(DIGITS),
        SubSpec::sub_req(a, n) <==> holds(a.0@ - n * unit(DIGITS)),
        holds(a.0@ - n * unit(DIGITS)) ==> SubSpec::sub_spec(a, n).0@ == a.0@ - n * unit(DIGITS),
        SubSpec::sub_req(a, k) <==> holds(a.0@ - k * unit(DIGITS)),
        holds(a.0@ - k * unit(DIGITS)) ==> SubSpec::sub_spec(a, k).0@ == a.0@ - k * unit(DIGITS),
        MulSpec::mul_req(a, n) <==> symmetric(a.0@ * n),
        symmetric(a.0@ * n) ==> MulSpec::mul_spec(a, n).0@ == a.0@ * n,
        MulSpec::mul_req(a, k) <==> symmetric(a.0@ * k),
        symmetric(a.0@ * k) ==> MulSpec::mul_spec(a, k).0@ == a.0@ * k,
{
    lemma_basics(DIGITS);
    a.0.lemma_view();
    let u: int = unit(DIGITS);
    lemma_of_where(n * u);
    lemma_of_where(k * u);
    lemma_of_where(a.0@ + n * u);
    lemma_of_where(a.0@ + k * u);
    lemma_of_where(a.0@ - n * u);
    lemma_of_where(a.0@ - k * u);
    lemma_of_where(a.0@ * n);
    lemma_of_where(a.0@ * k);
}

/// A number that fits is the number of its own backing integer.
proof fn lemma_of_where(v: int)
    ensures
        holds(v) ==> I256::of(v)@ == v,
{
    lemma_basics(0);
    if holds(v) {
        I256::lemma_of(v);
    }
}

/// **Wide integers** convert exactly.
pub proof fn wide_integers_convert<const DIGITS: u8>(n: i128)
    requires
        DIGITS <= 19,
    ensures
        <Decimal256<DIGITS> as FromSpec<i128>>::obeys_from_spec(),
        <Decimal256<DIGITS> as FromSpec<i128>>::from_spec(n).0@ == n * unit(DIGITS),
{
    lemma_basics(DIGITS);
    pow10::lemma_p10_word(DIGITS);
    let u: int = unit(DIGITS);
    let h: int = crate::i256::two255();
    assert(-h <= n * u < h) by (nonlinear_arith)
        requires
            0 < u <= 0xffff_ffff_ffff_ffff,
            -0x8000_0000_0000_0000_0000_0000_0000_0000 <= n
                <= 0x7fff_ffff_ffff_ffff_ffff_ffff_ffff_ffff,
            h == 0x8000_0000_0000_0000_0000_0000_0000_0000_0000_0000_0000_0000_0000_0000_0000_0000int,
    ;
    lemma_of_where(n * u);
}

/// **Totals.** Nothing adds up to zero, one more entry of either sign adds its
/// integer, and totals of parts add up. A total can be taken exactly where it
/// fits after every entry.
pub proof fn totals<const DIGITS: u8>(s: Seq<Decimal256<DIGITS>>, t: Seq<Decimal256<DIGITS>>, d: Decimal256<DIGITS>)
    ensures
        ops256::raw_sum(Seq::<Decimal256<DIGITS>>::empty()) == 0,
        ops256::raw_sum(s.push(d)) == ops256::raw_sum(s) + d.0@,
        ops256::raw_sum(s + t) == ops256::raw_sum(s) + ops256::raw_sum(t),
        ops256::sums_fit(Seq::<Decimal256<DIGITS>>::empty()),
        ops256::sums_fit(s.push(d)) <==> ops256::sums_fit(s) && holds(ops256::raw_sum(s) + d.0@),
    decreases t.len(),
{
    lemma_basics(DIGITS);
    assert(s.push(d).drop_last() =~= s);
    if t.len() > 0 {
        totals(s, t.drop_last(), d);
        assert((s + t).drop_last() =~= s + t.drop_last());
    } else {
        assert(s + t =~= s);
    }
    let p: Seq<Decimal256<DIGITS>> = s.push(d);
    let n: int = s.len() as int;
    assert(p.take(n + 1) =~= p);
    assert(p.take(n) =~= s);
    assert(s.take(n) =~= s);
    assert(holds(0) && holds(ops256::raw_sum(s) + d.0@) == ops256::fits256(ops256::raw_sum(p)));
    let e: Seq<Decimal256<DIGITS>> = Seq::empty();
    assert(e.take(0) =~= e);
    if ops256::sums_fit(p) {
        assert(ops256::fits256(ops256::raw_sum(p.take(n + 1))));
        assert forall|k: int| 0 <= k <= n
            implies ops256::fits256(#[trigger] ops256::raw_sum(s.take(k))) by {
            assert(p.take(k) =~= s.take(k));
            assert(ops256::fits256(ops256::raw_sum(p.take(k))));
        }
    }
    if ops256::sums_fit(s) && holds(ops256::raw_sum(s) + d.0@) {
        assert forall|k: int| 0 <= k <= p.len()
            implies ops256::fits256(#[trigger] ops256::raw_sum(p.take(k))) by {
            if k <= n {
                assert(p.take(k) =~= s.take(k));
                assert(ops256::fits256(ops256::raw_sum(s.take(k))));
            }
        }
    }
}

/// **Two entries** total what the operator gives, and an entry and its negative
/// total zero.
pub proof fn small_totals<const DIGITS: u8>(a: Decimal256<DIGITS>, b: Decimal256<DIGITS>)
    ensures
        ops256::raw_sum(seq![a]) == a.0@,
        holds(a.0@ + b.0@) ==> ops256::raw_sum(seq![a, b]) == AddSpec::add_spec(a, b).0@,
        a.0@ + b.0@ == 0 ==> ops256::raw_sum(seq![a, b]) == 0,
{
    let e: Seq<Decimal256<DIGITS>> = Seq::empty();
    totals(e, e, a);
    totals(seq![a], e, b);
    sums_and_differences(a, b);
    assert(e.push(a) =~= seq![a]);
    assert(seq![a].push(b) =~= seq![a, b]);
}

/// **Products of lists.** Nothing multiplies to one, and one more entry is one
/// more product, rounded half up. A product can be taken exactly where it lies in
/// the symmetric range after every entry.
pub proof fn list_products<const DIGITS: u8>(s: Seq<Decimal256<DIGITS>>, d: Decimal256<DIGITS>)
    requires
        DIGITS <= 19,
    ensures
        ops256::raw_product(Seq::<Decimal256<DIGITS>>::empty()) == unit(DIGITS),
        number_laws::rounds_to(
            ops256::raw_product(s) * d.0@,
            unit(DIGITS),
            Rounding::HalfUp,
            ops256::raw_product(s.push(d)),
        ),
        ops256::products_fit(Seq::<Decimal256<DIGITS>>::empty()),
        ops256::products_fit(s.push(d)) <==> ops256::products_fit(s) && symmetric(
            ops256::raw_product(s.push(d)),
        ),
{
    lemma_basics(DIGITS);
    let p: Seq<Decimal256<DIGITS>> = s.push(d);
    let n: int = s.len() as int;
    assert(p.drop_last() =~= s);
    number_laws::product_rounds(ops256::raw_product(s), d.0@ as int, DIGITS, Rounding::HalfUp);
    assert(p.take(n + 1) =~= p);
    if ops256::products_fit(p) {
        assert(rounding::within(ops256::raw_product(p.take(n + 1)), crate::i256::two255()));
        assert forall|k: int| 0 < k <= n implies rounding::within(
            #[trigger] ops256::raw_product(s.take(k)),
            crate::i256::two255(),
        ) by {
            assert(p.take(k) =~= s.take(k));
            assert(rounding::within(ops256::raw_product(p.take(k)), crate::i256::two255()));
        }
    }
    if ops256::products_fit(s) && symmetric(ops256::raw_product(p)) {
        assert forall|k: int| 0 < k <= p.len() implies rounding::within(
            #[trigger] ops256::raw_product(p.take(k)),
            crate::i256::two255(),
        ) by {
            if k <= n {
                assert(p.take(k) =~= s.take(k));
                assert(rounding::within(ops256::raw_product(s.take(k)), crate::i256::two255()));
            }
        }
    }
}

/// **Checked results.** A checked result holds the value exactly where that lies
/// in the symmetric range, and a failed conversion keeps its error.
pub proof fn checked_results<const DIGITS: u8>(
    r: Option<Decimal256<DIGITS>>,
    v: int,
    d: Decimal256<DIGITS>,
    e: AmountErrorKind,
)
    ensures
        decimal256::checked256(r, v) <==> match r {
            Some(x) => symmetric(v) && x.0@ == v,
            None => !symmetric(v),
        },
        decimal256::raw_result(Ok::<Decimal256<DIGITS>, AmountErrorKind>(d)) == Ok::<int, AmountErrorKind>(d.0@ as int),
        decimal256::raw_result(Err::<Decimal256<DIGITS>, AmountErrorKind>(e)) == Err::<int, AmountErrorKind>(e),
{
    lemma_basics(DIGITS);
}

/// **Rounding to whole numbers.** The rounded value is a whole number of ones,
/// and it is owed where the value is whole already or the result lies in the
/// symmetric range.
pub proof fn whole_roundings<const DIGITS: u8>(d: Decimal256<DIGITS>, mode: Rounding, k: int)
    requires
        number_laws::rounds_to(d.0@, unit(DIGITS), mode, k),
    ensures
        d.rounded_raw(mode) == k * unit(DIGITS),
        d.rounds_in_range(mode) <==> d.0@ == k * unit(DIGITS) || symmetric(k * unit(DIGITS)),
{
    let u: int = unit(DIGITS);
    lemma_basics(DIGITS);
    number_laws::division_rounds(d.0@, pow10::p10(DIGITS), mode);
    number_laws::rounding_is_unique(d.0@, u, mode, k, rounding::round_div(d.0@, pow10::p10(DIGITS), mode));
    rounding::lemma_round_close(d.0@, pow10::p10(DIGITS), mode);
    if d.0@ == k * u {
        vstd::arithmetic::div_mod::lemma_mod_multiples_basic(k, u);
    }
}

} // verus!
