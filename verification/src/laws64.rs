//! What the operators, conversions and totals of [`Decimal`] give, in terms of the
//! integers behind them.

use crate::decimal64;
use crate::decimal64::Decimal;
use crate::error::AmountErrorKind;
use crate::number_laws;
use crate::ops64;
use crate::pow10;
use crate::rounding;
use crate::rounding::Rounding;
use core::cmp::Ordering;
use vstd::arithmetic::power;
use vstd::arithmetic::power2;
use vstd::prelude::*;
use vstd::std_specs::cmp::{PartialEqSpec, PartialOrdSpec};
use vstd::std_specs::convert::FromSpec;
use vstd::std_specs::ops::{AddSpec, DivSpec, MulSpec, NegSpec, RemSpec, SubSpec};

verus! {

/// The integer that stands for one at a number of fractional digits.
pub open spec fn unit(digits: u8) -> int {
    power::pow(10, digits as nat)
}

/// A number that the backing integer can hold.
pub open spec fn holds(v: int) -> bool {
    -power2::pow2(63) <= v < power2::pow2(63)
}

/// A number in the symmetric range.
pub open spec fn symmetric(v: int) -> bool {
    -power2::pow2(63) < v < power2::pow2(63)
}

/// Equality of two types means what its specification says.
pub open spec fn equals<A: PartialEqSpec<B>, B>() -> bool {
    A::obeys_eq_spec()
}

/// The order of two types means what its specification says.
pub open spec fn ordered<A: PartialOrdSpec<B>, B>() -> bool {
    A::obeys_partial_cmp_spec()
}

/// The facts that the laws below share.
proof fn lemma_basics(digits: u8)
    ensures
        unit(digits) == pow10::p10(digits),
        unit(digits) > 0,
        digits <= 18 ==> decimal64::scale64(digits) == unit(digits),
        forall|v: int| #[trigger] holds(v) <==> ops64::fits64(v),
        decimal64::two63() == power2::pow2(63),
{
    number_laws::scales_are_powers(digits, 0);
    pow10::lemma_pow10_pos(digits as nat);
    number_laws::ranges_are_powers_of_two(0, 0, 0);
}

/// **Addition and subtraction** are those of the backing integers, wherever the
/// result fits; each undoes the other.
pub proof fn sums_and_differences<const DIGITS: u8>(a: Decimal<DIGITS>, b: Decimal<DIGITS>)
    ensures
        <Decimal<DIGITS> as AddSpec>::obeys_add_spec(),
        <Decimal<DIGITS> as SubSpec>::obeys_sub_spec(),
        AddSpec::add_req(a, b) <==> holds(a.0 + b.0),
        SubSpec::sub_req(a, b) <==> holds(a.0 - b.0),
        holds(a.0 + b.0) ==> AddSpec::add_spec(a, b).0 == a.0 + b.0,
        holds(a.0 - b.0) ==> SubSpec::sub_spec(a, b).0 == a.0 - b.0,
        holds(a.0 + b.0) ==> SubSpec::sub_spec(AddSpec::add_spec(a, b), b) == a,
        holds(a.0 + b.0) ==> AddSpec::add_spec(a, b) == AddSpec::add_spec(b, a),
{
    lemma_basics(DIGITS);
}

/// **Negation** changes the sign, wherever the result fits.
pub proof fn negatives<const DIGITS: u8>(a: Decimal<DIGITS>)
    ensures
        <Decimal<DIGITS> as NegSpec>::obeys_neg_spec(),
        NegSpec::neg_req(a) <==> holds(-a.0),
        holds(-a.0) ==> NegSpec::neg_spec(a).0 == -a.0,
{
    lemma_basics(DIGITS);
}

/// **Multiplication and division.** Where `p` is the exact product over one
/// scale, and `q` the exact quotient at one scale, rounded half up, they are what
/// the operators give exactly where they lie in the symmetric range.
pub proof fn products_and_quotients<const DIGITS: u8>(a: Decimal<DIGITS>, b: Decimal<DIGITS>, p: int, q: int)
    requires
        DIGITS <= 19,
        number_laws::rounds_to(a.0 * b.0, unit(DIGITS), Rounding::HalfUp, p),
        b.0 > 0 ==> number_laws::rounds_to(a.0 * unit(DIGITS), b.0 as int, Rounding::HalfUp, q),
        b.0 < 0 ==> number_laws::rounds_to(
            -(a.0 * unit(DIGITS)),
            -(b.0 as int),
            Rounding::HalfUp,
            q,
        ),
    ensures
        <Decimal<DIGITS> as MulSpec>::obeys_mul_spec(),
        <Decimal<DIGITS> as DivSpec>::obeys_div_spec(),
        MulSpec::mul_req(a, b) <==> symmetric(p),
        symmetric(p) ==> MulSpec::mul_spec(a, b).0 == p,
        DivSpec::div_req(a, b) <==> b.0 != 0 && symmetric(q),
        b.0 != 0 && symmetric(q) ==> DivSpec::div_spec(a, b).0 == q,
{
    let x: int = a.0 as int;
    let y: int = b.0 as int;
    lemma_basics(DIGITS);
    number_laws::product_rounds(x, y, DIGITS, Rounding::HalfUp);
    number_laws::rounding_is_unique(
        x * y,
        unit(DIGITS),
        Rounding::HalfUp,
        p,
        rounding::product(x, y, DIGITS, Rounding::HalfUp),
    );
    if y != 0 {
        number_laws::quotient_rounds(x, y, DIGITS, Rounding::HalfUp);
        let r: int = rounding::quotient(x, y, DIGITS, Rounding::HalfUp);
        if y > 0 {
            number_laws::rounding_is_unique(x * unit(DIGITS), y, Rounding::HalfUp, q, r);
        } else {
            number_laws::rounding_is_unique(-(x * unit(DIGITS)), -y, Rounding::HalfUp, q, r);
        }
    }
}

/// **Remainders.** What is left of `a` after taking away the multiple `k` of `b`
/// that leaves less than `b`, with the sign of `a`.
pub proof fn remainders<const DIGITS: u8>(a: Decimal<DIGITS>, b: Decimal<DIGITS>, k: int)
    requires
        b.0 != 0,
        rounding::mag_of(a.0 - k * b.0) < rounding::mag_of(b.0 as int),
        a.0 >= 0 ==> a.0 - k * b.0 >= 0,
        a.0 <= 0 ==> a.0 - k * b.0 <= 0,
    ensures
        <Decimal<DIGITS> as RemSpec>::obeys_rem_spec(),
        RemSpec::rem_req(a, b) <==> b.0 != 0 && !(a.0 == i64::MIN && b.0 == -1),
        RemSpec::rem_spec(a, b).0 == a.0 - k * b.0,
{
    let x: int = a.0 as int;
    let y: int = b.0 as int;
    let d: int = rounding::mag_of(y) as int;
    let r: int = x - k * y;
    let m: int = rounding::mag_of(x) as int;
    let j: int = rounding::mag_of(k) as int;
    assert(rounding::mag_of(r) as int + j * d == m) by {
        assert(k * y == j * d || k * y == -(j * d)) by (nonlinear_arith)
            requires
                (k == j || k == -j) && (y == d || y == -d),
        ;
        assert(j * d >= 0 && (j >= 1
            ==> j * d >= d) && (j == 0 ==> j * d == 0)) by (nonlinear_arith)
            requires
                j >= 0,
                d > 0,
        ;
    }
    assert(j * d == d * j) by (nonlinear_arith);
    vstd::arithmetic::div_mod::lemma_fundamental_div_mod_converse(
        m,
        d,
        j,
        rounding::mag_of(r) as int,
    );
}

/// **Order.** Decimals compare as their backing integers do, and with integers
/// as these at the same scale.
pub proof fn comparisons<const DIGITS: u8>(a: Decimal<DIGITS>, b: Decimal<DIGITS>, n: i64)
    ensures
        equals::<Decimal<DIGITS>, Decimal<DIGITS>>() && equals::<Decimal<DIGITS>, i64>(),
        ordered::<Decimal<DIGITS>, Decimal<DIGITS>>() && ordered::<Decimal<DIGITS>, i64>(),
        a.eq_spec(&b) <==> a.0 == b.0,
        a.partial_cmp_spec(&b) == Some(Ordering::Less) <==> a.0 < b.0,
        a.partial_cmp_spec(&b) == Some(Ordering::Equal) <==> a.0 == b.0,
        a.partial_cmp_spec(&b) == Some(Ordering::Greater) <==> a.0 > b.0,
        DIGITS <= 18 ==> {
            &&& a.eq_spec(&n) <==> a.0 == n * unit(DIGITS)
            &&& a.partial_cmp_spec(&n) == Some(Ordering::Less) <==> a.0 < n * unit(DIGITS)
            &&& a.partial_cmp_spec(&n) == Some(Ordering::Equal) <==> a.0 == n * unit(DIGITS)
            &&& a.partial_cmp_spec(&n) == Some(Ordering::Greater) <==> a.0 > n * unit(DIGITS)
        },
        equals::<i64, Decimal<DIGITS>>() && ordered::<i64, Decimal<DIGITS>>(),
        n.eq_spec(&a) <==> a.eq_spec(&n),
        n.partial_cmp_spec(&a) == Some(Ordering::Less) <==> a.partial_cmp_spec(&n) == Some(
            Ordering::Greater,
        ),
        n.partial_cmp_spec(&a) == Some(Ordering::Equal) <==> a.eq_spec(&n),
        n.partial_cmp_spec(&a) == Some(Ordering::Greater) <==> a.partial_cmp_spec(&n) == Some(
            Ordering::Less,
        ),
        DIGITS > 18 ==> (a.eq_spec(&n) <==> a.0 == 0),
        DIGITS > 18 ==> (a.partial_cmp_spec(&n) == Some(Ordering::Less) <==> a.0 < 0),
{
    lemma_basics(DIGITS);
    number_laws::scales_are_powers(DIGITS, 0);
    assert(n * 0 == 0);
}

/// **Integer operands.** An integer counts as that many ones: converting it,
/// adding it and taking it away agree, and multiplying by it is repeated
/// addition.
pub proof fn integer_operands<const DIGITS: u8>(a: Decimal<DIGITS>, n: i64, k: i32)
    requires
        DIGITS <= 18,
    ensures
        <Decimal<DIGITS> as FromSpec<i64>>::obeys_from_spec(),
        <Decimal<DIGITS> as FromSpec<i32>>::obeys_from_spec(),
        <Decimal<DIGITS> as AddSpec<i64>>::obeys_add_spec(),
        <Decimal<DIGITS> as AddSpec<i32>>::obeys_add_spec(),
        <Decimal<DIGITS> as SubSpec<i64>>::obeys_sub_spec(),
        <Decimal<DIGITS> as SubSpec<i32>>::obeys_sub_spec(),
        <Decimal<DIGITS> as MulSpec<i64>>::obeys_mul_spec(),
        <Decimal<DIGITS> as MulSpec<i32>>::obeys_mul_spec(),
        holds(n * unit(DIGITS))
            ==> <Decimal<DIGITS> as FromSpec<i64>>::from_spec(n).0 == n * unit(DIGITS),
        holds(k * unit(DIGITS))
            ==> <Decimal<DIGITS> as FromSpec<i32>>::from_spec(k).0 == k * unit(DIGITS),
        AddSpec::add_req(a, n) <==> holds(n * unit(DIGITS)) && holds(a.0 + n * unit(DIGITS)),
        holds(n * unit(DIGITS)) && holds(a.0 + n * unit(DIGITS))
            ==> AddSpec::add_spec(a, n).0 == a.0 + n * unit(DIGITS),
        AddSpec::add_req(a, k) <==> holds(k * unit(DIGITS)) && holds(a.0 + k * unit(DIGITS)),
        holds(k * unit(DIGITS)) && holds(a.0 + k * unit(DIGITS))
            ==> AddSpec::add_spec(a, k).0 == a.0 + k * unit(DIGITS),
        SubSpec::sub_req(a, n) <==> holds(n * unit(DIGITS)) && holds(a.0 - n * unit(DIGITS)),
        holds(n * unit(DIGITS)) && holds(a.0 - n * unit(DIGITS))
            ==> SubSpec::sub_spec(a, n).0 == a.0 - n * unit(DIGITS),
        SubSpec::sub_req(a, k) <==> holds(k * unit(DIGITS)) && holds(a.0 - k * unit(DIGITS)),
        holds(k * unit(DIGITS)) && holds(a.0 - k * unit(DIGITS))
            ==> SubSpec::sub_spec(a, k).0 == a.0 - k * unit(DIGITS),
        MulSpec::mul_req(a, n) <==> holds(a.0 * n),
        holds(a.0 * n) ==> MulSpec::mul_spec(a, n).0 == a.0 * n,
        MulSpec::mul_req(a, k) <==> holds(a.0 * k),
        holds(a.0 * k) ==> MulSpec::mul_spec(a, k).0 == a.0 * k,
{
    lemma_basics(DIGITS);
    decimal64::lemma_scale64(DIGITS);
    lemma_wrapping(n, scale_word(DIGITS));
    lemma_wrapping(widened(k), scale_word(DIGITS));
}

/// The scale as a word.
spec fn scale_word(digits: u8) -> i64 {
    decimal64::scale64(digits) as i64
}

/// An integer in a wider word.
spec fn widened(k: i32) -> i64 {
    k as i64
}

/// A product that fits does not wrap, and one that does not differs from what
/// it wraps to by a multiple of 2^64.
proof fn lemma_wrapping(x: i64, y: i64)
    ensures
        holds(x * y) ==> x.wrapping_mul(y) == x * y,
        (x.wrapping_mul(y) - x * y) % 0x1_0000_0000_0000_0000 == 0,
{
    lemma_basics(0);
}

/// **Conversions wrap.** What an integer converts to differs from that many ones
/// by a multiple of 2^64, also where they do not fit. From 19 digits on, where
/// one does not fit either, it is zero.
pub proof fn conversions_wrap<const DIGITS: u8>(n: i64, k: i32)
    ensures
        DIGITS <= 18 ==> (<Decimal<DIGITS> as FromSpec<i64>>::from_spec(n).0 - n * unit(DIGITS))
            % 0x1_0000_0000_0000_0000 == 0,
        DIGITS <= 18 ==> (<Decimal<DIGITS> as FromSpec<i32>>::from_spec(k).0 - k * unit(DIGITS))
            % 0x1_0000_0000_0000_0000 == 0,
        DIGITS > 18 ==> <Decimal<DIGITS> as FromSpec<i64>>::from_spec(n).0 == 0,
        DIGITS > 18 ==> <Decimal<DIGITS> as FromSpec<i32>>::from_spec(k).0 == 0,
{
    lemma_basics(DIGITS);
    number_laws::scales_are_powers(DIGITS, 0);
    if DIGITS <= 18 {
        decimal64::lemma_scale64(DIGITS);
    }
    lemma_wrapping(n, scale_word(DIGITS));
    lemma_wrapping(widened(k), scale_word(DIGITS));
    assert(n * 0 == 0);
    assert(k * 0 == 0);
}

/// **Integers on the left.** An integer takes a decimal with a fraction as the
/// nearest integer, a half away from zero, and multiplies as a backing integer
/// does. A decimal without fractional digits it takes as the next integer.
pub proof fn integers_on_the_left<const DIGITS: u8>(n: i64, d: Decimal<DIGITS>, w: int, p: int)
    requires
        DIGITS <= 18,
        DIGITS > 0 ==> number_laws::rounds_to(d.0 as int, unit(DIGITS), Rounding::HalfUp, w),
        DIGITS == 0 ==> w == d.0 + 1,
        number_laws::rounds_to(n * d.0, unit(DIGITS), Rounding::HalfUp, p),
    ensures
        <i64 as AddSpec<Decimal<DIGITS>>>::obeys_add_spec(),
        <i64 as SubSpec<Decimal<DIGITS>>>::obeys_sub_spec(),
        <i64 as MulSpec<Decimal<DIGITS>>>::obeys_mul_spec(),
        AddSpec::add_req(n, d) <==> holds(w) && holds(n + w),
        holds(w) && holds(n + w) ==> AddSpec::add_spec(n, d) == n + w,
        SubSpec::sub_req(n, d) <==> holds(w) && holds(n - w),
        holds(w) && holds(n - w) ==> SubSpec::sub_spec(n, d) == n - w,
        MulSpec::mul_req(n, d) <==> symmetric(p),
        symmetric(p) ==> MulSpec::mul_spec(n, d) == p,
{
    let v: int = d.0 as int;
    let s: int = decimal64::scale64(DIGITS);
    lemma_basics(DIGITS);
    decimal64::lemma_scale64(DIGITS);
    number_laws::product_rounds(n as int, v, DIGITS, Rounding::HalfUp);
    number_laws::rounding_is_unique(
        n * v,
        unit(DIGITS),
        Rounding::HalfUp,
        p,
        rounding::product(n as int, v, DIGITS, Rounding::HalfUp),
    );
    rounding::lemma_trunc_parts(v, s as nat);
    let q: int = rounding::trunc_div(v, s as nat);
    let f: int = rounding::trunc_rem(v, s as nat);
    let o: int = ops64::whole(v, s);
    assert((q + 1) * s == q * s + s) by (nonlinear_arith);
    assert((q - 1) * s == q * s - s) by (nonlinear_arith);
    if DIGITS > 0 {
        assert(number_laws::rounds_to(v, s, Rounding::HalfUp, o));
        number_laws::rounding_is_unique(v, s, Rounding::HalfUp, w, o);
    } else {
        assert(q * 1 == q);
    }
}

/// **Totals.** Nothing adds up to zero, one more entry of either sign adds its
/// integer, and totals of parts add up. A total can be taken exactly where it
/// fits after every entry.
pub proof fn totals<const DIGITS: u8>(s: Seq<Decimal<DIGITS>>, t: Seq<Decimal<DIGITS>>, d: Decimal<DIGITS>)
    ensures
        ops64::raw_sum(Seq::<Decimal<DIGITS>>::empty()) == 0,
        ops64::raw_sum(s.push(d)) == ops64::raw_sum(s) + d.0,
        ops64::raw_sum(s + t) == ops64::raw_sum(s) + ops64::raw_sum(t),
        ops64::sums_fit(Seq::<Decimal<DIGITS>>::empty()),
        ops64::sums_fit(s.push(d)) <==> ops64::sums_fit(s) && holds(ops64::raw_sum(s) + d.0),
    decreases t.len(),
{
    lemma_basics(DIGITS);
    assert(s.push(d).drop_last() =~= s);
    if t.len() > 0 {
        totals(s, t.drop_last(), d);
        assert((s + t).drop_last() =~= s + t.drop_last());
    } else {
        assert(s + t =~= s);
    }
    let p: Seq<Decimal<DIGITS>> = s.push(d);
    let n: int = s.len() as int;
    assert(p.take(n + 1) =~= p);
    assert(p.take(n) =~= s);
    assert(s.take(n) =~= s);
    assert(holds(0) && holds(ops64::raw_sum(s) + d.0) == ops64::fits64(ops64::raw_sum(p)));
    let e: Seq<Decimal<DIGITS>> = Seq::empty();
    assert(e.take(0) =~= e);
    if ops64::sums_fit(p) {
        assert(ops64::fits64(ops64::raw_sum(p.take(n + 1))));
        assert forall|k: int| 0 <= k <= n
            implies ops64::fits64(#[trigger] ops64::raw_sum(s.take(k))) by {
            assert(p.take(k) =~= s.take(k));
            assert(ops64::fits64(ops64::raw_sum(p.take(k))));
        }
    }
    if ops64::sums_fit(s) && holds(ops64::raw_sum(s) + d.0) {
        assert forall|k: int| 0 <= k <= p.len()
            implies ops64::fits64(#[trigger] ops64::raw_sum(p.take(k))) by {
            if k <= n {
                assert(p.take(k) =~= s.take(k));
                assert(ops64::fits64(ops64::raw_sum(s.take(k))));
            }
        }
    }
}

/// **Two entries** total what the operator gives, and an entry and its negative
/// total zero.
pub proof fn small_totals<const DIGITS: u8>(a: Decimal<DIGITS>, b: Decimal<DIGITS>)
    ensures
        ops64::raw_sum(seq![a]) == a.0,
        holds(a.0 + b.0) ==> ops64::raw_sum(seq![a, b]) == AddSpec::add_spec(a, b).0,
        a.0 + b.0 == 0 ==> ops64::raw_sum(seq![a, b]) == 0,
{
    let e: Seq<Decimal<DIGITS>> = Seq::empty();
    totals(e, e, a);
    totals(seq![a], e, b);
    sums_and_differences(a, b);
    assert(e.push(a) =~= seq![a]);
    assert(seq![a].push(b) =~= seq![a, b]);
}

/// **Products of lists.** Nothing multiplies to one, and one more entry is one
/// more product, rounded half up. A product can be taken exactly where it lies in
/// the symmetric range after every entry.
pub proof fn list_products<const DIGITS: u8>(s: Seq<Decimal<DIGITS>>, d: Decimal<DIGITS>)
    requires
        DIGITS <= 18,
    ensures
        ops64::raw_product(Seq::<Decimal<DIGITS>>::empty()) == unit(DIGITS),
        number_laws::rounds_to(
            ops64::raw_product(s) * d.0,
            unit(DIGITS),
            Rounding::HalfUp,
            ops64::raw_product(s.push(d)),
        ),
        ops64::products_fit(Seq::<Decimal<DIGITS>>::empty()),
        ops64::products_fit(s.push(d)) <==> ops64::products_fit(s) && symmetric(
            ops64::raw_product(s.push(d)),
        ),
{
    lemma_basics(DIGITS);
    let p: Seq<Decimal<DIGITS>> = s.push(d);
    let n: int = s.len() as int;
    assert(p.drop_last() =~= s);
    number_laws::product_rounds(ops64::raw_product(s), d.0 as int, DIGITS, Rounding::HalfUp);
    assert(p.take(n + 1) =~= p);
    if ops64::products_fit(p) {
        assert(rounding::within(ops64::raw_product(p.take(n + 1)), decimal64::two63()));
        assert forall|k: int| 0 < k <= n implies rounding::within(
            #[trigger] ops64::raw_product(s.take(k)),
            decimal64::two63(),
        ) by {
            assert(p.take(k) =~= s.take(k));
            assert(rounding::within(ops64::raw_product(p.take(k)), decimal64::two63()));
        }
    }
    if ops64::products_fit(s) && symmetric(ops64::raw_product(p)) {
        assert forall|k: int| 0 < k <= p.len() implies rounding::within(
            #[trigger] ops64::raw_product(p.take(k)),
            decimal64::two63(),
        ) by {
            if k <= n {
                assert(p.take(k) =~= s.take(k));
                assert(rounding::within(ops64::raw_product(s.take(k)), decimal64::two63()));
            }
        }
    }
}

/// **Checked results.** A checked result holds the value exactly where that lies
/// in the symmetric range, and a failed conversion keeps its error.
pub proof fn checked_results<const DIGITS: u8>(
    r: Option<Decimal<DIGITS>>,
    v: int,
    d: Decimal<DIGITS>,
    e: AmountErrorKind,
)
    ensures
        decimal64::checked64(r, v) <==> match r {
            Some(x) => symmetric(v) && x.0 == v,
            None => !symmetric(v),
        },
        decimal64::raw_result(Ok::<Decimal<DIGITS>, AmountErrorKind>(d)) == Ok::<int, AmountErrorKind>(d.0 as int),
        decimal64::raw_result(Err::<Decimal<DIGITS>, AmountErrorKind>(e)) == Err::<int, AmountErrorKind>(e),
        decimal64::int_result(Ok::<i64, AmountErrorKind>(d.0)) == Ok::<int, AmountErrorKind>(
            d.0 as int,
        ),
        decimal64::int_result(Err::<i64, AmountErrorKind>(e)) == Err::<int, AmountErrorKind>(e),
{
    lemma_basics(DIGITS);
}

/// **Rounding to a unit.** The rounded value is a whole number of units, and it
/// is owed where the backing integer holds it.
pub proof fn unit_roundings<const DIGITS: u8>(d: Decimal<DIGITS>, u: int, mode: Rounding, k: int)
    requires
        u > 0,
        number_laws::rounds_to(d.0 as int, u, mode, k),
    ensures
        d.rounded_raw(u, mode) == k * u,
        d.rounds_in_range(u, mode) <==> holds(k * u),
{
    lemma_basics(DIGITS);
    number_laws::division_rounds(d.0 as int, u as nat, mode);
    number_laws::rounding_is_unique(
        d.0 as int,
        u,
        mode,
        k,
        rounding::round_div(d.0 as int, u as nat, mode),
    );
}

} // verus!
