//! Laws of decimal numbers: what their texts stand for, and how they are compared.

use vstd::prelude::*;

use crate::decimal::{
    above, below, dec_of, fraction_end, mantissa, places, pow10, raised, stated_exponent, Bound,
    Dec,
};
use crate::string_laws::{all_digits, is_exponent, lemma_run};
use crate::text::{after_sign, digit_run, is_digit, numeral_value};

verus! {

/// The power of ten that an exponent states.
pub open spec fn exponent_value(e: Seq<char>) -> int {
    if e.len() == 0 {
        0
    } else if e[1] == '-' {
        -(numeral_value(e.skip(2)) as int)
    } else if e[1] == '+' {
        numeral_value(e.skip(2)) as int
    } else {
        numeral_value(e.skip(1)) as int
    }
}

proof fn lemma_stated(s: Seq<char>, b: int, e: Seq<char>)
    requires
        0 <= b <= s.len(),
        s.skip(b) == e,
        is_exponent(e),
        fraction_end(s, digit_run(s, after_sign(s, 0))) == b,
    ensures
        stated_exponent(s) == exponent_value(e),
{
    if e.len() > 0 {
        assert(e[0] == s[b]);
        assert(e.len() > 1);
        assert(e[1] == s[b + 1]);
        let j = after_sign(s, b + 1);
        assert(e.skip(j - b) =~= s.subrange(j, s.len() as int));
        assert(is_digit(e.skip(j - b)[0]));
        assert(e.skip(j - b)[0] == e[j - b]);
    }
}

/// A number with a point stands for its digits, as many places to the right as there are digits behind
/// the point, times the power of ten that its exponent states; a minus sign makes it negative.
pub proof fn numbers_with_a_point_stand_for_their_value(
    sign: Seq<char>,
    whole: Seq<char>,
    fraction: Seq<char>,
    exponent: Seq<char>,
)
    requires
        sign.len() == 0 || sign == seq!['+'] || sign == seq!['-'],
        all_digits(whole),
        all_digits(fraction),
        is_exponent(exponent),
        whole.len() + fraction.len() > 0,
    ensures
        dec_of(sign + whole + seq!['.'] + fraction + exponent) == (Dec {
            neg: sign == seq!['-'],
            mant: numeral_value(whole + fraction),
            exp: exponent_value(exponent) - fraction.len(),
        }),
{
    let (n, w, f) = (sign.len() as int, whole.len() as int, fraction.len() as int);
    let s = sign + whole + seq!['.'] + fraction + exponent;
    assert(s[n + w] == '.');
    assert forall|j: int| n <= j < n + w implies is_digit(#[trigger] s[j]) by {
        assert(s[j] == whole[j - n]);
    }
    assert forall|j: int| n + w + 1 <= j < n + w + 1 + f implies is_digit(#[trigger] s[j]) by {
        assert(s[j] == fraction[j - n - w - 1]);
    }
    if w > 0 {
        assert(is_digit(s[n]));
    }
    assert(after_sign(s, 0) == n);
    let b = n + w + 1 + f;
    if exponent.len() > 0 {
        assert(s[b] == exponent[0]);
    }
    lemma_run(s, n, n + w);
    lemma_run(s, n + w + 1, b);
    assert(s.skip(b) =~= exponent);
    lemma_stated(s, b, exponent);
    assert(s.subrange(n, n + w) =~= whole);
    assert(s.subrange(n + w + 1, b) =~= fraction);
    assert(mantissa(s) == whole + fraction);
    assert(places(s) == f);
    assert((s[0] == '-') == (sign == seq!['-'])) by {
        if n > 0 {
            assert(s[0] == sign[0]);
        } else if w > 0 {
            assert(is_digit(s[0]));
        }
    }
}

/// A number without a point stands for its digits times the power of ten that its exponent states; a minus
/// sign makes it negative.
pub proof fn numbers_without_a_point_stand_for_their_value(
    sign: Seq<char>,
    whole: Seq<char>,
    exponent: Seq<char>,
)
    requires
        sign.len() == 0 || sign == seq!['+'] || sign == seq!['-'],
        all_digits(whole),
        is_exponent(exponent),
        whole.len() > 0,
    ensures
        dec_of(sign + whole + exponent) == (Dec {
            neg: sign == seq!['-'],
            mant: numeral_value(whole),
            exp: exponent_value(exponent),
        }),
{
    let (n, w) = (sign.len() as int, whole.len() as int);
    let s = sign + whole + exponent;
    assert forall|j: int| n <= j < n + w implies is_digit(#[trigger] s[j]) by {
        assert(s[j] == whole[j - n]);
    }
    assert(is_digit(s[n]));
    assert(after_sign(s, 0) == n);
    let b = n + w;
    if exponent.len() > 0 {
        assert(s[b] == exponent[0]);
    }
    lemma_run(s, n, b);
    assert(s.skip(b) =~= exponent);
    lemma_stated(s, b, exponent);
    assert(s.subrange(n, b) =~= whole);
    assert(places(s) == 0);
    if n > 0 {
        assert(s[0] == sign[0]);
    }
}

proof fn lemma_pow_next(n: nat)
    ensures
        pow10(n + 1) == 10 * pow10(n),
        pow10(n) > 0,
    decreases n,
{
    if n > 0 {
        lemma_pow_next((n - 1) as nat);
    }
}

/// A number is less than a bound, the bound or more than it, and never two of these. In units of the last
/// place of the bound the numbers are compared as they are, and writing a zero behind a number, with its
/// point moved along, changes nothing.
pub proof fn sizes_are_compared_by_value(d: Dec, b: Bound)
    ensures
        !(below(d, b) && above(d, b)),
        d.exp == -(b.places as int) ==> {
            &&& below(d, b) <==> d.mant < b.whole * pow10(b.places as nat) + b.frac
            &&& above(d, b) <==> d.mant > b.whole * pow10(b.places as nat) + b.frac
        },
        ({
            let longer = Dec { neg: d.neg, mant: 10 * d.mant, exp: d.exp - 1 };
            &&& below(longer, b) == below(d, b)
            &&& above(longer, b) == above(d, b)
        }),
{
    let e = d.exp + b.places;
    let m = d.mant;
    let v = b.scaled();
    let longer = Dec { neg: d.neg, mant: 10 * d.mant, exp: d.exp - 1 };
    assert(longer.exp + b.places == e - 1);
    if e >= 1 {
        let p = pow10((e - 1) as nat);
        lemma_pow_next((e - 1) as nat);
        assert(pow10(e as nat) == 10 * p);
        assert((10 * m) * p == m * (10 * p)) by (nonlinear_arith);
        if e == 1 {
            assert(p == 1);
            assert((10 * m) * p == 10 * m) by (nonlinear_arith)
                requires
                    p == 1,
            ;
        }
        assert(raised(m, e) == raised(10 * m, e - 1));
        assert(raised(v, -e) == v && raised(v, 1 - e) == v);
    } else {
        let p = pow10((-e) as nat);
        lemma_pow_next((-e) as nat);
        assert(pow10((1 - e) as nat) == 10 * p);
        assert(v * (10 * p) == 10 * (v * p)) by (nonlinear_arith);
        if e == 0 {
            assert(p == 1);
            assert(v * p == v) by (nonlinear_arith)
                requires
                    p == 1,
            ;
        }
        assert(raised(v, 1 - e) == 10 * raised(v, -e));
        assert(raised(m, e) == m && raised(10 * m, e - 1) == 10 * m);
    }
    assert(below(longer, b) == (raised(10 * m, e - 1) < raised(v, 1 - e)));
    assert(above(longer, b) == (raised(10 * m, e - 1) > raised(v, 1 - e)));
}

} // verus!
