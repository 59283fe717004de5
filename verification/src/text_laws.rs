//! Laws of numerals.

use vstd::prelude::*;

use crate::text::{digits, int_text, numeral_value, padded, parse_reads_what_digits_writes, zeros};

verus! {

/// The character of a decimal digit.
pub open spec fn digit_char(d: int) -> char {
    if d == 0 {
        '0'
    } else if d == 1 {
        '1'
    } else if d == 2 {
        '2'
    } else if d == 3 {
        '3'
    } else if d == 4 {
        '4'
    } else if d == 5 {
        '5'
    } else if d == 6 {
        '6'
    } else if d == 7 {
        '7'
    } else if d == 8 {
        '8'
    } else {
        '9'
    }
}

/// The two decimal digits of a number below a hundred.
pub open spec fn two_digits(n: int) -> Seq<char> {
    seq![digit_char(n / 10), digit_char(n % 10)]
}

/// A numeral ends in the last digit of the number, and what stands before is the numeral of the other
/// digits; a number below ten has one digit, and a negative one a minus sign before its size.
pub proof fn numerals_are_decimal(n: nat)
    ensures
        n < 10 ==> digits(n) == seq![digit_char(n as int)],
        n >= 10 ==> digits(n) == digits(n / 10).push(digit_char(n as int % 10)),
        int_text(n as int) == digits(n),
        n > 0 ==> int_text(-(n as int)) == seq!['-'] + digits(n),
{
}

/// A number below a hundred that is filled up to two digits is its two decimal digits.
pub proof fn two_digits_are_written(n: int)
    requires
        0 <= n < 100,
    ensures
        padded(n, 2) == two_digits(n),
{
    reveal_with_fuel(digits, 3);
    reveal_with_fuel(zeros, 3);
    assert(padded(n, 2) =~= two_digits(n));
}

/// Filling up adds zeros only, and as many as are missing: the value stays, and the length is the
/// width wherever the numeral is not longer.
pub proof fn filling_up_keeps_the_value(n: nat, width: int)
    ensures
        numeral_value(padded(n as int, width)) == n,
        padded(n as int, width).len() == if digits(n).len() < width {
            width
        } else {
            digits(n).len() as int
        },
{
    parse_reads_what_digits_writes(n);
    lemma_zeros(width - digits(n).len(), digits(n));
}

/// A negative number is filled up behind its sign, which counts as one place.
pub proof fn signs_take_one_place(n: int, width: int)
    requires
        n > 0,
    ensures
        padded(-n, width) == seq!['-'] + padded(n, width - 1),
        padded(-n, width).len() == if digits(n as nat).len() + 1 < width {
            width
        } else {
            1 + digits(n as nat).len() as int
        },
{
    assert(padded(-n, width) =~= seq!['-'] + padded(n, width - 1));
    filling_up_keeps_the_value(n as nat, width - 1);
}

proof fn lemma_zeros(k: int, s: Seq<char>)
    ensures
        numeral_value(zeros(k) + s) == numeral_value(s),
        zeros(k).len() == if k > 0 { k } else { 0 },
    decreases s.len(), k,
{
    if s.len() > 0 {
        lemma_zeros(k, s.drop_last());
        assert((zeros(k) + s).drop_last() =~= zeros(k) + s.drop_last());
        assert((zeros(k) + s).last() == s.last());
    } else {
        assert(zeros(k) + s =~= zeros(k));
        if k > 0 {
            lemma_zeros(k - 1, s);
            assert(zeros(k - 1) + s =~= zeros(k - 1));
            assert(zeros(k).len() == k);
            lemma_all_zeros(k);
        } else {
            assert(zeros(k) =~= Seq::empty());
        }
    }
}

proof fn lemma_all_zeros(k: int)
    ensures
        numeral_value(zeros(k)) == 0,
        zeros(k).len() == if k > 0 { k } else { 0 },
        forall|i: int| 0 <= i < zeros(k).len() ==> zeros(k)[i] == '0',
    decreases k,
{
    if k > 0 {
        lemma_all_zeros(k - 1);
        assert(zeros(k).drop_last() =~= zeros(k - 1));
    }
}

} // verus!
