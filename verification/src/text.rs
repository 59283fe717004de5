//! Text primitives: conversion between strings and character vectors, equality, decimal numerals.

use vstd::prelude::*;
use vstd::string::StringSliceAdditionalSpecFns;

verus! {

/// `String::push` appends one character at the end of the string.
pub assume_specification[ String::push ](s: &mut String, c: char)
    ensures
        final(s)@ == old(s)@.push(c),
;

/// Whether two strings hold the same characters.
pub fn same(a: &str, b: &str) -> (r: bool)
    ensures
        r == (a@ == b@),
{
    a.to_owned() == b.to_owned()
}

/// The characters of a string.
pub fn chars_of(s: &str) -> (r: Vec<char>)
    ensures
        r@ == s@,
{
    let mut out: Vec<char> = Vec::new();
    for c in it: s.chars()
        invariant
            out@ == s@.take(it.index() as int),
            it.seq() == s@,
    {
        out.push(c);
        assert(s@.take(it.index() as int + 1) =~= s@.take(it.index() as int).push(c));
    }
    assert(s@.take(s@.len() as int) =~= s@);
    out
}

/// The string that holds the given characters.
pub fn string_of(cs: &[char]) -> (r: String)
    ensures
        r@ == cs@,
{
    let mut out: String = String::new();
    let mut i: usize = 0;
    while i < cs.len()
        invariant
            i <= cs@.len(),
            out@ == cs@.take(i as int),
        decreases cs@.len() - i,
    {
        out.push(cs[i]);
        assert(cs@.take(i as int + 1) =~= cs@.take(i as int).push(cs@[i as int]));
        i = i + 1;
    }
    assert(cs@.take(cs@.len() as int) =~= cs@);
    out
}

// ---------- decimal numerals ----------

/// The character of one decimal digit.
pub open spec fn digit(d: nat) -> char {
    (48 + d) as u8 as char
}

/// The shortest decimal numeral of a number: no leading zero, "0" for zero.
pub open spec fn digits(n: nat) -> Seq<char>
    decreases n,
{
    if n < 10 {
        seq![digit(n)]
    } else {
        digits(n / 10).push(digit(n % 10))
    }
}

/// The decimal numeral of an integer, with a minus sign where it is negative.
pub open spec fn int_text(i: int) -> Seq<char> {
    if i < 0 {
        seq!['-'] + digits((-i) as nat)
    } else {
        digits(i as nat)
    }
}

/// Appends the decimal numeral of `n`.
pub fn push_digits(out: &mut String, n: u64)
    ensures
        final(out)@ == old(out)@ + digits(n as nat),
    decreases n,
{
    let ghost start = out@;
    if n >= 10 {
        push_digits(out, n / 10);
        out.push((48 + (n % 10) as u8) as char);
        assert(out@ =~= start + digits(n as nat));
    } else {
        out.push((48 + n as u8) as char);
        assert(out@ =~= start + digits(n as nat));
    }
}

/// Appends the decimal numeral of `i`.
pub fn push_int(out: &mut String, i: i64)
    ensures
        final(out)@ == old(out)@ + int_text(i as int),
{
    let ghost start = out@;
    if i < 0 {
        out.push('-');
        push_digits(out, (-(i as i128)) as u64);
        assert(out@ =~= start + int_text(i as int));
    } else {
        push_digits(out, i as u64);
    }
}

/// The decimal numeral of `n`.
pub fn u64_text(n: u64) -> (r: String)
    ensures
        r@ == digits(n as nat),
{
    let mut out: String = String::new();
    push_digits(&mut out, n);
    assert(out@ =~= digits(n as nat));
    out
}

/// The decimal numeral of `i`.
pub fn i64_text(i: i64) -> (r: String)
    ensures
        r@ == int_text(i as int),
{
    let mut out: String = String::new();
    push_int(&mut out, i);
    assert(out@ =~= int_text(i as int));
    out
}

/// `n` zeros.
pub open spec fn zeros(n: int) -> Seq<char>
    decreases n,
{
    if n <= 0 {
        Seq::empty()
    } else {
        zeros(n - 1).push('0')
    }
}

/// The decimal numeral of an integer, filled up with zeros behind the sign to a width.
pub open spec fn padded(i: int, width: int) -> Seq<char> {
    if i < 0 {
        seq!['-'] + zeros(width - 1 - digits((-i) as nat).len()) + digits((-i) as nat)
    } else {
        zeros(width - digits(i as nat).len()) + digits(i as nat)
    }
}

/// Appends the decimal numeral of `i`, filled up with zeros behind the sign to a width.
pub fn push_padded(out: &mut String, i: i64, width: usize)
    ensures
        final(out)@ == old(out)@ + padded(i as int, width as int),
{
    let ghost start = out@;
    let n: u64 = if i < 0 { (-(i as i128)) as u64 } else { i as u64 };
    let body: String = u64_text(n);
    let len: usize = body.as_str().unicode_len();
    let room: usize = if i < 0 {
        out.push('-');
        if width > 0 { width - 1 } else { 0 }
    } else {
        width
    };
    let ghost head = out@;
    let fill: usize = if len < room { room - len } else { 0 };
    let mut k: usize = 0;
    assert(head + zeros(0) =~= head);
    while k < fill
        invariant
            k <= fill,
            out@ == head + zeros(k as int),
        decreases fill - k,
    {
        out.push('0');
        k = k + 1;
        assert(head + zeros(k as int) =~= (head + zeros(k - 1)).push('0'));
    }
    out.append(body.as_str());
    proof {
        let w = if i < 0 { width - 1 } else { width as int };
        assert(zeros(w - digits(n as nat).len()) =~= zeros(fill as int));
        assert(out@ =~= start + padded(i as int, width as int));
    }
}

/// Whether a character is a decimal digit.
pub open spec fn is_digit(c: char) -> bool {
    '0' <= c <= '9'
}

/// A numeral is not empty and holds digits only.
pub proof fn lemma_digits_shape(n: nat)
    ensures
        digits(n).len() >= 1,
        forall|i: int| 0 <= i < digits(n).len() ==> is_digit(#[trigger] digits(n)[i]),
    decreases n,
{
    if n >= 10 {
        lemma_digits_shape(n / 10);
    }
}

/// Different numbers have different numerals.
pub proof fn lemma_digits_injective(a: nat, b: nat)
    requires
        digits(a) == digits(b),
    ensures
        a == b,
    decreases a,
{
    lemma_digits_shape(a / 10);
    lemma_digits_shape(b / 10);
    assert(digits(a).last() == digit(a % 10));
    assert(digits(b).last() == digit(b % 10));
    assert(a % 10 == b % 10);
    if a >= 10 && b >= 10 {
        assert(digits(a).drop_last() =~= digits(a / 10));
        assert(digits(b).drop_last() =~= digits(b / 10));
        lemma_digits_injective(a / 10, b / 10);
    }
}

// ---------- reading integers ----------

/// The value of a digit.
pub open spec fn digit_value(c: char) -> nat {
    (c as u32 - 48) as nat
}

/// The number that decimal digits stand for, leading zeros allowed.
pub open spec fn numeral_value(s: Seq<char>) -> nat
    decreases s.len(),
{
    if s.len() == 0 {
        0
    } else {
        10 * numeral_value(s.drop_last()) + digit_value(s.last())
    }
}

/// Whether text is one or more decimal digits.
pub open spec fn is_numeral(s: Seq<char>) -> bool {
    s.len() >= 1 && forall|i: int| 0 <= i < s.len() ==> is_digit(#[trigger] s[i])
}

/// The integer that text stands for: digits after an optional plus sign, or a minus sign where
/// the range holds negative numbers. `None` for anything else and for numbers out of range.
pub open spec fn parsed_int(s: Seq<char>, lo: int, hi: int) -> Option<int> {
    let minus = s.len() > 0 && s[0] == '-' && lo < 0;
    let plus = s.len() > 0 && s[0] == '+';
    let body = if minus || plus { s.skip(1) } else { s };
    if is_numeral(body) {
        let v = if minus { -(numeral_value(body) as int) } else { numeral_value(body) as int };
        if lo <= v <= hi {
            Some(v)
        } else {
            None
        }
    } else {
        None
    }
}

/// The number that digits stand for, capped at 2 to the power 100; `None` where the text is not
/// made of digits.
pub fn capped_numeral(cs: &[char]) -> (r: Option<u128>)
    ensures
        match r {
            None => !is_numeral(cs@),
            Some(v) => is_numeral(cs@) && v == if numeral_value(cs@) < 0x10_0000_0000_0000_0000_0000_0000 {
                numeral_value(cs@) as int
            } else {
                0x10_0000_0000_0000_0000_0000_0000
            },
        },
{
    if cs.len() == 0 {
        return None;
    }
    let mut acc: u128 = 0;
    let mut i: usize = 0;
    while i < cs.len()
        invariant
            i <= cs@.len(),
            cs@.len() >= 1,
            forall|j: int| 0 <= j < i ==> is_digit(#[trigger] cs@[j]),
            acc == if numeral_value(cs@.take(i as int)) < 0x10_0000_0000_0000_0000_0000_0000 {
                numeral_value(cs@.take(i as int)) as int
            } else {
                0x10_0000_0000_0000_0000_0000_0000
            },
        decreases cs@.len() - i,
    {
        let c: char = cs[i];
        if !('0' <= c && c <= '9') {
            return None;
        }
        assert(cs@.take(i + 1).drop_last() =~= cs@.take(i as int));
        let next: u128 = acc * 10 + (c as u32 - 48) as u128;
        acc = if next < 0x10_0000_0000_0000_0000_0000_0000 { next } else { 0x10_0000_0000_0000_0000_0000_0000 };
        i = i + 1;
    }
    assert(cs@.take(cs@.len() as int) =~= cs@);
    Some(acc)
}

/// Reads an integer of the range from `lo` to `hi`, as `str::parse` reads the integer type of
/// that range.
fn parse_int(s: &str, lo: i128, hi: i128) -> (r: Option<i128>)
    requires
        -0x8000_0000_0000_0000 <= lo <= 0 <= hi < 0x1_0000_0000_0000_0000,
    ensures
        match parsed_int(s@, lo as int, hi as int) {
            None => r is None,
            Some(v) => r is Some && r->Some_0 == v,
        },
{
    let cs: Vec<char> = chars_of(s);
    let minus: bool = cs.len() > 0 && cs[0] == '-' && lo < 0;
    let plus: bool = cs.len() > 0 && cs[0] == '+';
    let start: usize = if minus || plus { 1 } else { 0 };
    let n: usize = cs.len();
    assert(minus || plus ==> cs@.subrange(1, n as int) =~= s@.skip(1));
    assert(cs@.subrange(0, n as int) =~= s@);
    match capped_numeral(&cs.as_slice()[start..n]) {
        None => None,
        Some(v) => {
            let signed: i128 = if minus { -(v as i128) } else { v as i128 };
            if lo <= signed && signed <= hi {
                Some(signed)
            } else {
                None
            }
        },
    }
}

/// Reads an `i64` as `str::parse` does.
pub fn parse_i64(s: &str) -> (r: Option<i64>)
    ensures
        match parsed_int(s@, i64::MIN as int, i64::MAX as int) {
            None => r is None,
            Some(v) => r is Some && r->Some_0 == v,
        },
{
    match parse_int(s, i64::MIN as i128, i64::MAX as i128) {
        None => None,
        Some(v) => Some(v as i64),
    }
}

/// Reads a `u64` as `str::parse` does.
pub fn parse_u64(s: &str) -> (r: Option<u64>)
    ensures
        match parsed_int(s@, 0, u64::MAX as int) {
            None => r is None,
            Some(v) => r is Some && r->Some_0 == v,
        },
{
    match parse_int(s, 0, u64::MAX as i128) {
        None => None,
        Some(v) => Some(v as u64),
    }
}

/// Reading the numeral of a number gives the number back.
pub proof fn parse_reads_what_digits_writes(n: nat)
    ensures
        is_numeral(digits(n)),
        numeral_value(digits(n)) == n,
    decreases n,
{
    lemma_digits_shape(n);
    if n >= 10 {
        parse_reads_what_digits_writes(n / 10);
        assert(digits(n).drop_last() =~= digits(n / 10));
    } else {
        assert(digits(n).drop_last() =~= Seq::empty());
        assert(numeral_value(Seq::<char>::empty()) == 0);
    }
}

// ---------- the texts of floating-point numbers ----------

/// Where the run of digits that starts at `i` ends.
pub open spec fn digit_run(s: Seq<char>, i: int) -> int
    decreases s.len() - i,
{
    if 0 <= i < s.len() && is_digit(s[i]) {
        digit_run(s, i + 1)
    } else {
        i
    }
}

/// The index behind an optional sign at `i`.
pub open spec fn after_sign(s: Seq<char>, i: int) -> int {
    if 0 <= i < s.len() && (s[i] == '+' || s[i] == '-') {
        i + 1
    } else {
        i
    }
}

/// Whether `c` is the lower-case letter `l` or its upper-case form.
pub open spec fn letter(c: char, l: char) -> bool {
    c == l || c as u32 + 32 == l as u32
}

/// Whether the text from `i` on is "inf", "infinity" or "nan" in any case.
pub open spec fn special_from(s: Seq<char>, i: int) -> bool {
    let n = s.len() - i;
    ||| n == 3 && letter(s[i], 'i') && letter(s[i + 1], 'n') && letter(s[i + 2], 'f')
    ||| n == 3 && letter(s[i], 'n') && letter(s[i + 1], 'a') && letter(s[i + 2], 'n')
    ||| n == 8 && letter(s[i], 'i') && letter(s[i + 1], 'n') && letter(s[i + 2], 'f') && letter(
        s[i + 3],
        'i',
    ) && letter(s[i + 4], 'n') && letter(s[i + 5], 'i') && letter(s[i + 6], 't') && letter(
        s[i + 7],
        'y',
    )
}

/// Whether the text from `i` on is empty or an exponent: a letter E, an optional sign, digits.
pub open spec fn exponent_from(s: Seq<char>, i: int) -> bool {
    ||| i == s.len()
    ||| {
        &&& i < s.len()
        &&& letter(s[i], 'e')
        &&& after_sign(s, i + 1) < digit_run(s, after_sign(s, i + 1))
        &&& digit_run(s, after_sign(s, i + 1)) == s.len()
    }
}

/// Whether the text from `i` on is a decimal number: digits with an optional point among or
/// beside them, and an optional exponent.
pub open spec fn number_from(s: Seq<char>, i: int) -> bool {
    let a = digit_run(s, i);
    if a < s.len() && s[a] == '.' {
        let b = digit_run(s, a + 1);
        (a > i || b > a + 1) && exponent_from(s, b)
    } else {
        a > i && exponent_from(s, a)
    }
}

/// Whether text is a floating-point number as `str::parse` reads one.
pub open spec fn is_float(s: Seq<char>) -> bool {
    let i = after_sign(s, 0);
    special_from(s, i) || number_from(s, i)
}

pub proof fn lemma_digit_run(s: Seq<char>, i: int)
    requires
        0 <= i <= s.len(),
    ensures
        i <= digit_run(s, i) <= s.len(),
    decreases s.len() - i,
{
    if i < s.len() && is_digit(s[i]) {
        lemma_digit_run(s, i + 1);
    }
}

pub fn run_end(cs: &Vec<char>, start: usize) -> (r: usize)
    requires
        start <= cs@.len(),
    ensures
        r == digit_run(cs@, start as int),
        start <= r <= cs@.len(),
{
    let mut i: usize = start;
    proof {
        lemma_digit_run(cs@, start as int);
    }
    while i < cs.len() && '0' <= cs[i] && cs[i] <= '9'
        invariant
            start <= i <= cs@.len(),
            digit_run(cs@, start as int) == digit_run(cs@, i as int),
        decreases cs@.len() - i,
    {
        i = i + 1;
    }
    i
}

pub fn sign_end(cs: &Vec<char>, i: usize) -> (r: usize)
    requires
        i <= cs@.len(),
    ensures
        r == after_sign(cs@, i as int),
        r <= cs@.len(),
{
    if i < cs.len() && (cs[i] == '+' || cs[i] == '-') {
        i + 1
    } else {
        i
    }
}

pub fn is_letter(c: char, l: char) -> (r: bool)
    ensures
        r == letter(c, l),
{
    c == l || c as u32 as u64 + 32 == l as u32 as u64
}

pub fn is_special(cs: &Vec<char>, i: usize) -> (r: bool)
    requires
        i <= cs@.len(),
    ensures
        r == special_from(cs@, i as int),
{
    let n: usize = cs.len() - i;
    if n == 3 {
        (is_letter(cs[i], 'i') && is_letter(cs[i + 1], 'n') && is_letter(cs[i + 2], 'f')) || (
        is_letter(cs[i], 'n') && is_letter(cs[i + 1], 'a') && is_letter(cs[i + 2], 'n'))
    } else if n == 8 {
        is_letter(cs[i], 'i') && is_letter(cs[i + 1], 'n') && is_letter(cs[i + 2], 'f')
            && is_letter(cs[i + 3], 'i') && is_letter(cs[i + 4], 'n') && is_letter(cs[i + 5], 'i')
            && is_letter(cs[i + 6], 't') && is_letter(cs[i + 7], 'y')
    } else {
        false
    }
}

fn is_exponent(cs: &Vec<char>, i: usize) -> (r: bool)
    requires
        i <= cs@.len(),
    ensures
        r == exponent_from(cs@, i as int),
{
    if i == cs.len() {
        true
    } else if is_letter(cs[i], 'e') {
        let a: usize = sign_end(cs, i + 1);
        let b: usize = run_end(cs, a);
        a < b && b == cs.len()
    } else {
        false
    }
}

/// Whether text is a floating-point number as `str::parse` reads one.
pub fn float_text(s: &str) -> (r: bool)
    ensures
        r == is_float(s@),
{
    let cs: Vec<char> = chars_of(s);
    let i: usize = sign_end(&cs, 0);
    if is_special(&cs, i) {
        return true;
    }
    let a: usize = run_end(&cs, i);
    if a < cs.len() && cs[a] == '.' {
        let b: usize = run_end(&cs, a + 1);
        (a > i || b > a + 1) && is_exponent(&cs, b)
    } else {
        a > i && is_exponent(&cs, a)
    }
}

// ---------- searching and replacing ----------

/// Whether a pattern stands at an index.
pub open spec fn occurs_at(s: Seq<char>, pat: Seq<char>, i: int) -> bool {
    0 <= i && i + pat.len() <= s.len() && s.subrange(i, i + pat.len()) == pat
}

/// The first index, from `i` on, at which a pattern stands.
pub open spec fn find_from(s: Seq<char>, pat: Seq<char>, i: int) -> Option<int>
    decreases s.len() + 1 - i,
{
    if i < 0 || i + pat.len() > s.len() {
        None
    } else if occurs_at(s, pat, i) {
        Some(i)
    } else {
        find_from(s, pat, i + 1)
    }
}

/// Text with every occurrence of a pattern replaced, from left to right.
pub open spec fn replaced(s: Seq<char>, pat: Seq<char>, with: Seq<char>) -> Seq<char>
    decreases s.len(),
{
    if s.len() == 0 || pat.len() == 0 {
        s
    } else if occurs_at(s, pat, 0) {
        with + replaced(s.skip(pat.len() as int), pat, with)
    } else {
        seq![s[0]] + replaced(s.skip(1), pat, with)
    }
}

/// Whether a pattern stands at an index.
pub fn pattern_at(s: &[char], pat: &[char], i: usize) -> (r: bool)
    requires
        i <= s@.len(),
    ensures
        r == occurs_at(s@, pat@, i as int),
{
    let n: usize = s.len();
    if pat.len() > n - i {
        return false;
    }
    let mut j: usize = 0;
    while j < pat.len()
        invariant
            j <= pat@.len(),
            n == s@.len(),
            i + pat@.len() <= n,
            forall|k: int| 0 <= k < j ==> s@[i + k] == pat@[k],
        decreases pat@.len() - j,
    {
        if s[i + j] != pat[j] {
            assert(s@.subrange(i as int, i + pat@.len())[j as int] != pat@[j as int]);
            return false;
        }
        j = j + 1;
    }
    assert(s@.subrange(i as int, i + pat@.len()) =~= pat@);
    true
}

/// The first index, from `start` on, at which a pattern stands.
pub fn find(s: &[char], pat: &[char], start: usize) -> (r: Option<usize>)
    requires
        start <= s@.len(),
    ensures
        match find_from(s@, pat@, start as int) {
            None => r is None,
            Some(i) => r is Some && r->Some_0 == i && start <= i && i + pat@.len() <= s@.len(),
        },
{
    let mut i: usize = start;
    while i <= s.len() && pat.len() <= s.len() - i
        invariant
            start <= i <= s@.len() + 1,
            find_from(s@, pat@, start as int) == find_from(s@, pat@, i as int),
        decreases s@.len() + 1 - i,
    {
        if pattern_at(s, pat, i) {
            return Some(i);
        }
        if i == s.len() {
            assert(s@.subrange(i as int, i as int) =~= pat@);
            return None;
        }
        i = i + 1;
    }
    None
}

/// Text with every occurrence of a pattern replaced, from left to right.
pub fn replace_all(s: &str, pat: &str, with: &str) -> (r: String)
    requires
        pat@.len() > 0,
    ensures
        r@ == replaced(s@, pat@, with@),
{
    let cs: Vec<char> = chars_of(s);
    let ps: Vec<char> = chars_of(pat);
    let mut out: String = String::new();
    let mut i: usize = 0;
    assert(s@.skip(0) =~= s@);
    assert(out@ + replaced(s@, pat@, with@) =~= replaced(s@, pat@, with@));
    while i < cs.len()
        invariant
            i <= cs@.len(),
            cs@ == s@,
            ps@ == pat@,
            pat@.len() > 0,
            replaced(s@, pat@, with@) == out@ + replaced(s@.skip(i as int), pat@, with@),
        decreases cs@.len() - i,
    {
        let ghost rest = s@.skip(i as int);
        let ghost before = out@;
        proof {
            if i + pat@.len() <= s@.len() {
                assert(rest.subrange(0, pat@.len() as int) =~= s@.subrange(
                    i as int,
                    i + pat@.len(),
                ));
            }
            assert(occurs_at(rest, pat@, 0) == occurs_at(s@, pat@, i as int));
        }
        if pattern_at(&cs, &ps, i) {
            out.append(with);
            i = i + ps.len();
            assert(rest.skip(pat@.len() as int) =~= s@.skip(i as int));
            assert(before + (with@ + replaced(s@.skip(i as int), pat@, with@)) =~= out@ + replaced(
                s@.skip(i as int),
                pat@,
                with@,
            ));
        } else {
            out.push(cs[i]);
            i = i + 1;
            assert(rest.skip(1) =~= s@.skip(i as int));
            assert(before + (seq![rest[0]] + replaced(s@.skip(i as int), pat@, with@)) =~= out@
                + replaced(s@.skip(i as int), pat@, with@));
        }
    }
    assert(out@ + replaced(s@.skip(i as int), pat@, with@) =~= out@);
    out
}

// ---------- white space and lines ----------

/// Whether a character has the Unicode property White_Space.
pub open spec fn is_space(c: char) -> bool {
    let u = c as u32;
    ||| 9 <= u <= 13
    ||| u == 0x20
    ||| u == 0x85
    ||| u == 0xa0
    ||| u == 0x1680
    ||| 0x2000 <= u <= 0x200a
    ||| u == 0x2028
    ||| u == 0x2029
    ||| u == 0x202f
    ||| u == 0x205f
    ||| u == 0x3000
}

/// Whether a character has the Unicode property White_Space.
pub fn space(c: char) -> (r: bool)
    ensures
        r == is_space(c),
{
    let u: u32 = c as u32;
    (9 <= u && u <= 13) || u == 0x20 || u == 0x85 || u == 0xa0 || u == 0x1680 || (0x2000 <= u && u
        <= 0x200a) || u == 0x2028 || u == 0x2029 || u == 0x202f || u == 0x205f || u == 0x3000
}

/// Text without the white space at its end.
pub open spec fn trimmed_end(s: Seq<char>) -> Seq<char>
    decreases s.len(),
{
    if s.len() > 0 && is_space(s.last()) {
        trimmed_end(s.drop_last())
    } else {
        s
    }
}

/// Text without the white space at its start.
pub open spec fn trimmed_start(s: Seq<char>) -> Seq<char>
    decreases s.len(),
{
    if s.len() > 0 && is_space(s[0]) {
        trimmed_start(s.skip(1))
    } else {
        s
    }
}

/// Text without the white space at its start and end.
pub open spec fn trimmed(s: Seq<char>) -> Seq<char> {
    trimmed_end(trimmed_start(s))
}

/// The index behind the last character that is no white space.
fn end_index(cs: &[char], start: usize) -> (r: usize)
    requires
        start <= cs@.len(),
    ensures
        start <= r <= cs@.len(),
        trimmed_end(cs@.subrange(start as int, cs@.len() as int)) == cs@.subrange(
            start as int,
            r as int,
        ),
{
    let mut n: usize = cs.len();
    while n > start && space(cs[n - 1])
        invariant
            start <= n <= cs@.len(),
            trimmed_end(cs@.subrange(start as int, cs@.len() as int)) == trimmed_end(
                cs@.subrange(start as int, n as int),
            ),
        decreases n,
    {
        assert(cs@.subrange(start as int, n as int).drop_last() =~= cs@.subrange(
            start as int,
            n - 1,
        ));
        n = n - 1;
    }
    n
}

/// The index of the first character that is no white space.
fn start_index(cs: &[char]) -> (r: usize)
    ensures
        r <= cs@.len(),
        trimmed_start(cs@) == cs@.skip(r as int),
{
    let mut i: usize = 0;
    assert(cs@.skip(0) =~= cs@);
    while i < cs.len() && space(cs[i])
        invariant
            i <= cs@.len(),
            trimmed_start(cs@) == trimmed_start(cs@.skip(i as int)),
        decreases cs@.len() - i,
    {
        assert(cs@.skip(i as int).skip(1) =~= cs@.skip(i + 1));
        i = i + 1;
    }
    i
}

/// Text without the white space at its start and end.
pub fn trim(s: &str) -> (r: String)
    ensures
        r@ == trimmed(s@),
{
    let cs: Vec<char> = chars_of(s);
    let i: usize = start_index(&cs);
    let n: usize = end_index(&cs, i);
    assert(cs@.subrange(i as int, cs@.len() as int) =~= cs@.skip(i as int));
    string_of(&cs.as_slice()[i..n])
}

/// The lines of text from index `i` on, each without the white space at its end. A line feed ends
/// a line; nothing behind the last one is no line.
pub open spec fn lines_from(s: Seq<char>, i: int) -> Seq<Seq<char>>
    decreases s.len() + 1 - i,
{
    if i < 0 || i >= s.len() {
        Seq::empty()
    } else {
        let end = line_end(s, i);
        proof {
            lemma_line_end(s, i);
        }
        seq![trimmed_end(s.subrange(i, end))] + lines_from(s, end + 1)
    }
}

/// The index of the first line feed from `i` on, or of the end of the text.
pub open spec fn line_end(s: Seq<char>, i: int) -> int
    decreases s.len() - i,
{
    if i < 0 || i >= s.len() || s[i] == '\n' {
        i
    } else {
        line_end(s, i + 1)
    }
}

/// A line ends in the text.
pub proof fn lemma_line_end(s: Seq<char>, i: int)
    requires
        0 <= i <= s.len(),
    ensures
        i <= line_end(s, i) <= s.len(),
    decreases s.len() - i,
{
    if i < s.len() && s[i] != '\n' {
        lemma_line_end(s, i + 1);
    }
}

/// The texts of a list.
pub open spec fn strings_view(v: Seq<String>) -> Seq<Seq<char>> {
    v.map_values(|s: String| s@)
}

/// The lines of text, each without the white space at its end.
pub fn trimmed_lines(s: &str) -> (r: Vec<String>)
    ensures
        strings_view(r@) == lines_from(s@, 0),
{
    let cs: Vec<char> = chars_of(s);
    let mut out: Vec<String> = Vec::new();
    let mut i: usize = 0;
    let mut more: bool = cs.len() > 0;
    while more
        invariant
            i <= cs@.len(),
            cs@ == s@,
            more == (i < cs@.len()),
            lines_from(s@, 0) =~= strings_view(out@) + lines_from(s@, i as int),
        decreases cs@.len() - i, more as int,
    {
        proof {
            lemma_line_end(s@, i as int);
        }
        let mut end: usize = i;
        while end < cs.len() && cs[end] != '\n'
            invariant
                i <= end <= cs@.len(),
                cs@ == s@,
                line_end(s@, i as int) == line_end(s@, end as int),
            decreases cs@.len() - end,
        {
            end = end + 1;
        }
        let line: &[char] = &cs.as_slice()[i..end];
        let n: usize = end_index(line, 0);
        let ghost before = out@;
        assert(line@.subrange(0, line@.len() as int) =~= s@.subrange(i as int, end as int));
        let text: String = string_of(&line[0..n]);
        let ghost view = text@;
        out.push(text);
        proof {
            assert(strings_view(out@) =~= strings_view(before).push(view));
            assert(strings_view(before) + (seq![view] + lines_from(s@, end + 1)) =~= strings_view(
                out@,
            ) + lines_from(s@, end + 1));
        }
        if end < cs.len() {
            i = end + 1;
        } else {
            i = end;
        }
        more = i < cs.len();
    }
    out
}

/// The text between two byte positions; `None` where one of them is not in the text or not
/// between two characters.
pub open spec fn byte_slice(s: Seq<char>, a: int, b: int) -> Option<Seq<char>> {
    let bytes = vstd::utf8::encode_utf8(s);
    if 0 <= a <= b <= bytes.len() && vstd::utf8::is_char_boundary(bytes, a)
        && vstd::utf8::is_char_boundary(bytes, b) {
        Some(vstd::utf8::decode_utf8(bytes.subrange(a, b)))
    } else {
        None
    }
}

/// A position between characters of a text is one of the rest of the text too.
proof fn lemma_boundary_of_rest(bytes: Seq<u8>, a: int, b: int)
    requires
        vstd::utf8::valid_utf8(bytes),
        vstd::utf8::is_char_boundary(bytes, a),
        vstd::utf8::is_char_boundary(bytes, b),
        0 <= a <= b,
    ensures
        a <= bytes.len(),
        vstd::utf8::valid_utf8(bytes.subrange(a, bytes.len() as int)),
        vstd::utf8::is_char_boundary(bytes.subrange(a, bytes.len() as int), b - a),
    decreases bytes.len(),
{
    if a == 0 {
        assert(bytes.subrange(0, bytes.len() as int) =~= bytes);
    } else {
        let rest = vstd::utf8::pop_first_scalar(bytes);
        let n = vstd::utf8::length_of_first_scalar(bytes);
        assert(vstd::utf8::is_char_boundary(rest, a - n));
        assert(vstd::utf8::is_char_boundary(rest, b - n));
        lemma_boundary_not_negative(rest, a - n);
        lemma_boundary_of_rest(rest, a - n, b - n);
        assert(rest.subrange(a - n, rest.len() as int) =~= bytes.subrange(a, bytes.len() as int));
    }
}

proof fn lemma_boundary_not_negative(bytes: Seq<u8>, i: int)
    requires
        vstd::utf8::valid_utf8(bytes),
        vstd::utf8::is_char_boundary(bytes, i),
    ensures
        0 <= i <= bytes.len(),
{
}

/// The bytes between two positions between characters are UTF-8.
pub proof fn lemma_slice_valid(s: Seq<char>, a: int, b: int)
    requires
        byte_slice(s, a, b) is Some,
    ensures
        vstd::utf8::valid_utf8(vstd::utf8::encode_utf8(s).subrange(a, b)),
{
    let bytes = vstd::utf8::encode_utf8(s);
    vstd::utf8::encode_utf8_valid_utf8(s);
    lemma_boundary_of_rest(bytes, a, b);
    let rest = bytes.subrange(a, bytes.len() as int);
    vstd::utf8::valid_utf8_split(rest, b - a);
    assert(rest.subrange(0, b - a) =~= bytes.subrange(a, b));
}

/// The text between two byte positions.
pub fn slice_bytes<'a>(s: &'a str, a: usize, b: usize) -> (r: Option<&'a str>)
    requires
        a <= b,
    ensures
        match byte_slice(s@, a as int, b as int) {
            None => r is None,
            Some(t) => r is Some && r->Some_0@ == t,
        },
{
    proof {
        vstd::utf8::encode_utf8_valid_utf8(s@);
    }
    let n: usize = s.as_bytes().len();
    if b > n || !s.is_char_boundary(a) || !s.is_char_boundary(b) {
        return None;
    }
    proof {
        lemma_boundary_of_rest(s.spec_bytes(), a as int, b as int);
    }
    let (_, tail) = s.split_at(a);
    let (mid, _) = tail.split_at(b - a);
    proof {
        assert(mid.spec_bytes() =~= s.spec_bytes().subrange(a as int, b as int));
        vstd::utf8::encode_utf8_decode_utf8(mid@);
    }
    Some(mid)
}

// ---------- splitting ----------

/// The index of the first occurrence of a character from `i` on, or of the end of the text.
pub open spec fn next_char(s: Seq<char>, c: char, i: int) -> int
    decreases s.len() - i,
{
    if i < 0 || i >= s.len() || s[i] == c {
        i
    } else {
        next_char(s, c, i + 1)
    }
}

/// The index found lies in the text.
pub proof fn lemma_next_char(s: Seq<char>, c: char, i: int)
    requires
        0 <= i <= s.len(),
    ensures
        i <= next_char(s, c, i) <= s.len(),
        next_char(s, c, i) < s.len() ==> s[next_char(s, c, i)] == c,
        forall|j: int| i <= j < next_char(s, c, i) ==> s[j] != c,
    decreases s.len() - i,
{
    if i < s.len() && s[i] != c {
        lemma_next_char(s, c, i + 1);
    }
}

/// The pieces of text from `i` on between the occurrences of a character: one more than there are
/// occurrences.
pub open spec fn pieces_from(s: Seq<char>, c: char, i: int) -> Seq<Seq<char>>
    decreases s.len() + 1 - i,
{
    if i < 0 || i > s.len() {
        Seq::empty()
    } else {
        let end = next_char(s, c, i);
        proof {
            lemma_next_char(s, c, i);
        }
        if end >= s.len() {
            seq![s.subrange(i, s.len() as int)]
        } else {
            seq![s.subrange(i, end)] + pieces_from(s, c, end + 1)
        }
    }
}

/// The pieces of text between the occurrences of a character.
pub fn split(s: &str, c: char) -> (r: Vec<String>)
    ensures
        strings_view(r@) == pieces_from(s@, c, 0),
{
    let cs: Vec<char> = chars_of(s);
    let n: usize = cs.len();
    let mut out: Vec<String> = Vec::new();
    let mut i: usize = 0;
    let mut more: bool = true;
    assert(strings_view(out@) + pieces_from(s@, c, 0) =~= pieces_from(s@, c, 0));
    while more
        invariant
            n == cs@.len(),
            cs@ == s@,
            i <= n,
            more ==> pieces_from(s@, c, 0) == strings_view(out@) + pieces_from(s@, c, i as int),
            !more ==> pieces_from(s@, c, 0) == strings_view(out@),
        decreases n - i, more as int,
    {
        proof {
            lemma_next_char(s@, c, i as int);
        }
        let mut end: usize = i;
        while end < n && cs[end] != c
            invariant
                i <= end <= n,
                n == cs@.len(),
                cs@ == s@,
                next_char(s@, c, i as int) == next_char(s@, c, end as int),
            decreases n - end,
        {
            end = end + 1;
        }
        let piece: String = string_of(&cs.as_slice()[i..end]);
        let ghost before = out@;
        let ghost view = piece@;
        out.push(piece);
        assert(strings_view(out@) =~= strings_view(before).push(view));
        if end < n {
            proof {
                let rest = pieces_from(s@, c, end + 1);
                assert(strings_view(before) + (seq![view] + rest) =~= strings_view(out@) + rest);
            }
            i = end + 1;
        } else {
            assert(strings_view(before) + seq![view] =~= strings_view(out@));
            more = false;
        }
    }
    out
}

} // verus!
