//! Exact comparison of decimal numbers given as text with decimal bounds.

use vstd::prelude::*;

use crate::text::{
    after_sign, capped_numeral, chars_of, digit_run, digit_value, is_digit, is_numeral,
    number_from, numeral_value, run_end, sign_end,
};

verus! {

/// Ten to the power `n`.
pub open spec fn pow10(n: nat) -> nat
    decreases n,
{
    if n == 0 {
        1
    } else {
        10 * pow10((n - 1) as nat)
    }
}

/// A decimal number: `mant` times ten to the power `exp`, with a sign.
pub struct Dec {
    pub neg: bool,
    pub mant: nat,
    pub exp: int,
}

/// Where the fraction behind the digits that end at `a` ends.
pub open spec fn fraction_end(s: Seq<char>, a: int) -> int {
    if a < s.len() && s[a] == '.' {
        digit_run(s, a + 1)
    } else {
        a
    }
}

/// The digits of a number without its point.
pub open spec fn mantissa(s: Seq<char>) -> Seq<char> {
    let i = after_sign(s, 0);
    let a = digit_run(s, i);
    if a < s.len() && s[a] == '.' {
        s.subrange(i, a) + s.subrange(a + 1, fraction_end(s, a))
    } else {
        s.subrange(i, a)
    }
}

/// The exponent that a number states.
pub open spec fn stated_exponent(s: Seq<char>) -> int {
    let b = fraction_end(s, digit_run(s, after_sign(s, 0)));
    if b < s.len() {
        let v = numeral_value(s.subrange(after_sign(s, b + 1), s.len() as int)) as int;
        if s[b + 1] == '-' {
            -v
        } else {
            v
        }
    } else {
        0
    }
}

/// The number of digits behind the point.
pub open spec fn places(s: Seq<char>) -> int {
    let a = digit_run(s, after_sign(s, 0));
    if a < s.len() && s[a] == '.' {
        fraction_end(s, a) - a - 1
    } else {
        0
    }
}

/// The number for which text stands.
pub open spec fn dec_of(s: Seq<char>) -> Dec {
    Dec {
        neg: s.len() > 0 && s[0] == '-',
        mant: numeral_value(mantissa(s)),
        exp: stated_exponent(s) - places(s),
    }
}

/// A number without a sign that is at most `whole` and a fraction of `places` digits.
#[derive(Debug, Clone, Copy)]
pub struct Bound {
    pub whole: u64,
    pub frac: u128,
    pub places: u32,
}

impl Bound {
    /// The fraction has no more digits than it should.
    pub open spec fn wf(self) -> bool {
        self.whole > 0 && self.frac < pow10(self.places as nat)
    }

    /// The bound in units of its last place.
    pub open spec fn scaled(self) -> nat {
        self.whole as nat * pow10(self.places as nat) + self.frac as nat
    }
}

/// A number times ten to a power, as far as the power is positive.
pub open spec fn raised(n: nat, e: int) -> nat {
    if e > 0 {
        n * pow10(e as nat)
    } else {
        n
    }
}

/// Whether the size of a number is less than a bound.
pub open spec fn below(d: Dec, b: Bound) -> bool {
    let e = d.exp + b.places;
    raised(d.mant, e) < raised(b.scaled(), -e)
}

/// Whether the size of a number is greater than a bound.
pub open spec fn above(d: Dec, b: Bound) -> bool {
    let e = d.exp + b.places;
    raised(d.mant, e) > raised(b.scaled(), -e)
}

/// How the size of a number compares with a bound.
#[derive(Debug, Clone, Copy, PartialEq, Eq, Structural)]
pub enum Size {
    Below,
    Equal,
    Above,
}

// ---------- digit strings ----------

/// Digits with zeros behind them.
spec fn extended(s: Seq<char>, n: int) -> Seq<char>
    decreases n,
{
    if n <= 0 {
        s
    } else {
        extended(s, n - 1).push('0')
    }
}

proof fn lemma_extended(s: Seq<char>, n: int)
    requires
        0 <= n,
    ensures
        extended(s, n).len() == s.len() + n,
        numeral_value(extended(s, n)) == numeral_value(s) * pow10(n as nat),
        forall|i: int| 0 <= i < s.len() ==> #[trigger] extended(s, n)[i] == s[i],
        forall|i: int| s.len() <= i < s.len() + n ==> #[trigger] extended(s, n)[i] == '0',
    decreases n,
{
    if n > 0 {
        lemma_extended(s, n - 1);
        let t = extended(s, n - 1);
        assert(t.push('0').drop_last() =~= t);
        let v = numeral_value(s);
        let p = pow10((n - 1) as nat);
        assert(10 * (v * p) == v * (10 * p)) by (nonlinear_arith);
    } else {
        assert(numeral_value(s) * 1 == numeral_value(s));
    }
}

/// All characters are digits.
pub open spec fn all_digits(s: Seq<char>) -> bool {
    forall|i: int| 0 <= i < s.len() ==> is_digit(#[trigger] s[i])
}

proof fn lemma_value_bound(s: Seq<char>)
    requires
        all_digits(s),
    ensures
        numeral_value(s) < pow10(s.len()),
        s.len() > 0 && s[0] != '0' ==> pow10((s.len() - 1) as nat) <= numeral_value(s),
    decreases s.len(),
{
    if s.len() > 0 {
        let t = s.drop_last();
        assert(all_digits(t));
        lemma_value_bound(t);
        assert(is_digit(s.last()));
        if s.len() > 1 {
            assert(t[0] == s[0]);
        } else {
            assert(is_digit(s[0]));
            assert(numeral_value(t) == 0);
        }
    }
}

/// Of two digit strings of one length that agree up to an index, the one with the lesser digit
/// there is the lesser number.
proof fn lemma_first_difference(a: Seq<char>, b: Seq<char>, j: int, n: int)
    requires
        all_digits(a),
        all_digits(b),
        0 <= j < n <= a.len(),
        n <= b.len(),
        forall|i: int| 0 <= i < j ==> a[i] == b[i],
        a[j] < b[j],
    ensures
        numeral_value(a.take(n)) < numeral_value(b.take(n)),
    decreases n,
{
    assert(a.take(n).drop_last() =~= a.take(n - 1));
    assert(b.take(n).drop_last() =~= b.take(n - 1));
    assert(is_digit(a[n - 1]));
    assert(is_digit(b[n - 1]));
    if n - 1 > j {
        lemma_first_difference(a, b, j, n - 1);
    } else {
        assert(a.take(j) =~= b.take(j));
    }
}

proof fn lemma_pow10_grows(a: nat, b: nat)
    requires
        a <= b,
    ensures
        pow10(a) <= pow10(b),
        1 <= pow10(a),
    decreases b,
{
    if b > 0 {
        if a < b {
            lemma_pow10_grows(a, (b - 1) as nat);
        } else {
            lemma_pow10_grows((a - 1) as nat, (b - 1) as nat);
        }
    }
}

proof fn lemma_pow10_sum(a: nat, b: nat)
    ensures
        pow10(a + b) == pow10(a) * pow10(b),
    decreases b,
{
    if b > 0 {
        lemma_pow10_sum(a, (b - 1) as nat);
        let x = pow10(a);
        let y = pow10((b - 1) as nat);
        assert(10 * (x * y) == x * (10 * y)) by (nonlinear_arith);
        assert(a + b - 1 == a + (b - 1));
    } else {
        assert(pow10(a) * 1 == pow10(a));
    }
}

/// Digit strings without leading zeros compare by where their first digits stand.
proof fn lemma_by_length(d: Seq<char>, e: int, b: Seq<char>)
    requires
        all_digits(d),
        all_digits(b),
        d.len() > 0,
        b.len() > 0,
        d[0] != '0',
        b[0] != '0',
    ensures
        d.len() + e < b.len() ==> raised(numeral_value(d), e) < raised(numeral_value(b), -e),
        d.len() + e > b.len() ==> raised(numeral_value(d), e) > raised(numeral_value(b), -e),
{
    let x = if e > 0 { e } else { 0 };
    let y = if e < 0 { -e } else { 0 };
    lemma_value_bound(d);
    lemma_value_bound(b);
    let dv = numeral_value(d);
    let bv = numeral_value(b);
    let px = pow10(x as nat);
    let py = pow10(y as nat);
    lemma_pow10_grows(0, x as nat);
    lemma_pow10_grows(0, y as nat);
    assert(raised(dv, e) == dv * px) by {
        assert(dv * 1 == dv);
    }
    assert(raised(bv, -e) == bv * py) by {
        assert(bv * 1 == bv);
    }
    let dn = d.len();
    let bn = b.len();
    if dn + e < bn {
        lemma_pow10_sum(dn, x as nat);
        lemma_pow10_sum((bn - 1) as nat, y as nat);
        lemma_pow10_grows(dn + x as nat, ((bn - 1) + y) as nat);
        let pd = pow10(dn);
        let pb = pow10((bn - 1) as nat);
        assert(dv * px < pd * px) by (nonlinear_arith)
            requires
                dv < pd,
                px >= 1,
        ;
        assert(pb * py <= bv * py) by (nonlinear_arith)
            requires
                pb <= bv,
                py >= 1,
        ;
    }
    if dn + e > bn {
        lemma_pow10_sum((dn - 1) as nat, x as nat);
        lemma_pow10_sum(bn, y as nat);
        lemma_pow10_grows(bn + y as nat, ((dn - 1) + x) as nat);
        let pd = pow10((dn - 1) as nat);
        let pb = pow10(bn);
        assert(bv * py < pb * py) by (nonlinear_arith)
            requires
                bv < pb,
                py >= 1,
        ;
        assert(pd * px <= dv * px) by (nonlinear_arith)
            requires
                pd <= dv,
                px >= 1,
        ;
    }
}

/// Compares two digit strings whose first digits stand at the same place.
fn compare_aligned(d: &Vec<char>, b: &Vec<char>, Ghost(e): Ghost<int>) -> (r: Size)
    requires
        all_digits(d@),
        all_digits(b@),
        d@.len() + e == b@.len(),
    ensures
        r == Size::Below <==> raised(numeral_value(d@), e) < raised(numeral_value(b@), -e),
        r == Size::Above <==> raised(numeral_value(d@), e) > raised(numeral_value(b@), -e),
{
    let ghost x = if e > 0 { e } else { 0 };
    let ghost y = if e < 0 { -e } else { 0 };
    let ghost p = extended(d@, x);
    let ghost q = extended(b@, y);
    let n: usize = if d.len() > b.len() { d.len() } else { b.len() };
    proof {
        lemma_extended(d@, x);
        lemma_extended(b@, y);
        assert(raised(numeral_value(d@), e) == numeral_value(p)) by {
            assert(numeral_value(d@) * 1 == numeral_value(d@));
        }
        assert(raised(numeral_value(b@), -e) == numeral_value(q)) by {
            assert(numeral_value(b@) * 1 == numeral_value(b@));
        }
        assert(p.len() == n && q.len() == n);
        assert(all_digits(p)) by {
            assert forall|i: int| 0 <= i < p.len() implies is_digit(#[trigger] p[i]) by {
                if i < d@.len() {
                    assert(p[i] == d@[i]);
                }
            }
        }
        assert(all_digits(q)) by {
            assert forall|i: int| 0 <= i < q.len() implies is_digit(#[trigger] q[i]) by {
                if i < b@.len() {
                    assert(q[i] == b@[i]);
                }
            }
        }
        assert(p.take(n as int) =~= p);
        assert(q.take(n as int) =~= q);
    }
    let mut j: usize = 0;
    while j < n
        invariant
            j <= n,
            p.len() == n,
            q.len() == n,
            p == extended(d@, x),
            q == extended(b@, y),
            0 <= x,
            0 <= y,
            d@.len() + x == n,
            b@.len() + y == n,
            all_digits(p),
            all_digits(q),
            p.take(n as int) == p,
            q.take(n as int) == q,
            raised(numeral_value(d@), e) == numeral_value(p),
            raised(numeral_value(b@), -e) == numeral_value(q),
            forall|i: int| 0 <= i < j ==> p[i] == q[i],
        decreases n - j,
    {
        let dc: char = if j < d.len() { d[j] } else { '0' };
        let bc: char = if j < b.len() { b[j] } else { '0' };
        proof {
            lemma_extended(d@, x);
            lemma_extended(b@, y);
            assert(p[j as int] == dc);
            assert(q[j as int] == bc);
        }
        if dc < bc {
            proof {
                lemma_first_difference(p, q, j as int, n as int);
            }
            return Size::Below;
        }
        if bc < dc {
            proof {
                lemma_first_difference(q, p, j as int, n as int);
            }
            return Size::Above;
        }
        j = j + 1;
    }
    assert(p =~= q);
    Size::Equal
}

// ---------- reading ----------

/// Digits without the zeros at their start.
fn stripped(d: Vec<char>) -> (r: Vec<char>)
    requires
        all_digits(d@),
    ensures
        all_digits(r@),
        numeral_value(r@) == numeral_value(d@),
        r@.len() > 0 ==> r@[0] != '0',
        r@.len() <= d@.len(),
{
    let mut k: usize = 0;
    assert(d@.skip(0) =~= d@);
    while k < d.len() && d[k] == '0'
        invariant
            k <= d@.len(),
            numeral_value(d@.skip(k as int)) == numeral_value(d@),
            forall|i: int| 0 <= i < k ==> d@[i] == '0',
        decreases d@.len() - k,
    {
        proof {
            lemma_drop_zero(d@.skip(k as int));
            assert(d@.skip(k as int).skip(1) =~= d@.skip(k + 1));
        }
        k = k + 1;
    }
    let mut out: Vec<char> = Vec::new();
    let mut i: usize = k;
    while i < d.len()
        invariant
            k <= i <= d@.len(),
            out@ =~= d@.subrange(k as int, i as int),
        decreases d@.len() - i,
    {
        out.push(d[i]);
        i = i + 1;
    }
    proof {
        assert(out@ =~= d@.skip(k as int));
        assert forall|i: int| 0 <= i < out@.len() implies is_digit(#[trigger] out@[i]) by {
            assert(out@[i] == d@[k + i]);
        }
    }
    out
}

proof fn lemma_drop_zero(s: Seq<char>)
    requires
        s.len() > 0,
        s[0] == '0',
    ensures
        numeral_value(s.skip(1)) == numeral_value(s),
    decreases s.len(),
{
    if s.len() == 1 {
        assert(s.skip(1) =~= Seq::empty());
        assert(s.drop_last() =~= Seq::empty());
        assert(numeral_value(Seq::<char>::empty()) == 0);
    } else {
        lemma_drop_zero(s.drop_last());
        assert(s.skip(1).drop_last() =~= s.drop_last().skip(1));
    }
}

proof fn lemma_run_digits(s: Seq<char>, i: int)
    requires
        0 <= i <= s.len(),
    ensures
        forall|j: int| i <= j < digit_run(s, i) ==> is_digit(#[trigger] s[j]),
    decreases s.len() - i,
{
    if i < s.len() && is_digit(s[i]) {
        lemma_run_digits(s, i + 1);
    }
}

/// The digits, the number of places behind the point and the exponent, capped in size, of a
/// number.
struct Parts {
    digits: Vec<char>,
    places: usize,
    exponent: i128,
}

/// An exponent as it is kept: in its size no more than 2 to the power 100.
spec fn capped(e: int) -> int {
    if e > 0x10_0000_0000_0000_0000_0000_0000 {
        0x10_0000_0000_0000_0000_0000_0000
    } else if e < -0x10_0000_0000_0000_0000_0000_0000 {
        -0x10_0000_0000_0000_0000_0000_0000
    } else {
        e
    }
}

fn read_parts(s: &str) -> (r: Parts)
    requires
        number_from(s@, after_sign(s@, 0)),
    ensures
        all_digits(r.digits@),
        numeral_value(r.digits@) == dec_of(s@).mant,
        r.digits@.len() > 0 ==> r.digits@[0] != '0',
        r.places == places(s@),
        r.exponent == capped(stated_exponent(s@)),
{
    let cs: Vec<char> = chars_of(s);
    let n: usize = cs.len();
    let i: usize = sign_end(&cs, 0);
    let a: usize = run_end(&cs, i);
    let mut digits: Vec<char> = Vec::new();
    let mut k: usize = i;
    while k < a
        invariant
            i <= k <= a <= cs@.len(),
            digits@ =~= cs@.subrange(i as int, k as int),
        decreases a - k,
    {
        digits.push(cs[k]);
        k = k + 1;
    }
    let ghost head = digits@;
    let mut b: usize = a;
    let mut count: usize = 0;
    proof {
        lemma_run_digits(s@, i as int);
    }
    if a < n && cs[a] == '.' {
        b = run_end(&cs, a + 1);
        count = b - a - 1;
        proof {
            lemma_run_digits(s@, a + 1);
        }
        let mut m: usize = a + 1;
        while m < b
            invariant
                a + 1 <= m <= b <= cs@.len(),
                digits@ =~= head + cs@.subrange(a + 1, m as int),
            decreases b - m,
        {
            digits.push(cs[m]);
            m = m + 1;
        }
    }
    assert(digits@ =~= mantissa(s@));
    assert(all_digits(digits@)) by {
        assert forall|j: int| 0 <= j < digits@.len() implies is_digit(#[trigger] digits@[j]) by {
            if j < head.len() {
                assert(digits@[j] == s@[i + j]);
            } else {
                assert(digits@[j] == s@[a + 1 + j - head.len()]);
            }
        }
    }
    let mut exponent: i128 = 0;
    if b < n {
        let c: usize = sign_end(&cs, b + 1);
        assert(cs@.subrange(c as int, n as int) =~= s@.subrange(
            after_sign(s@, b + 1),
            s@.len() as int,
        ));
        proof {
            lemma_run_digits(s@, c as int);
        }
        match capped_numeral(&cs.as_slice()[c..n]) {
            Some(v) => {
                exponent = if cs[b + 1] == '-' { -(v as i128) } else { v as i128 };
            },
            None => {
                proof {
                    let t = cs@.subrange(c as int, n as int);
                    assert(is_numeral(t)) by {
                        assert forall|j: int| 0 <= j < t.len() implies is_digit(#[trigger] t[j]) by {
                            assert(t[j] == s@[c + j]);
                        }
                    }
                }
            },
        }
    }
    let digits: Vec<char> = stripped(digits);
    Parts { digits, places: count, exponent }
}

/// The digits of a bound without its point.
fn bound_digits(b: &Bound) -> (r: Vec<char>)
    requires
        b.wf(),
    ensures
        all_digits(r@),
        r@.len() > 0,
        r@[0] != '0',
        numeral_value(r@) == b.scaled(),
{
    let mut out: Vec<char> = Vec::new();
    push_number(&mut out, b.whole as u128);
    proof {
        assert(out@ =~= crate::text::digits(b.whole as nat));
        crate::text::parse_reads_what_digits_writes(b.whole as nat);
        lemma_no_leading_zero(b.whole as nat);
    }
    let ghost whole = out@;
    let mut rest: u128 = b.frac;
    let mut tail: Vec<char> = Vec::new();
    let mut k: u32 = 0;
    proof {
        assert(rev_seq(tail@) =~= Seq::empty());
        assert(numeral_value(Seq::<char>::empty()) == 0);
        assert(pow10(0) == 1);
        assert(1 * rest == rest);
    }
    while k < b.places
        invariant
            k <= b.places,
            b.wf(),
            tail@.len() == k,
            all_digits(tail@),
            rest < pow10((b.places - k) as nat),
            b.frac == numeral_value(rev_seq(tail@)) + pow10(k as nat) * rest,
        decreases b.places - k,
    {
        let ghost before = tail@;
        let ghost old_rest = rest;
        let c: char = (48 + (rest % 10) as u8) as char;
        tail.push(c);
        rest = rest / 10;
        proof {
            lemma_rev_push(before, c);
            let d = old_rest as int % 10;
            assert(digit_value(c) == d);
            let p = pow10(k as nat);
            assert(pow10((k + 1) as nat) == 10 * p);
            assert(p * old_rest == p * d + (10 * p) * (old_rest as int / 10)) by (nonlinear_arith)
                requires
                    old_rest == 10 * (old_rest as int / 10) + d,
            ;
            assert(p * d == d * p) by (nonlinear_arith);
            assert(pow10((b.places - k) as nat) == 10 * pow10((b.places - k - 1) as nat));
        }
        k = k + 1;
    }
    proof {
        assert(pow10(0) == 1);
        assert(rest == 0);
        assert(pow10(k as nat) * 0 == 0);
    }
    let mut m: usize = tail.len();
    while m > 0
        invariant
            m <= tail@.len(),
            out@ =~= whole + rev_seq(tail@).take(tail@.len() - m),
        decreases m,
    {
        m = m - 1;
        out.push(tail[m]);
        assert(rev_seq(tail@)[tail@.len() - 1 - m] == tail@[m as int]);
    }
    proof {
        let r = rev_seq(tail@);
        assert(r.take(tail@.len() as int) =~= r);
        assert(out@ =~= whole + r);
        lemma_value_concat(whole, r);
        assert forall|i: int| 0 <= i < out@.len() implies is_digit(#[trigger] out@[i]) by {
            if i < whole.len() {
                assert(out@[i] == whole[i]);
            } else {
                let j = i - whole.len();
                assert(out@[i] == r[j]);
                assert(r[j] == tail@[tail@.len() - 1 - j]);
            }
        }
    }
    out
}

/// A list from its end to its start.
spec fn rev_seq(s: Seq<char>) -> Seq<char> {
    s.reverse()
}

proof fn lemma_rev_push(s: Seq<char>, c: char)
    ensures
        numeral_value(rev_seq(s.push(c))) == numeral_value(rev_seq(s)) + digit_value(c) * pow10(
            s.len(),
        ),
{
    let r = rev_seq(s);
    assert(rev_seq(s.push(c)) =~= seq![c] + r);
    lemma_value_concat(seq![c], r);
    assert(seq![c].drop_last() =~= Seq::empty());
    assert(numeral_value(Seq::<char>::empty()) == 0);
    assert(numeral_value(seq![c]) == digit_value(c));
}

/// The number of two digit strings in a row.
pub proof fn lemma_value_concat(a: Seq<char>, b: Seq<char>)
    ensures
        numeral_value(a + b) == numeral_value(a) * pow10(b.len()) + numeral_value(b),
    decreases b.len(),
{
    if b.len() == 0 {
        assert(a + b =~= a);
        assert(numeral_value(a) * 1 == numeral_value(a));
    } else {
        lemma_value_concat(a, b.drop_last());
        assert((a + b).drop_last() =~= a + b.drop_last());
        let v = numeral_value(a);
        let p = pow10((b.len() - 1) as nat);
        assert(10 * (v * p) == v * (10 * p)) by (nonlinear_arith);
    }
}

/// The numeral of a number that is not zero does not start with a zero.
proof fn lemma_no_leading_zero(n: nat)
    requires
        n > 0,
    ensures
        crate::text::digits(n).len() > 0,
        crate::text::digits(n)[0] != '0',
    decreases n,
{
    if n >= 10 {
        lemma_no_leading_zero(n / 10);
        assert(crate::text::digits(n)[0] == crate::text::digits(n / 10)[0]);
    }
}

fn push_number(out: &mut Vec<char>, n: u128)
    ensures
        final(out)@ == old(out)@ + crate::text::digits(n as nat),
    decreases n,
{
    let ghost start = out@;
    if n >= 10 {
        push_number(out, n / 10);
    }
    out.push((48 + (n % 10) as u8) as char);
    assert(out@ =~= start + crate::text::digits(n as nat));
}

/// Compares the size of a number, given as text, with a bound.
pub fn compare_size(s: &str, b: &Bound) -> (r: Size)
    requires
        number_from(s@, after_sign(s@, 0)),
        b.wf(),
    ensures
        r == Size::Below <==> below(dec_of(s@), *b),
        r == Size::Above <==> above(dec_of(s@), *b),
{
    let parts: Parts = read_parts(s);
    let bd: Vec<char> = bound_digits(b);
    let ghost d = dec_of(s@);
    let ghost e = d.exp + b.places;
    if parts.digits.len() == 0 {
        proof {
            assert(d.mant == 0);
            lemma_value_bound(bd@);
            lemma_pow10_grows(0, (bd@.len() - 1) as nat);
            assert(b.scaled() >= 1);
            if e > 0 {
                assert(0 * pow10(e as nat) == 0);
            } else if e < 0 {
                lemma_pow10_grows(0, (-e) as nat);
                let p = pow10((-e) as nat);
                assert(b.scaled() * p >= 1) by (nonlinear_arith)
                    requires
                        b.scaled() >= 1,
                        p >= 1,
                ;
            }
        }
        return Size::Below;
    }
    let lead: i128 = parts.digits.len() as i128 - parts.places as i128 + parts.exponent
        + b.places as i128;
    proof {
        lemma_by_length(parts.digits@, e, bd@);
    }
    if lead < bd.len() as i128 {
        Size::Below
    } else if lead > bd.len() as i128 {
        Size::Above
    } else {
        compare_aligned(&parts.digits, &bd, Ghost(e))
    }
}

} // verus!
