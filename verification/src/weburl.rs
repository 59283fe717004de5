//! Views in web addresses: `#map=latitude,longitude,height` and `#globe=latitude,longitude,height`.
//!
//! Heights are in metres: the part of the ground that the map shows from top to bottom, or the
//! height of the camera above the globe.

use vstd::prelude::*;

use crate::decimal::{
    above, below, compare_size, dec_of, lemma_value_concat, pow10, Bound, Dec, Size,
};
use crate::text::{
    after_sign, chars_of, digit_run, digits, float_text, is_digit, is_special, letter,
    lemma_digits_shape, next_char, lemma_next_char, number_from, numeral_value, padded,
    parse_reads_what_digits_writes, pieces_from, push_digits, push_padded, same, special_from,
    split, string_of, exponent_from,
};

verus! {

/// A view that an address describes. Numbers are kept as decimal text.
#[derive(Debug)]
pub enum InitialView {
    /// The map.
    Chart { lat: String, lon: String, alt_m: String },
    Globe { lat: String, lon: String, alt_m: String },
}

/// What an `InitialView` stands for.
pub enum InitialViewModel {
    Chart { lat: Seq<char>, lon: Seq<char>, alt_m: Seq<char> },
    Globe { lat: Seq<char>, lon: Seq<char>, alt_m: Seq<char> },
}

impl View for InitialView {
    type V = InitialViewModel;

    open spec fn view(&self) -> InitialViewModel {
        match self {
            InitialView::Chart { lat, lon, alt_m } => InitialViewModel::Chart {
                lat: lat@,
                lon: lon@,
                alt_m: alt_m@,
            },
            InitialView::Globe { lat, lon, alt_m } => InitialViewModel::Globe {
                lat: lat@,
                lon: lon@,
                alt_m: alt_m@,
            },
        }
    }
}

// ---------- limits ----------

/// Whether text is a finite decimal number.
pub open spec fn is_number(s: Seq<char>) -> bool {
    !special_from(s, after_sign(s, 0)) && number_from(s, after_sign(s, 0))
}

/// Whether a number is no greater than a bound in its size.
pub open spec fn size_at_most(s: Seq<char>, b: Bound) -> bool {
    is_number(s) && !above(dec_of(s), b)
}

/// Whether a number lies between two bounds.
pub open spec fn between(s: Seq<char>, lo: Bound, hi: Bound) -> bool {
    is_number(s) && !dec_of(s).neg && !below(dec_of(s), lo) && !above(dec_of(s), hi)
}

/// 85 degrees as a double: the largest decimal number that is rounded to it.
pub open spec fn lat_double() -> Bound {
    Bound { whole: 85, frac: 710_542_735_760_100_185_871_124_267_578_125, places: 47 }
}

/// 180 degrees as a double.
pub open spec fn lon_double() -> Bound {
    Bound { whole: 180, frac: 142_108_547_152_020_037_174_224_853_515_625, places: 46 }
}

/// 85 degrees in single precision.
pub open spec fn lat_single() -> Bound {
    Bound { whole: 85, frac: 3_814_697_265_625, places: 18 }
}

/// 180 degrees in single precision.
pub open spec fn lon_single() -> Bound {
    Bound { whole: 180, frac: 762_939_453_125, places: 17 }
}

/// 100 metres in single precision: the least decimal number that is rounded to it.
pub open spec fn map_low() -> Bound {
    Bound { whole: 99, frac: 999_996_185_302_734_375, places: 18 }
}

/// 2000 kilometres in single precision.
pub open spec fn map_high() -> Bound {
    Bound { whole: 2_000_000, frac: 625, places: 4 }
}

/// Ten kilometres in single precision: the least decimal number that is rounded to it.
pub open spec fn globe_low() -> Bound {
    Bound { whole: 9_999, frac: 99_951_171_875, places: 11 }
}

/// 20000 kilometres in single precision.
pub open spec fn globe_high() -> Bound {
    Bound { whole: 20_000_001, frac: 0, places: 0 }
}

proof fn lemma_powers()
    ensures
        pow10(0) == 1,
        pow10(4) == 10_000,
        pow10(5) == 100_000,
        pow10(3) == 1_000,
        pow10(11) == 100_000_000_000,
        pow10(17) == 100_000_000_000_000_000,
        pow10(18) == 1_000_000_000_000_000_000,
        pow10(33) == 1_000_000_000_000_000_000_000_000_000_000_000,
{
    reveal_with_fuel(pow10, 34);
}

proof fn lemma_pow_grows(a: nat, b: nat)
    requires
        a <= b,
    ensures
        pow10(a) <= pow10(b),
    decreases b,
{
    if b > a {
        lemma_pow_grows(a, (b - 1) as nat);
    }
}

proof fn lemma_limits_ok()
    ensures
        lat_double().wf(),
        lon_double().wf(),
        lat_single().wf(),
        lon_single().wf(),
        map_low().wf(),
        map_high().wf(),
        globe_low().wf(),
        globe_high().wf(),
{
    lemma_powers();
    lemma_pow_grows(33, 46);
    lemma_pow_grows(33, 47);
}

fn number_ok(s: &str) -> (r: bool)
    ensures
        r == is_number(s@),
{
    let cs: Vec<char> = chars_of(s);
    let i: usize = crate::text::sign_end(&cs, 0);
    !is_special(&cs, i) && float_text(s)
}

fn small_enough(s: &str, b: &Bound) -> (r: bool)
    requires
        b.wf(),
    ensures
        r == size_at_most(s@, *b),
{
    if !number_ok(s) {
        return false;
    }
    match compare_size(s, b) {
        Size::Above => false,
        _ => true,
    }
}

fn is_between(s: &str, lo: &Bound, hi: &Bound) -> (r: bool)
    requires
        lo.wf(),
        hi.wf(),
    ensures
        r == between(s@, *lo, *hi),
{
    if !number_ok(s) {
        return false;
    }
    let negative: bool = s.unicode_len() > 0 && s.get_char(0) == '-';
    let low: bool = match compare_size(s, lo) {
        Size::Below => true,
        _ => false,
    };
    let high: bool = match compare_size(s, hi) {
        Size::Above => true,
        _ => false,
    };
    !negative && !low && !high
}

// ---------- parsing ----------

/// Text without the number signs at its start.
pub open spec fn without_hashes(s: Seq<char>) -> Seq<char>
    decreases s.len(),
{
    if s.len() > 0 && s[0] == '#' {
        without_hashes(s.skip(1))
    } else {
        s
    }
}

/// The view of the map for three texts, where they are numbers in range: latitude and longitude up
/// to 85 and 180 degrees, a height from 100 metres to 2000 kilometres.
pub open spec fn map_view(p: Seq<Seq<char>>) -> Option<InitialViewModel> {
    if p.len() >= 3 && size_at_most(p[0], lat_double()) && size_at_most(p[1], lon_double())
        && between(p[2], map_low(), map_high()) {
        Some(InitialViewModel::Chart { lat: p[0], lon: p[1], alt_m: p[2] })
    } else {
        None
    }
}

/// The view of the globe for two or three texts, where they are numbers in range: latitude and
/// longitude up to 85 and 180 degrees, a height from ten to 20000 kilometres, 12000 where there is
/// none.
pub open spec fn globe_view(p: Seq<Seq<char>>) -> Option<InitialViewModel> {
    let alt = if p.len() >= 3 { p[2] } else { "12000000"@ };
    if p.len() >= 2 && size_at_most(p[0], lat_single()) && size_at_most(p[1], lon_single())
        && between(alt, globe_low(), globe_high()) {
        Some(InitialViewModel::Globe { lat: p[0], lon: p[1], alt_m: alt })
    } else {
        None
    }
}

/// The view that the fragment of an address describes.
pub open spec fn view_in(s: Seq<char>) -> Option<InitialViewModel> {
    let body = without_hashes(s);
    let e = next_char(body, '=', 0);
    if e >= body.len() {
        None
    } else {
        let kind = body.take(e);
        let p = pieces_from(body.skip(e + 1), ',', 0);
        if kind == "map"@ {
            map_view(p)
        } else if kind == "globe"@ {
            globe_view(p)
        } else {
            None
        }
    }
}

/// The view that the fragment of an address describes, such as `#map=21.355,-157.925,10000`.
pub fn parse_hash(s: &str) -> (r: Option<InitialView>)
    ensures
        match view_in(s@) {
            None => r is None,
            Some(v) => r is Some && r->Some_0@ == v,
        },
{
    let cs: Vec<char> = chars_of(s);
    let n: usize = cs.len();
    let mut start: usize = 0;
    assert(s@.skip(0) =~= s@);
    while start < n && cs[start] == '#'
        invariant
            start <= n,
            n == cs@.len(),
            cs@ == s@,
            without_hashes(s@) == without_hashes(s@.skip(start as int)),
        decreases n - start,
    {
        assert(s@.skip(start as int).skip(1) =~= s@.skip(start + 1));
        start = start + 1;
    }
    let ghost body = s@.skip(start as int);
    assert(without_hashes(s@) == body);
    let mut end: usize = start;
    while end < n && cs[end] != '='
        invariant
            start <= end <= n,
            n == cs@.len(),
            cs@ == s@,
            body == s@.skip(start as int),
            next_char(body, '=', 0) == next_char(body, '=', end - start),
        decreases n - end,
    {
        assert(body[end - start] == cs@[end as int]);
        end = end + 1;
    }
    if end >= n {
        return None;
    }
    assert(body[end - start] == cs@[end as int]);
    let kind: String = string_of(&cs.as_slice()[start..end]);
    let rest: String = string_of(&cs.as_slice()[end + 1..n]);
    proof {
        assert(kind@ =~= body.take(end - start));
        assert(rest@ =~= body.skip(end - start + 1));
        lemma_limits_ok();
    }
    let p: Vec<String> = split(rest.as_str(), ',');
    let ghost views = pieces_from(rest@, ',', 0);
    let count: usize = p.len();
    proof {
        assert(views.len() == count);
        if count >= 1 {
            assert(views[0] == p@[0]@);
        }
        if count >= 2 {
            assert(views[1] == p@[1]@);
        }
        if count >= 3 {
            assert(views[2] == p@[2]@);
        }
    }
    if same(kind.as_str(), "map") {
        let lat_limit = Bound {
            whole: 85,
            frac: 710_542_735_760_100_185_871_124_267_578_125,
            places: 47,
        };
        let lon_limit = Bound {
            whole: 180,
            frac: 142_108_547_152_020_037_174_224_853_515_625,
            places: 46,
        };
        let low = Bound { whole: 99, frac: 999_996_185_302_734_375, places: 18 };
        let high = Bound { whole: 2_000_000, frac: 625, places: 4 };
        if count >= 3 && small_enough(p[0].as_str(), &lat_limit) && small_enough(
            p[1].as_str(),
            &lon_limit,
        ) && is_between(p[2].as_str(), &low, &high) {
            Some(
                InitialView::Chart { lat: p[0].clone(), lon: p[1].clone(), alt_m: p[2].clone() },
            )
        } else {
            None
        }
    } else if same(kind.as_str(), "globe") {
        let lat_limit = Bound { whole: 85, frac: 3_814_697_265_625, places: 18 };
        let lon_limit = Bound { whole: 180, frac: 762_939_453_125, places: 17 };
        let low = Bound { whole: 9_999, frac: 99_951_171_875, places: 11 };
        let high = Bound { whole: 20_000_001, frac: 0, places: 0 };
        let alt: String = if count >= 3 { p[2].clone() } else { "12000000".to_owned() };
        if count >= 2 && small_enough(p[0].as_str(), &lat_limit) && small_enough(
            p[1].as_str(),
            &lon_limit,
        ) && is_between(alt.as_str(), &low, &high) {
            Some(InitialView::Globe { lat: p[0].clone(), lon: p[1].clone(), alt_m: alt })
        } else {
            None
        }
    } else {
        None
    }
}

// ---------- formatting ----------

/// A number in units of its last place as decimal text.
pub open spec fn fixed(i: int, places: nat) -> Seq<char> {
    let m = if i < 0 { -i } else { i };
    let p = pow10(places) as int;
    let body = digits((m / p) as nat) + seq!['.'] + padded(m % p, places as int);
    if i < 0 {
        seq!['-'] + body
    } else {
        body
    }
}

/// The fragment for a view of the map.
pub open spec fn map_text(lat: int, lon: int, alt_m: int) -> Seq<char> {
    "#map="@ + (fixed(lat, 5) + seq![','] + (fixed(lon, 5) + seq![','] + digits(alt_m as nat)))
}

/// The fragment for a view of the globe.
pub open spec fn globe_text(lat: int, lon: int, alt_m: int) -> Seq<char> {
    "#globe="@ + (fixed(lat, 3) + seq![','] + (fixed(lon, 3) + seq![','] + digits(alt_m as nat)))
}

fn push_fixed(out: &mut String, i: i64, unit: u64, places: usize)
    requires
        (unit == 100_000 && places == 5) || (unit == 1_000 && places == 3),
    ensures
        final(out)@ == old(out)@ + fixed(i as int, places as nat),
{
    proof {
        lemma_powers();
    }
    let ghost start = out@;
    let m: u64 = if i < 0 { (-(i as i128)) as u64 } else { i as u64 };
    if i < 0 {
        out.push('-');
    }
    push_digits(out, m / unit);
    out.push('.');
    push_padded(out, (m % unit) as i64, places);
    assert(out@ =~= start + fixed(i as int, places as nat));
}

/// The fragment for a view of the map: latitude and longitude in hundred-thousandths of a degree,
/// the height in metres.
pub fn format_map(lat: i64, lon: i64, alt_m: u64) -> (r: String)
    ensures
        r@ == map_text(lat as int, lon as int, alt_m as int),
{
    let mut out: String = "#map=".to_owned();
    push_fixed(&mut out, lat, 100_000, 5);
    out.push(',');
    push_fixed(&mut out, lon, 100_000, 5);
    out.push(',');
    push_digits(&mut out, alt_m);
    assert(out@ =~= map_text(lat as int, lon as int, alt_m as int));
    out
}

/// The fragment for a view of the globe: latitude and longitude in thousandths of a degree, the
/// height in metres.
pub fn format_globe(lat: i64, lon: i64, alt_m: u64) -> (r: String)
    ensures
        r@ == globe_text(lat as int, lon as int, alt_m as int),
{
    let mut out: String = "#globe=".to_owned();
    push_fixed(&mut out, lat, 1_000, 3);
    out.push(',');
    push_fixed(&mut out, lon, 1_000, 3);
    out.push(',');
    push_digits(&mut out, alt_m);
    assert(out@ =~= globe_text(lat as int, lon as int, alt_m as int));
    out
}

/// When the address is updated: no more than every three tenths of a second, and only where the
/// view has changed. Times are in microseconds.
#[derive(Debug)]
pub struct LastUrl {
    pub text: String,
    pub since: u64,
}

impl Default for LastUrl {
    /// Nothing was written yet.
    fn default() -> (r: Self)
        ensures
            r.text@ == Seq::<char>::empty(),
            r.since == 0,
    {
        LastUrl { text: String::new(), since: 0 }
    }
}

impl LastUrl {
    /// Lets time pass and says whether a new address is due.
    pub fn due(&mut self, dt: u64) -> (r: bool)
        ensures
            final(self).text == old(self).text,
            final(self).since == crate::stream::time_sum(old(self).since, dt),
            r == (final(self).since >= 300_000),
    {
        self.since = self.since.saturating_add(dt);
        self.since >= 300_000
    }

    /// Notes that an address was written.
    pub fn wrote(&mut self, text: String)
        ensures
            final(self).text@ == text@,
            final(self).since == 0,
    {
        self.text = text;
        self.since = 0;
    }

    /// Whether a text differs from the last address.
    pub fn differs(&self, text: &str) -> (r: bool)
        ensures
            r == (self.text@ != text@),
    {
        !same(self.text.as_str(), text)
    }
}

// ---------- what formatting and parsing agree on ----------

proof fn lemma_next_char_shift(s: Seq<char>, c: char, k: int, j: int)
    requires
        0 <= k,
        0 <= j,
        k + j <= s.len(),
    ensures
        next_char(s, c, k + j) == k + next_char(s.skip(k), c, j),
    decreases s.len() - (k + j),
{
    if k + j < s.len() {
        assert(s.skip(k)[j] == s[k + j]);
        if s[k + j] != c {
            lemma_next_char_shift(s, c, k, j + 1);
        }
    }
}

proof fn lemma_pieces_shift(s: Seq<char>, c: char, k: int, j: int)
    requires
        0 <= k,
        0 <= j,
        k + j <= s.len(),
    ensures
        pieces_from(s, c, k + j) == pieces_from(s.skip(k), c, j),
    decreases s.len() - (k + j),
{
    lemma_next_char_shift(s, c, k, j);
    lemma_next_char(s, c, k + j);
    let t = s.skip(k);
    let e = next_char(t, c, j);
    if k + e < s.len() {
        assert(s.subrange(k + j, k + e) =~= t.subrange(j, e));
        lemma_pieces_shift(s, c, k, e + 1);
    } else {
        assert(s.subrange(k + j, s.len() as int) =~= t.subrange(j, t.len() as int));
    }
}

/// The first piece of text is what stands before the first separator.
proof fn lemma_first_piece(a: Seq<char>, c: char, r: Seq<char>)
    requires
        !a.contains(c),
    ensures
        next_char(a + seq![c] + r, c, 0) == a.len(),
        pieces_from(a + seq![c] + r, c, 0) == seq![a] + pieces_from(r, c, 0),
{
    let s = a + seq![c] + r;
    let e = next_char(s, c, 0);
    lemma_next_char(s, c, 0);
    let n = a.len() as int;
    assert(s[n] == c);
    if e < n {
        assert(a[e] == c);
    }
    assert(e == n);
    assert(s.subrange(0, n) =~= a);
    lemma_pieces_shift(s, c, n + 1, 0);
    assert(s.skip(n + 1) =~= r);
}

/// Text without a separator is one piece.
proof fn lemma_only_piece(a: Seq<char>, c: char)
    requires
        !a.contains(c),
    ensures
        pieces_from(a, c, 0) == seq![a],
{
    let e = next_char(a, c, 0);
    lemma_next_char(a, c, 0);
    if e < a.len() {
        assert(a[e] == c);
    }
    assert(a.subrange(0, a.len() as int) =~= a);
}

proof fn lemma_run(s: Seq<char>, i: int, j: int)
    requires
        0 <= i <= j <= s.len(),
        forall|k: int| i <= k < j ==> is_digit(#[trigger] s[k]),
        j < s.len() ==> !is_digit(s[j]),
    ensures
        digit_run(s, i) == j,
    decreases j - i,
{
    if i < j {
        assert(is_digit(s[i]));
        lemma_run(s, i + 1, j);
    }
}

proof fn lemma_digits_len(n: nat, k: nat)
    requires
        n < pow10(k),
        k >= 1,
    ensures
        1 <= digits(n).len() <= k,
    decreases k,
{
    if n >= 10 {
        assert(pow10(1) == 10 * pow10(0));
        assert(k >= 2);
        lemma_digits_len(n / 10, (k - 1) as nat);
    }
}

proof fn lemma_zeros(k: int)
    requires
        0 <= k,
    ensures
        crate::text::zeros(k).len() == k,
        forall|i: int| 0 <= i < k ==> #[trigger] crate::text::zeros(k)[i] == '0',
        numeral_value(crate::text::zeros(k)) == 0,
    decreases k,
{
    if k > 0 {
        lemma_zeros(k - 1);
        let z = crate::text::zeros(k - 1);
        assert(z.push('0').drop_last() =~= z);
    }
}

/// A number below a power of ten, filled up with zeros, has that many digits.
proof fn lemma_padded(n: nat, k: nat)
    requires
        n < pow10(k),
        k >= 1,
    ensures
        padded(n as int, k as int).len() == k,
        forall|i: int| 0 <= i < k ==> is_digit(#[trigger] padded(n as int, k as int)[i]),
        numeral_value(padded(n as int, k as int)) == n,
{
    lemma_digits_len(n, k);
    lemma_digits_shape(n);
    let d = digits(n);
    let z = crate::text::zeros(k - d.len());
    lemma_zeros(k - d.len());
    parse_reads_what_digits_writes(n);
    lemma_value_concat(z, d);
    let t = z + d;
    assert(padded(n as int, k as int) =~= t);
    assert forall|i: int| 0 <= i < k implies is_digit(#[trigger] t[i]) by {
        if i < z.len() {
            assert(t[i] == z[i]);
        } else {
            assert(t[i] == d[i - z.len()]);
        }
    }
    assert(0 * pow10(d.len()) == 0);
}

/// A formatted number is a number, stands for what was formatted, and holds no separator.
pub proof fn formatted_numbers_mean_themselves(i: int, places: nat)
    requires
        places >= 1,
    ensures
        is_number(fixed(i, places)),
        dec_of(fixed(i, places)) == (Dec {
            neg: i < 0,
            mant: (if i < 0 { -i } else { i }) as nat,
            exp: -(places as int),
        }),
        !fixed(i, places).contains(','),
        !fixed(i, places).contains('='),
        !fixed(i, places).contains('#'),
{
    let m = if i < 0 { -i } else { i };
    let p = pow10(places) as int;
    lemma_pow_grows(0, places);
    let q = (m / p) as nat;
    let r = m % p;
    vstd::arithmetic::div_mod::lemma_fundamental_div_mod(m, p);
    vstd::arithmetic::div_mod::lemma_mod_bound(m, p);
    vstd::arithmetic::div_mod::lemma_div_pos_is_pos(m, p);
    let d = digits(q);
    let f = padded(r, places as int);
    lemma_digits_shape(q);
    lemma_padded(r as nat, places);
    parse_reads_what_digits_writes(q);
    let s = fixed(i, places);
    let start: int = if i < 0 { 1 } else { 0 };
    let a = start + d.len();
    let n = s.len() as int;
    assert(n == a + 1 + places);
    assert forall|k: int| start <= k < a implies is_digit(#[trigger] s[k]) by {
        assert(s[k] == d[k - start]);
    }
    assert forall|k: int| a + 1 <= k < n implies is_digit(#[trigger] s[k]) by {
        assert(s[k] == f[k - a - 1]);
    }
    assert(s[a] == '.');
    assert(is_digit(s[start]));
    assert(after_sign(s, 0) == start);
    lemma_run(s, start, a);
    lemma_run(s, a + 1, n);
    assert(exponent_from(s, n));
    assert(number_from(s, start));
    assert(!special_from(s, start)) by {
        assert(!letter(s[start], 'i'));
        assert(!letter(s[start], 'n'));
    }
    assert(s.subrange(start, a) =~= d);
    assert(s.subrange(a + 1, n) =~= f);
    lemma_value_concat(d, f);
    assert(p * q == q * p) by (nonlinear_arith);
    assert forall|k: int| 0 <= k < n implies s[k] != ',' && s[k] != '=' && s[k] != '#' by {
        if start <= k < a {
            assert(is_digit(s[k]));
        } else if a + 1 <= k {
            assert(is_digit(s[k]));
        }
    }
}

/// A formatted whole number is a number, stands for what was formatted, and holds no separator.
pub proof fn formatted_integers_mean_themselves(n: nat)
    ensures
        is_number(digits(n)),
        dec_of(digits(n)) == (Dec { neg: false, mant: n, exp: 0 }),
        !digits(n).contains(','),
{
    let s = digits(n);
    lemma_digits_shape(n);
    parse_reads_what_digits_writes(n);
    assert(is_digit(s[0]));
    assert(after_sign(s, 0) == 0);
    lemma_run(s, 0, s.len() as int);
    assert(exponent_from(s, s.len() as int));
    assert(!special_from(s, 0)) by {
        assert(!letter(s[0], 'i'));
        assert(!letter(s[0], 'n'));
    }
    assert(s.subrange(0, s.len() as int) =~= s);
    assert forall|k: int| 0 <= k < s.len() implies s[k] != ',' by {
        assert(is_digit(s[k]));
    }
}

/// A number of few places in a range is found in it.
proof fn lemma_in_range(i: int, places: nat, b: Bound)
    requires
        places >= 1,
        places <= b.places,
        -(b.whole * pow10(places)) <= i <= b.whole * pow10(places),
    ensures
        size_at_most(fixed(i, places), b),
{
    formatted_numbers_mean_themselves(i, places);
    let m = if i < 0 { -i } else { i };
    let e = b.places - places;
    lemma_pow_split(places, e as nat);
    let pp = pow10(places) as int;
    let pe = pow10(e as nat) as int;
    lemma_pow_grows(0, e as nat);
    assert(pp * pe == pow10(b.places as nat));
    assert(m * pe <= (b.whole * pp) * pe) by (nonlinear_arith)
        requires
            m <= b.whole * pp,
            pe >= 0,
    ;
    assert((b.whole * pp) * pe == b.whole * (pp * pe)) by (nonlinear_arith);
    assert(m * 1 == m);
}

proof fn lemma_pow_split(a: nat, b: nat)
    ensures
        pow10(a + b) == pow10(a) * pow10(b),
    decreases b,
{
    if b > 0 {
        lemma_pow_split(a, (b - 1) as nat);
        let x = pow10(a);
        let y = pow10((b - 1) as nat);
        assert(10 * (x * y) == x * (10 * y)) by (nonlinear_arith);
        assert(a + b - 1 == a + (b - 1));
    } else {
        assert(pow10(a) * 1 == pow10(a));
    }
}

/// A whole number between two bounds is found between them.
proof fn lemma_whole_between(n: nat, lo: Bound, hi: Bound)
    requires
        lo.wf(),
        hi.wf(),
        lo.whole < n <= hi.whole,
    ensures
        between(digits(n), lo, hi),
{
    formatted_integers_mean_themselves(n);
    let pl = pow10(lo.places as nat) as int;
    let ph = pow10(hi.places as nat) as int;
    lemma_pow_grows(0, lo.places as nat);
    lemma_pow_grows(0, hi.places as nat);
    assert((lo.whole + 1) * pl <= n * pl) by (nonlinear_arith)
        requires
            lo.whole + 1 <= n,
            pl >= 1,
    ;
    assert((lo.whole + 1) * pl == lo.whole * pl + pl) by (nonlinear_arith);
    assert(n * ph <= hi.whole * ph) by (nonlinear_arith)
        requires
            n <= hi.whole,
            ph >= 1,
    ;
    assert(n * 1 == n);
}

/// The parts of a fragment with three values.
#[verifier::spinoff_prover]
#[verifier::rlimit(40)]
proof fn lemma_fields(kind: Seq<char>, a: Seq<char>, b: Seq<char>, c: Seq<char>)
    requires
        kind.len() > 0,
        kind[0] != '#',
        !kind.contains('='),
        !a.contains(','),
        !b.contains(','),
        !c.contains(','),
    ensures
        ({
            let rest = a + seq![','] + (b + seq![','] + c);
            let body = kind + seq!['='] + rest;
            &&& without_hashes(seq!['#'] + body) == body
            &&& next_char(body, '=', 0) == kind.len()
            &&& body.take(kind.len() as int) == kind
            &&& pieces_from(body.skip(kind.len() as int + 1), ',', 0) == seq![a, b, c]
        }),
{
    let rest = a + seq![','] + (b + seq![','] + c);
    let body = kind + seq!['='] + rest;
    let s = seq!['#'] + body;
    assert(s.skip(1) =~= body);
    assert(body[0] == kind[0]);
    assert(without_hashes(s) == without_hashes(body));
    lemma_first_piece(kind, '=', rest);
    assert(body.take(kind.len() as int) =~= kind);
    assert(body.skip(kind.len() as int + 1) =~= rest);
    lemma_first_piece(a, ',', b + seq![','] + c);
    lemma_first_piece(b, ',', c);
    lemma_only_piece(c, ',');
    assert(pieces_from(rest, ',', 0) =~= seq![a, b, c]);
}

/// The view of a fragment with three values for the map.
proof fn lemma_map_fragment(a: Seq<char>, b: Seq<char>, c: Seq<char>)
    requires
        !a.contains(','),
        !b.contains(','),
        !c.contains(','),
    ensures
        view_in("#map="@ + (a + seq![','] + (b + seq![','] + c))) == map_view(seq![a, b, c]),
{
    let kind = "map"@;
    reveal_strlit("#map=");
    reveal_strlit("map");
    lemma_fields(kind, a, b, c);
    let rest = a + seq![','] + (b + seq![','] + c);
    assert("#map="@ + rest =~= seq!['#'] + (kind + seq!['='] + rest));
}

/// The view of a fragment with three values for the globe.
proof fn lemma_globe_fragment(a: Seq<char>, b: Seq<char>, c: Seq<char>)
    requires
        !a.contains(','),
        !b.contains(','),
        !c.contains(','),
    ensures
        view_in("#globe="@ + (a + seq![','] + (b + seq![','] + c))) == globe_view(seq![a, b, c]),
{
    let kind = "globe"@;
    reveal_strlit("#globe=");
    reveal_strlit("globe");
    reveal_strlit("map");
    lemma_fields(kind, a, b, c);
    let rest = a + seq![','] + (b + seq![','] + c);
    assert("#globe="@ + rest =~= seq!['#'] + (kind + seq!['='] + rest));
    assert(kind.len() != "map"@.len());
}

proof fn lemma_map_values(lat: int, lon: int, alt_m: int)
    requires
        -8_500_000 <= lat <= 8_500_000,
        -18_000_000 <= lon <= 18_000_000,
        100 <= alt_m <= 2_000_000,
    ensures
        map_view(seq![fixed(lat, 5), fixed(lon, 5), digits(alt_m as nat)]) == Some(
            InitialViewModel::Chart {
                lat: fixed(lat, 5),
                lon: fixed(lon, 5),
                alt_m: digits(alt_m as nat),
            },
        ),
{
    assert(pow10(5) == 100_000) by {
        lemma_powers();
    }
    lemma_limits_ok();
    lemma_in_range(lat, 5, lat_double());
    lemma_in_range(lon, 5, lon_double());
    lemma_whole_between(alt_m as nat, map_low(), map_high());
}

proof fn lemma_globe_values(lat: int, lon: int, alt_m: int)
    requires
        -85_000 <= lat <= 85_000,
        -180_000 <= lon <= 180_000,
        10_000 <= alt_m <= 20_000_000,
    ensures
        globe_view(seq![fixed(lat, 3), fixed(lon, 3), digits(alt_m as nat)]) == Some(
            InitialViewModel::Globe {
                lat: fixed(lat, 3),
                lon: fixed(lon, 3),
                alt_m: digits(alt_m as nat),
            },
        ),
{
    assert(pow10(3) == 1_000) by {
        lemma_powers();
    }
    lemma_limits_ok();
    lemma_in_range(lat, 3, lat_single());
    lemma_in_range(lon, 3, lon_single());
    lemma_whole_between(alt_m as nat, globe_low(), globe_high());
}

/// Reading the address of a view of the map gives the view back, for every view in range.
pub proof fn map_address_round_trip(lat: int, lon: int, alt_m: int)
    requires
        -8_500_000 <= lat <= 8_500_000,
        -18_000_000 <= lon <= 18_000_000,
        100 <= alt_m <= 2_000_000,
    ensures
        view_in(map_text(lat, lon, alt_m)) == Some(
            InitialViewModel::Chart {
                lat: fixed(lat, 5),
                lon: fixed(lon, 5),
                alt_m: digits(alt_m as nat),
            },
        ),
{
    let a = fixed(lat, 5);
    let b = fixed(lon, 5);
    let c = digits(alt_m as nat);
    assert(!a.contains(',') && !b.contains(',') && !c.contains(',')) by {
        formatted_numbers_mean_themselves(lat, 5);
        formatted_numbers_mean_themselves(lon, 5);
        formatted_integers_mean_themselves(alt_m as nat);
    }
    lemma_map_values(lat, lon, alt_m);
    lemma_map_fragment(a, b, c);
}

/// Reading the address of a view of the globe gives the view back, for every view in range.
pub proof fn globe_address_round_trip(lat: int, lon: int, alt_m: int)
    requires
        -85_000 <= lat <= 85_000,
        -180_000 <= lon <= 180_000,
        10_000 <= alt_m <= 20_000_000,
    ensures
        view_in(globe_text(lat, lon, alt_m)) == Some(
            InitialViewModel::Globe {
                lat: fixed(lat, 3),
                lon: fixed(lon, 3),
                alt_m: digits(alt_m as nat),
            },
        ),
{
    let a = fixed(lat, 3);
    let b = fixed(lon, 3);
    let c = digits(alt_m as nat);
    assert(!a.contains(',') && !b.contains(',') && !c.contains(',')) by {
        formatted_numbers_mean_themselves(lat, 3);
        formatted_numbers_mean_themselves(lon, 3);
        formatted_integers_mean_themselves(alt_m as nat);
    }
    lemma_globe_values(lat, lon, alt_m);
    lemma_globe_fragment(a, b, c);
}

/// A number of few places outside a range is not found in it.
proof fn lemma_out_of_range(i: int, places: nat, b: Bound)
    requires
        places >= 1,
        places <= b.places,
        i < -(b.whole * pow10(places)) || b.whole * pow10(places) < i,
        b.frac < pow10((b.places - places) as nat),
    ensures
        !size_at_most(fixed(i, places), b),
{
    formatted_numbers_mean_themselves(i, places);
    let m = if i < 0 { -i } else { i };
    let e = b.places - places;
    lemma_pow_split(places, e as nat);
    let pp = pow10(places) as int;
    let pe = pow10(e as nat) as int;
    assert(pp * pe == pow10(b.places as nat));
    assert(m >= b.whole * pp + 1);
    assert(m * pe >= (b.whole * pp) * pe + pe) by (nonlinear_arith)
        requires
            m >= b.whole * pp + 1,
            pe >= 0,
    ;
    assert((b.whole * pp) * pe == b.whole * (pp * pe)) by (nonlinear_arith);
    assert(m * 1 == m);
}

/// A whole number that is not between two bounds is not found between them.
proof fn lemma_whole_outside(n: nat, lo: Bound, hi: Bound)
    requires
        lo.wf(),
        hi.wf(),
        lo.frac > 0,
        n <= lo.whole || hi.whole < n,
    ensures
        !between(digits(n), lo, hi),
{
    formatted_integers_mean_themselves(n);
    let pl = pow10(lo.places as nat) as int;
    let ph = pow10(hi.places as nat) as int;
    lemma_pow_grows(0, lo.places as nat);
    lemma_pow_grows(0, hi.places as nat);
    if n <= lo.whole {
        assert(n * pl <= lo.whole * pl) by (nonlinear_arith)
            requires
                n <= lo.whole,
                pl >= 1,
        ;
    } else {
        assert((hi.whole + 1) * ph <= n * ph) by (nonlinear_arith)
            requires
                hi.whole + 1 <= n,
                ph >= 1,
        ;
        assert((hi.whole + 1) * ph == hi.whole * ph + ph) by (nonlinear_arith);
    }
    assert(n * 1 == n);
}

proof fn lemma_small_fractions()
    ensures
        lat_double().frac < pow10(42),
        lon_double().frac < pow10(41),
        lat_single().frac < pow10(15),
        lon_single().frac < pow10(14),
{
    reveal_with_fuel(pow10, 43);
}

/// The address of a view of the map beyond 85 degrees of latitude or 180 of longitude, from below 100
/// metres, or of more than 2000 kilometres is not read.
pub proof fn map_addresses_out_of_range_are_refused(lat: int, lon: int, alt_m: nat)
    requires
        lat < -8_500_000 || 8_500_000 < lat || lon < -18_000_000 || 18_000_000 < lon || alt_m < 100
            || 2_000_000 < alt_m,
    ensures
        view_in(map_text(lat, lon, alt_m as int)) is None,
{
    let (a, b, c) = (fixed(lat, 5), fixed(lon, 5), digits(alt_m));
    formatted_numbers_mean_themselves(lat, 5);
    formatted_numbers_mean_themselves(lon, 5);
    formatted_integers_mean_themselves(alt_m);
    lemma_map_fragment(a, b, c);
    lemma_powers();
    lemma_limits_ok();
    lemma_small_fractions();
    if lat < -8_500_000 || 8_500_000 < lat {
        lemma_out_of_range(lat, 5, lat_double());
    }
    if lon < -18_000_000 || 18_000_000 < lon {
        lemma_out_of_range(lon, 5, lon_double());
    }
    if alt_m < 100 || 2_000_000 < alt_m {
        lemma_whole_outside(alt_m, map_low(), map_high());
    }
}

/// The address of a view of the globe beyond 85 degrees of latitude or 180 of longitude, from below ten
/// kilometres, or from more than 20000 kilometres and the metre that single precision cannot tell is not
/// read.
pub proof fn globe_addresses_out_of_range_are_refused(lat: int, lon: int, alt_m: nat)
    requires
        lat < -85_000 || 85_000 < lat || lon < -180_000 || 180_000 < lon || alt_m < 10_000 || 20_000_001
            < alt_m,
    ensures
        view_in(globe_text(lat, lon, alt_m as int)) is None,
{
    let (a, b, c) = (fixed(lat, 3), fixed(lon, 3), digits(alt_m));
    formatted_numbers_mean_themselves(lat, 3);
    formatted_numbers_mean_themselves(lon, 3);
    formatted_integers_mean_themselves(alt_m);
    lemma_globe_fragment(a, b, c);
    lemma_powers();
    lemma_limits_ok();
    lemma_small_fractions();
    if lat < -85_000 || 85_000 < lat {
        lemma_out_of_range(lat, 3, lat_single());
    }
    if lon < -180_000 || 180_000 < lon {
        lemma_out_of_range(lon, 3, lon_single());
    }
    if alt_m < 10_000 || 20_000_001 < alt_m {
        lemma_whole_outside(alt_m, globe_low(), globe_high());
    }
}

/// Number signs at the start of an address do not matter.
pub proof fn number_signs_do_not_matter(s: Seq<char>)
    ensures
        view_in(seq!['#'] + s) == view_in(s),
{
    assert((seq!['#'] + s).skip(1) =~= s);
    assert((seq!['#'] + s)[0] == '#');
}

/// The parts of a fragment with two values.
#[verifier::spinoff_prover]
#[verifier::rlimit(40)]
proof fn lemma_two_fields(kind: Seq<char>, a: Seq<char>, b: Seq<char>)
    requires
        kind.len() > 0,
        kind[0] != '#',
        !kind.contains('='),
        !a.contains(','),
        !b.contains(','),
    ensures
        ({
            let rest = a + seq![','] + b;
            let body = kind + seq!['='] + rest;
            &&& without_hashes(seq!['#'] + body) == body
            &&& next_char(body, '=', 0) == kind.len()
            &&& body.take(kind.len() as int) == kind
            &&& pieces_from(body.skip(kind.len() as int + 1), ',', 0) == seq![a, b]
        }),
{
    let rest = a + seq![','] + b;
    let body = kind + seq!['='] + rest;
    let s = seq!['#'] + body;
    assert(s.skip(1) =~= body);
    assert(body[0] == kind[0]);
    assert(without_hashes(s) == without_hashes(body));
    lemma_first_piece(kind, '=', rest);
    assert(body.take(kind.len() as int) =~= kind);
    assert(body.skip(kind.len() as int + 1) =~= rest);
    lemma_first_piece(a, ',', b);
    lemma_only_piece(b, ',');
    assert(pieces_from(rest, ',', 0) =~= seq![a, b]);
}

/// The view of a fragment with two values for the globe.
proof fn lemma_globe_pair(a: Seq<char>, b: Seq<char>)
    requires
        !a.contains(','),
        !b.contains(','),
    ensures
        view_in("#globe="@ + (a + seq![','] + b)) == globe_view(seq![a, b]),
{
    let kind = "globe"@;
    reveal_strlit("#globe=");
    reveal_strlit("globe");
    reveal_strlit("map");
    lemma_two_fields(kind, a, b);
    let rest = a + seq![','] + b;
    assert("#globe="@ + rest =~= seq!['#'] + (kind + seq!['='] + rest));
    assert(kind.len() != "map"@.len());
}

proof fn lemma_default_height()
    ensures
        digits(12_000_000) == "12000000"@,
{
    reveal_strlit("12000000");
    reveal_with_fuel(digits, 9);
    assert(digits(12_000_000) =~= "12000000"@);
}

/// The address of a view of the globe without a height means 12000 kilometres.
pub proof fn globe_addresses_may_leave_the_height_out(lat: int, lon: int)
    requires
        -85_000 <= lat <= 85_000,
        -180_000 <= lon <= 180_000,
    ensures
        view_in("#globe="@ + (fixed(lat, 3) + seq![','] + fixed(lon, 3))) == Some(
            InitialViewModel::Globe {
                lat: fixed(lat, 3),
                lon: fixed(lon, 3),
                alt_m: digits(12_000_000),
            },
        ),
{
    let (a, b) = (fixed(lat, 3), fixed(lon, 3));
    assert(!a.contains(',') && !b.contains(',')) by {
        formatted_numbers_mean_themselves(lat, 3);
        formatted_numbers_mean_themselves(lon, 3);
    }
    lemma_globe_pair(a, b);
    lemma_globe_values(lat, lon, 12_000_000);
    lemma_default_height();
}

/// An address that says neither `map` nor `globe` before an equals sign describes no view.
pub proof fn other_addresses_describe_no_view(kind: Seq<char>, rest: Seq<char>)
    requires
        !kind.contains('='),
        kind.len() == 0 || kind[0] != '#',
        kind != seq!['m', 'a', 'p'],
        kind != seq!['g', 'l', 'o', 'b', 'e'],
    ensures
        view_in(kind + seq!['='] + rest) is None,
        view_in(kind) is None,
{
    let body = kind + seq!['='] + rest;
    reveal_strlit("globe");
    reveal_strlit("map");
    assert("map"@ =~= seq!['m', 'a', 'p']);
    assert("globe"@ =~= seq!['g', 'l', 'o', 'b', 'e']);
    if kind.len() > 0 {
        assert(body[0] == kind[0]);
    }
    assert(without_hashes(body) == body);
    lemma_first_piece(kind, '=', rest);
    assert(body.take(kind.len() as int) =~= kind);
    assert(without_hashes(kind) == kind);
    lemma_next_char(kind, '=', 0);
    let e = next_char(kind, '=', 0);
    if e < kind.len() {
        assert(kind.contains(kind[e]));
    }
}

} // verus!
