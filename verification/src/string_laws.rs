//! Laws of text: searching, replacing, trimming, splitting and reading numbers.

use vstd::prelude::*;

use crate::text::{
    after_sign, byte_slice, digit_run, digits, exponent_from, find_from, int_text, is_digit,
    is_float, is_numeral, is_space, lemma_digit_run, lemma_digits_shape, lemma_line_end,
    lemma_next_char, letter, line_end, lines_from, next_char, number_from, occurs_at,
    parse_reads_what_digits_writes, parsed_int, pieces_from, replaced, special_from, trimmed,
    trimmed_end, trimmed_start,
};

verus! {

// ---------- searching and replacing ----------

/// Whether a pattern stands at an index, character for character.
pub open spec fn stands_at(s: Seq<char>, pat: Seq<char>, i: int) -> bool {
    0 <= i && i + pat.len() <= s.len() && forall|j: int| 0 <= j < pat.len() ==> s[i + j]
        == #[trigger] pat[j]
}

/// Whether a word stands anywhere in text.
pub open spec fn has_word(s: Seq<char>, word: Seq<char>) -> bool {
    exists|i: int| #[trigger] stands_at(s, word, i)
}

proof fn lemma_stands(s: Seq<char>, pat: Seq<char>, i: int)
    ensures
        occurs_at(s, pat, i) <==> stands_at(s, pat, i),
{
    if occurs_at(s, pat, i) {
        assert forall|j: int| 0 <= j < pat.len() implies s[i + j] == #[trigger] pat[j] by {
            assert(s.subrange(i, i + pat.len())[j] == s[i + j]);
        }
    }
    if stands_at(s, pat, i) {
        assert(s.subrange(i, i + pat.len()) =~= pat);
    }
}

/// What is found is the first place, from the start on, at which the pattern stands; nothing is found
/// only where it stands nowhere.
pub proof fn the_first_place_is_found(s: Seq<char>, pat: Seq<char>, i: int)
    requires
        0 <= i,
    ensures
        match find_from(s, pat, i) {
            Some(k) => i <= k && stands_at(s, pat, k) && forall|j: int|
                i <= j < k ==> !#[trigger] stands_at(s, pat, j),
            None => forall|j: int| i <= j ==> !#[trigger] stands_at(s, pat, j),
        },
    decreases s.len() + 1 - i,
{
    lemma_stands(s, pat, i);
    if i + pat.len() <= s.len() && !occurs_at(s, pat, i) {
        the_first_place_is_found(s, pat, i + 1);
    }
}

proof fn lemma_stands_later(s: Seq<char>, t: Seq<char>, pat: Seq<char>, j: int)
    requires
        s.len() > 0,
        t == s.skip(1),
        stands_at(t, pat, j),
    ensures
        stands_at(s, pat, j + 1),
{
    assert forall|k: int| 0 <= k < pat.len() implies s[j + 1 + k] == #[trigger] pat[k] by {
        assert(t[j + k] == s[j + 1 + k]);
    }
}

/// Text in which the pattern does not stand stays as it is.
pub proof fn nothing_else_is_replaced(s: Seq<char>, pat: Seq<char>, with: Seq<char>)
    requires
        pat.len() > 0,
        forall|j: int| !#[trigger] stands_at(s, pat, j),
    ensures
        replaced(s, pat, with) == s,
    decreases s.len(),
{
    if s.len() > 0 {
        let rest = s.skip(1);
        lemma_stands(s, pat, 0);
        assert(!stands_at(s, pat, 0));
        assert forall|j: int| !#[trigger] stands_at(rest, pat, j) by {
            if stands_at(rest, pat, j) {
                lemma_stands_later(s, rest, pat, j);
            }
        }
        nothing_else_is_replaced(rest, pat, with);
        assert(seq![s[0]] + rest =~= s);
    }
}

/// What stands before the first place of the pattern stays, the pattern gives way, and the text behind
/// it is treated alike.
pub proof fn every_place_is_replaced(a: Seq<char>, pat: Seq<char>, b: Seq<char>, with: Seq<char>)
    requires
        pat.len() > 0,
        forall|j: int| 0 <= j < a.len() ==> !#[trigger] stands_at(a + pat + b, pat, j),
    ensures
        replaced(a + pat + b, pat, with) == a + with + replaced(b, pat, with),
    decreases a.len(),
{
    let s = a + pat + b;
    let end = replaced(b, pat, with);
    if a.len() == 0 {
        assert(s.skip(pat.len() as int) =~= b);
        assert(s.subrange(0, pat.len() as int) =~= pat);
        assert(occurs_at(s, pat, 0));
        assert(a + with + end =~= with + end);
    } else {
        let rest = a.skip(1);
        let t = rest + pat + b;
        lemma_stands(s, pat, 0);
        assert(!stands_at(s, pat, 0));
        assert(s.skip(1) =~= t);
        assert forall|j: int| 0 <= j < rest.len() implies !#[trigger] stands_at(t, pat, j) by {
            if stands_at(t, pat, j) {
                lemma_stands_later(s, t, pat, j);
            }
        }
        every_place_is_replaced(rest, pat, b, with);
        assert(s[0] == a[0]);
        assert(seq![a[0]] + (rest + with + end) =~= a + with + end);
    }
}

// ---------- white space ----------

/// White space is exactly these characters.
pub proof fn these_are_white_space(c: char)
    ensures
        is_space(c) <==> {
            ||| c == ' '
            ||| c == '\t'
            ||| c == '\n'
            ||| c == '\u{b}'
            ||| c == '\u{c}'
            ||| c == '\r'
            ||| c == '\u{85}'
            ||| c == '\u{a0}'
            ||| c == '\u{1680}'
            ||| '\u{2000}' <= c <= '\u{200a}'
            ||| c == '\u{2028}'
            ||| c == '\u{2029}'
            ||| c == '\u{202f}'
            ||| c == '\u{205f}'
            ||| c == '\u{3000}'
        },
{
}

proof fn lemma_end(s: Seq<char>) -> (b: int)
    ensures
        0 <= b <= s.len(),
        trimmed_end(s) == s.take(b),
        forall|i: int| b <= i < s.len() ==> is_space(#[trigger] s[i]),
        b > 0 ==> !is_space(s[b - 1]),
    decreases s.len(),
{
    if s.len() > 0 && is_space(s.last()) {
        let b = lemma_end(s.drop_last());
        assert(s.drop_last().take(b) =~= s.take(b));
        assert forall|i: int| b <= i < s.len() implies is_space(#[trigger] s[i]) by {
            if i < s.len() - 1 {
                assert(s.drop_last()[i] == s[i]);
            }
        }
        b
    } else {
        assert(s.take(s.len() as int) =~= s);
        s.len() as int
    }
}

proof fn lemma_start(s: Seq<char>) -> (a: int)
    ensures
        0 <= a <= s.len(),
        trimmed_start(s) == s.skip(a),
        forall|i: int| 0 <= i < a ==> is_space(#[trigger] s[i]),
        a < s.len() ==> !is_space(s[a]),
    decreases s.len(),
{
    if s.len() > 0 && is_space(s[0]) {
        let a = lemma_start(s.skip(1));
        assert(s.skip(1).skip(a) =~= s.skip(a + 1));
        assert forall|i: int| 0 <= i < a + 1 implies is_space(#[trigger] s[i]) by {
            if i > 0 {
                assert(s.skip(1)[i - 1] == s[i]);
            }
        }
        a + 1
    } else {
        assert(s.skip(0) =~= s);
        0
    }
}

/// Trimming leaves out white space at the start and the end, nothing else, and all of it.
pub proof fn trimming_leaves_white_space_out(s: Seq<char>) -> (r: (int, int))
    ensures
        0 <= r.0 <= r.1 <= s.len(),
        trimmed(s) == s.subrange(r.0, r.1),
        forall|i: int| 0 <= i < r.0 || r.1 <= i < s.len() ==> is_space(#[trigger] s[i]),
        r.0 < r.1 ==> !is_space(s[r.0]) && !is_space(s[r.1 - 1]),
{
    let a = lemma_start(s);
    let t = trimmed_start(s);
    let b = lemma_end(t);
    assert(t.take(b) =~= s.subrange(a, a + b));
    assert forall|i: int| 0 <= i < a || a + b <= i < s.len() implies is_space(#[trigger] s[i]) by {
        if i >= a + b {
            assert(t[i - a] == s[i]);
        }
    }
    if b > 0 {
        assert(t[b - 1] == s[a + b - 1]);
    }
    (a, a + b)
}

/// The end alone is trimmed of all white space and of nothing else.
pub proof fn ends_are_trimmed(s: Seq<char>) -> (b: int)
    ensures
        0 <= b <= s.len(),
        trimmed_end(s) == s.take(b),
        forall|i: int| b <= i < s.len() ==> is_space(#[trigger] s[i]),
        b > 0 ==> !is_space(s[b - 1]),
{
    lemma_end(s)
}

// ---------- lines ----------

proof fn lemma_line_end_is(s: Seq<char>, i: int, k: int)
    requires
        0 <= i <= k <= s.len(),
        forall|j: int| i <= j < k ==> s[j] != '\n',
        k < s.len() ==> s[k] == '\n',
    ensures
        line_end(s, i) == k,
    decreases k - i,
{
    if i < k {
        lemma_line_end_is(s, i + 1, k);
    }
}

proof fn lemma_lines_shift(s: Seq<char>, i: int, k: int)
    requires
        0 <= i <= s.len(),
        0 <= k,
    ensures
        lines_from(s, i + k) == lines_from(s.skip(i), k),
    decreases s.len() + 1 - i - k,
{
    let t = s.skip(i);
    if k < t.len() {
        lemma_line_end(t, k);
        let e = line_end(t, k);
        lemma_line_marks(t, k);
        assert forall|j: int| i + k <= j < i + e implies s[j] != '\n' by {
            assert(t[j - i] == s[j]);
        }
        if e < t.len() {
            assert(t[e] == s[i + e]);
        }
        lemma_line_end_is(s, i + k, i + e);
        assert(s.subrange(i + k, i + e) =~= t.subrange(k, e));
        lemma_lines_shift(s, i, e + 1);
    }
}

proof fn lemma_line_marks(s: Seq<char>, i: int)
    requires
        0 <= i <= s.len(),
    ensures
        forall|j: int| i <= j < line_end(s, i) ==> s[j] != '\n',
        line_end(s, i) < s.len() ==> s[line_end(s, i)] == '\n',
    decreases s.len() - i,
{
    if i < s.len() && s[i] != '\n' {
        lemma_line_marks(s, i + 1);
    }
}

/// Empty text has no lines, text without a line feed is one line, and a line feed ends the first line:
/// the lines of what follows it are the other lines. Each line is trimmed at its end.
pub proof fn line_feeds_end_lines(line: Seq<char>, rest: Seq<char>)
    requires
        forall|j: int| 0 <= j < line.len() ==> line[j] != '\n',
    ensures
        lines_from(Seq::empty(), 0).len() == 0,
        line.len() > 0 ==> lines_from(line, 0) == seq![trimmed_end(line)],
        lines_from(line.push('\n') + rest, 0) == seq![trimmed_end(line)] + lines_from(rest, 0),
{
    let n = line.len() as int;
    if n > 0 {
        lemma_line_end_is(line, 0, n);
        assert(line.subrange(0, n) =~= line);
        assert(lines_from(line, n + 1) =~= Seq::empty());
        assert(seq![trimmed_end(line)] + Seq::<Seq<char>>::empty() =~= seq![trimmed_end(line)]);
    }
    let s = line.push('\n') + rest;
    assert forall|j: int| 0 <= j < n implies s[j] != '\n' by {
        assert(s[j] == line[j]);
    }
    lemma_line_end_is(s, 0, n);
    assert(s.subrange(0, n) =~= line);
    lemma_lines_shift(s, n + 1, 0);
    assert(s.skip(n + 1) =~= rest);
}

// ---------- splitting ----------

/// Pieces put together again with a character between them.
pub open spec fn put_together(pieces: Seq<Seq<char>>, c: char) -> Seq<char>
    decreases pieces.len(),
{
    if pieces.len() == 0 {
        Seq::empty()
    } else if pieces.len() == 1 {
        pieces[0]
    } else {
        pieces[0] + seq![c] + put_together(pieces.skip(1), c)
    }
}

proof fn lemma_pieces(s: Seq<char>, c: char, i: int)
    requires
        0 <= i <= s.len(),
    ensures
        pieces_from(s, c, i).len() > 0,
        put_together(pieces_from(s, c, i), c) == s.skip(i),
        forall|k: int, j: int|
            0 <= k < pieces_from(s, c, i).len() && 0 <= j < pieces_from(s, c, i)[k].len()
                ==> #[trigger] pieces_from(s, c, i)[k][j] != c,
    decreases s.len() + 1 - i,
{
    let end = next_char(s, c, i);
    let all = pieces_from(s, c, i);
    lemma_next_char(s, c, i);
    if end >= s.len() {
        assert(s.subrange(i, s.len() as int) =~= s.skip(i));
        assert(all.len() == 1 && all[0] == s.skip(i));
    } else {
        lemma_pieces(s, c, end + 1);
        let rest = pieces_from(s, c, end + 1);
        assert(all == seq![s.subrange(i, end)] + rest);
        assert(all.skip(1) =~= rest);
        assert(s.subrange(i, end) + seq![c] + s.skip(end + 1) =~= s.skip(i));
        assert forall|k: int, j: int|
            0 <= k < all.len() && 0 <= j < all[k].len() implies #[trigger] all[k][j] != c by {
            if k > 0 {
                assert(all[k] == rest[k - 1]);
                assert(rest[k - 1][j] != c);
            }
        }
    }
}

/// Splitting loses nothing: the pieces with the character between them are the text again, and no piece
/// has the character.
pub proof fn splitting_loses_nothing(s: Seq<char>, c: char)
    ensures
        pieces_from(s, c, 0).len() > 0,
        put_together(pieces_from(s, c, 0), c) == s,
        forall|k: int, j: int|
            0 <= k < pieces_from(s, c, 0).len() && 0 <= j < pieces_from(s, c, 0)[k].len()
                ==> #[trigger] pieces_from(s, c, 0)[k][j] != c,
{
    lemma_pieces(s, c, 0);
    assert(s.skip(0) =~= s);
}

// ---------- parts of text ----------

/// Between two places of ASCII text stands what stands there; there is nothing between places outside
/// of the text or in the wrong order.
pub proof fn ascii_text_is_cut_by_character(s: Seq<char>, a: int, b: int)
    requires
        vstd::utf8::is_ascii_chars(s),
    ensures
        byte_slice(s, a, b) == if 0 <= a <= b <= s.len() {
            Some(s.subrange(a, b))
        } else {
            None
        },
{
    let bytes = vstd::utf8::encode_utf8(s);
    vstd::utf8::is_ascii_chars_encode_utf8(s);
    vstd::utf8::encode_utf8_valid_utf8(s);
    if 0 <= a <= b <= s.len() {
        lemma_ascii_boundary(s, a);
        lemma_ascii_boundary(s, b);
        let mid = s.subrange(a, b);
        assert(vstd::utf8::is_ascii_chars(mid));
        vstd::utf8::is_ascii_chars_encode_utf8(mid);
        assert(vstd::utf8::encode_utf8(mid) =~= bytes.subrange(a, b)) by {
            assert forall|i: int| 0 <= i < b - a implies vstd::utf8::encode_utf8(mid)[i]
                == bytes.subrange(a, b)[i] by {
                assert(mid[i] == s[a + i]);
            }
        }
        vstd::utf8::encode_utf8_decode_utf8(mid);
    }
}

proof fn lemma_ascii_boundary(s: Seq<char>, i: int)
    requires
        vstd::utf8::is_ascii_chars(s),
        0 <= i <= s.len(),
    ensures
        vstd::utf8::is_char_boundary(vstd::utf8::encode_utf8(s), i),
{
    let bytes = vstd::utf8::encode_utf8(s);
    vstd::utf8::is_ascii_chars_encode_utf8(s);
    vstd::utf8::encode_utf8_valid_utf8(s);
    vstd::utf8::is_char_boundary_start_end_of_seq(bytes);
    if i < s.len() {
        assert(s[i] as u8 == bytes[i]);
        assert('\0' <= s[i] <= '\u{7f}');
        vstd::utf8::is_char_boundary_iff_not_is_continuation_byte(bytes, i);
    }
}

// ---------- integers ----------

/// A number in range is read back from its numeral, and a number that is not negative from its numeral
/// behind a plus sign too; a number out of range is not read.
pub proof fn integers_are_read_back(v: int, lo: int, hi: int)
    ensures
        lo <= v <= hi ==> parsed_int(int_text(v), lo, hi) == Some(v),
        !(lo <= v <= hi) ==> parsed_int(int_text(v), lo, hi) is None,
        v >= 0 && lo <= v <= hi ==> parsed_int(seq!['+'] + int_text(v), lo, hi) == Some(v),
{
    let m = if v < 0 {
        (-v) as nat
    } else {
        v as nat
    };
    let d = digits(m);
    parse_reads_what_digits_writes(m);
    lemma_digits_shape(m);
    assert(is_digit(d[0]));
    assert((seq!['-'] + d).skip(1) =~= d);
    assert((seq!['+'] + d).skip(1) =~= d);
    if v < 0 {
        let s = seq!['-'] + d;
        assert(s[0] == '-');
        if lo >= 0 {
            assert(!is_digit('-'));
            assert(!is_numeral(s));
        }
    }
}

/// Only digits behind at most one sign are read: nothing is read of empty text, of a sign alone, and of
/// text with another character behind the first.
pub proof fn only_digits_are_read(s: Seq<char>, lo: int, hi: int)
    ensures
        s.len() == 0 ==> parsed_int(s, lo, hi) is None,
        s.len() == 1 && !is_digit(s[0]) ==> parsed_int(s, lo, hi) is None,
        s.len() > 0 && !is_digit(s[0]) && s[0] != '+' && s[0] != '-' ==> parsed_int(s, lo, hi) is None,
        (exists|i: int| 0 < i < s.len() && !is_digit(#[trigger] s[i])) ==> parsed_int(s, lo, hi) is None,
        parsed_int(s, lo, hi) is Some ==> lo <= parsed_int(s, lo, hi)->Some_0 <= hi,
{
    if exists|i: int| 0 < i < s.len() && !is_digit(#[trigger] s[i]) {
        let i = choose|i: int| 0 < i < s.len() && !is_digit(#[trigger] s[i]);
        assert(s.skip(1)[i - 1] == s[i]);
    }
    if s.len() > 0 {
        assert(s[0] == s[0]);
    }
}

// ---------- numbers with a point ----------

pub proof fn lemma_run(s: Seq<char>, i: int, k: int)
    requires
        0 <= i <= k <= s.len(),
        forall|j: int| i <= j < k ==> is_digit(#[trigger] s[j]),
        k < s.len() ==> !is_digit(s[k]),
    ensures
        digit_run(s, i) == k,
    decreases k - i,
{
    if i < k {
        assert(is_digit(s[i]));
        lemma_run(s, i + 1, k);
    }
}

/// Whether text is digits only.
pub open spec fn all_digits(s: Seq<char>) -> bool {
    forall|j: int| 0 <= j < s.len() ==> is_digit(#[trigger] s[j])
}

/// Whether text is an exponent: nothing, or an E with a sign or without, and digits.
pub open spec fn is_exponent(s: Seq<char>) -> bool {
    s.len() == 0 || {
        let i = if s.len() > 1 && (s[1] == '+' || s[1] == '-') {
            2
        } else {
            1int
        };
        (s[0] == 'e' || s[0] == 'E') && i < s.len() && all_digits(s.skip(i))
    }
}

proof fn lemma_exponent(s: Seq<char>, a: Seq<char>, e: Seq<char>)
    requires
        s == a + e,
        is_exponent(e),
    ensures
        exponent_from(s, a.len() as int),
        e.len() > 0 ==> !is_digit(s[a.len() as int]) && s[a.len() as int] != '.',
{
    let n = a.len() as int;
    if e.len() > 0 {
        let i = if e.len() > 1 && (e[1] == '+' || e[1] == '-') {
            2
        } else {
            1int
        };
        assert(s[n] == e[0]);
        if e.len() > 1 {
            assert(s[n + 1] == e[1]);
        }
        assert(after_sign(s, n + 1) == n + i);
        assert forall|j: int| n + i <= j < s.len() implies is_digit(#[trigger] s[j]) by {
            assert(e.skip(i)[j - n - i] == s[j]);
        }
        lemma_run(s, n + i, s.len() as int);
    }
}

/// A decimal number is a sign or none, digits, a point or none, digits behind a point, and an exponent or
/// none, with at least one digit before or behind the point.
pub proof fn decimal_numbers_are_numbers(
    sign: Seq<char>,
    whole: Seq<char>,
    fraction: Seq<char>,
    exponent: Seq<char>,
)
    requires
        sign.len() == 0 || sign == seq!['+'] || sign == seq!['-'],
        all_digits(whole),
        all_digits(fraction),
        is_exponent(exponent),
    ensures
        whole.len() > 0 ==> is_float(sign + whole + exponent),
        whole.len() + fraction.len() > 0 ==> is_float(
            sign + whole + seq!['.'] + fraction + exponent,
        ),
{
    let (n, w, f) = (sign.len() as int, whole.len() as int, fraction.len() as int);
    if w > 0 {
        let s = sign + whole + exponent;
        assert forall|j: int| n <= j < n + w implies is_digit(#[trigger] s[j]) by {
            assert(s[j] == whole[j - n]);
        }
        assert(is_digit(s[n]));
        assert(after_sign(s, 0) == n);
        lemma_exponent(s, sign + whole, exponent);
        lemma_run(s, n, n + w);
        assert(number_from(s, n));
    }
    if w + f > 0 {
        let s = sign + whole + seq!['.'] + fraction + exponent;
        assert(s[n + w] == '.');
        assert forall|j: int| n <= j < n + w implies is_digit(#[trigger] s[j]) by {
            assert(s[j] == whole[j - n]);
        }
        assert forall|j: int| n + w + 1 <= j < n + w + 1 + f implies is_digit(#[trigger] s[j]) by {
            assert(s[j] == fraction[j - n - w - 1]);
        }
        if w > 0 {
            assert(is_digit(s[n]));
        }
        assert(after_sign(s, 0) == n);
        lemma_exponent(s, sign + whole + seq!['.'] + fraction, exponent);
        lemma_run(s, n, n + w);
        lemma_run(s, n + w + 1, n + w + 1 + f);
        assert(number_from(s, n));
    }
}

/// A number has no other parts: without its sign it is one of the words for infinity and no number, or
/// digits and at most one point with an exponent or none behind them, and it has a digit.
pub proof fn numbers_are_decimal_numbers(s: Seq<char>)
    requires
        is_float(s),
        !special_from(s, after_sign(s, 0)),
    ensures
        s.len() > 0,
        exists|a: int, b: int|
            #![trigger s.subrange(a, b)]
            {
                &&& after_sign(s, 0) <= a <= b <= s.len()
                &&& all_digits(s.subrange(after_sign(s, 0), a))
                &&& a < b ==> s[a] == '.' && all_digits(s.subrange(a + 1, b))
                &&& a > after_sign(s, 0) || b > a + 1
                &&& is_exponent(s.skip(b))
            },
{
    let i = after_sign(s, 0);
    let a = digit_run(s, i);
    if i <= s.len() {
        lemma_digit_run(s, i);
    }
    lemma_run_digits(s, i);
    let b = if a < s.len() && s[a] == '.' {
        digit_run(s, a + 1)
    } else {
        a
    };
    if a < b {
        lemma_digit_run(s, a + 1);
        lemma_run_digits(s, a + 1);
    }
    if a < s.len() && s[a] == '.' {
        lemma_digit_run(s, a + 1);
        lemma_run_digits(s, a + 1);
    }
    let e = s.skip(b);
    assert(exponent_from(s, b));
    if b < s.len() {
        let j = after_sign(s, b + 1);
        assert(e[0] == s[b]);
        if e.len() > 1 {
            assert(e[1] == s[b + 1]);
        }
        lemma_run_digits(s, j);
        assert(e.skip(j - b) =~= s.subrange(j, s.len() as int));
        lemma_letter_e(s[b]);
        assert(j - b == if e.len() > 1 && (e[1] == '+' || e[1] == '-') {
            2int
        } else {
            1int
        });
        assert(is_exponent(e));
    }
    assert(s.subrange(a, b) == s.subrange(a, b));
}

proof fn lemma_letter_e(c: char)
    requires
        letter(c, 'e'),
    ensures
        c == 'e' || c == 'E',
{
    if c != 'e' {
        assert(c as u32 == 69);
        assert('E' as u32 == 69);
    }
}

proof fn lemma_run_digits(s: Seq<char>, i: int)
    requires
        0 <= i <= s.len(),
    ensures
        i <= digit_run(s, i) <= s.len(),
        all_digits(s.subrange(i, digit_run(s, i))),
    decreases s.len() - i,
{
    if i < s.len() && is_digit(s[i]) {
        lemma_run_digits(s, i + 1);
        let k = digit_run(s, i);
        assert forall|j: int| 0 <= j < k - i implies is_digit(#[trigger] s.subrange(i, k)[j]) by {
            if j > 0 {
                assert(s.subrange(i + 1, k)[j - 1] == s[i + j]);
            }
        }
    }
}

/// The words for infinity and no number are numbers too, with a sign or without.
pub proof fn special_words_are_numbers(sign: Seq<char>, word: Seq<char>)
    requires
        sign.len() == 0 || sign == seq!['+'] || sign == seq!['-'],
        word == seq!['i', 'n', 'f'] || word == seq!['n', 'a', 'n'] || word == seq![
            'i',
            'n',
            'f',
            'i',
            'n',
            'i',
            't',
            'y',
        ] || word == seq!['I', 'N', 'F'] || word == seq!['N', 'a', 'N'] || word == seq![
            'I',
            'n',
            'f',
            'i',
            'n',
            'i',
            't',
            'y',
        ],
    ensures
        is_float(sign + word),
{
    let s = sign + word;
    let n = sign.len() as int;
    assert(s[n] == word[0] && s[n + 1] == word[1] && s[n + 2] == word[2]);
    assert(after_sign(s, 0) == n);
    if word.len() == 8 {
        assert(s[n + 3] == word[3] && s[n + 4] == word[4] && s[n + 5] == word[5] && s[n + 6] == word[6]
            && s[n + 7] == word[7]);
    }
    assert(special_from(s, n));
}

} // verus!
