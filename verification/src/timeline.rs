//! The timeline: the visible window of time, its tick marks, and how pointer and clock move it.
//!
//! Times are in microseconds since the start of 1970, widths in thousandths of a pixel.

use vstd::prelude::*;

use crate::civil::{civil_from_unix, Civil};
use crate::sim::{SimClock, MAX_CLOCK};
use crate::text::{padded, push_padded, push_int, int_text, digits, push_digits};

verus! {

/// The start of the scenario, in seconds since the start of 1970: 2026-09-12 04:00:00.
pub const SCENARIO_EPOCH_UNIX: i64 = 1_789_185_600;

/// Microseconds in a second.
pub const MICROS: i64 = 1_000_000;

/// The height of the bar.
pub const BAR_H: i64 = 56_000;

/// The room left of the axis.
pub const PAD_L: i64 = 150_000;

/// The room right of the axis.
pub const PAD_R: i64 = 12_000;

/// The shortest window: two minutes.
pub const MIN_SPAN: i64 = 120_000_000;

/// The longest window: fourteen days.
pub const MAX_SPAN: i64 = 1_209_600_000_000;

/// The widest axis that is supported.
pub const MAX_AXIS: i64 = 1_000_000_000_000;

/// The tick intervals to choose from, in seconds.
pub open spec fn steps() -> Seq<i64> {
    seq![
        60i64, 300, 900, 1_800, 3_600, 10_800, 21_600, 43_200, 86_400, 259_200, 604_800, 2_592_000,
    ]
}

/// Whether ticks at an interval are at least 90 pixels apart.
pub open spec fn wide_enough(step: i64, span: i64, axis_w: i64) -> bool {
    step * MICROS * axis_w >= 90_000 * span
}

/// The first interval, from index `i` on, at which ticks are wide enough apart; the longest one
/// where none is.
pub open spec fn step_from(span: i64, axis_w: i64, i: int) -> i64
    decreases steps().len() - i,
{
    if i < 0 || i >= steps().len() - 1 || wide_enough(steps()[i], span, axis_w) {
        steps()[if 0 <= i < steps().len() { i } else { steps().len() - 1 }]
    } else {
        step_from(span, axis_w, i + 1)
    }
}

/// The interval of major ticks, in seconds, for a window on an axis.
pub fn step_for_span(span: i64, axis_w: i64) -> (r: i64)
    requires
        0 < span <= MAX_SPAN,
        -MAX_AXIS <= axis_w <= MAX_AXIS,
    ensures
        r == step_from(span, axis_w, 0),
        60 <= r <= 2_592_000,
        r % 60 == 0,
{
    let all: [i64; 12] = [
        60, 300, 900, 1_800, 3_600, 10_800, 21_600, 43_200, 86_400, 259_200, 604_800, 2_592_000,
    ];
    let mut i: usize = 0;
    assert(all@ =~= steps());
    while i < 11
        invariant
            i <= 11,
            all@ == steps(),
            0 < span <= MAX_SPAN,
            -MAX_AXIS <= axis_w <= MAX_AXIS,
            step_from(span, axis_w, 0) == step_from(span, axis_w, i as int),
        decreases 11 - i,
    {
        let s: i64 = all[i];
        proof {
            assert(60 <= steps()[i as int] <= 2_592_000 && steps()[i as int] % 60 == 0);
            assert(-0x40_0000_0000_0000_0000_0000 <= s * MICROS * axis_w
                <= 0x40_0000_0000_0000_0000_0000) by (nonlinear_arith)
                requires
                    60 <= s <= 2_592_000,
                    -1_000_000_000_000 <= axis_w <= 1_000_000_000_000,
                    MICROS == 1_000_000,
            ;
        }
        if (s * MICROS) as i128 * axis_w as i128 >= 90_000 * span as i128 {
            return s;
        }
        i = i + 1;
    }
    all[11]
}

/// One tick mark. Its time is in seconds since the start of 1970.
#[derive(Debug)]
pub struct Tick {
    pub unix: i64,
    pub major: bool,
    pub label: Option<String>,
}

/// What a `Tick` stands for.
pub struct TickView {
    pub unix: int,
    pub major: bool,
    pub label: Option<Seq<char>>,
}

impl View for Tick {
    type V = TickView;

    open spec fn view(&self) -> TickView {
        TickView {
            unix: self.unix as int,
            major: self.major,
            label: match self.label {
                Some(l) => Some(l@),
                None => None,
            },
        }
    }
}

/// The name of a month.
pub open spec fn month_name(m: int) -> Seq<char> {
    if m == 1 {
        "JAN"@
    } else if m == 2 {
        "FEB"@
    } else if m == 3 {
        "MAR"@
    } else if m == 4 {
        "APR"@
    } else if m == 5 {
        "MAY"@
    } else if m == 6 {
        "JUN"@
    } else if m == 7 {
        "JUL"@
    } else if m == 8 {
        "AUG"@
    } else if m == 9 {
        "SEP"@
    } else if m == 10 {
        "OCT"@
    } else if m == 11 {
        "NOV"@
    } else {
        "DEC"@
    }
}

/// A date as a tick label: month name and day.
pub open spec fn date_text(c: Civil) -> Seq<char> {
    month_name(c.month as int) + seq![' '] + digits(c.day as nat)
}

/// A date as a tick label: month name and day.
pub fn date_label(c: &Civil) -> (r: String)
    requires
        1 <= c.month <= 12,
    ensures
        r@ == date_text(*c),
{
    let name: &str = match c.month {
        1 => "JAN",
        2 => "FEB",
        3 => "MAR",
        4 => "APR",
        5 => "MAY",
        6 => "JUN",
        7 => "JUL",
        8 => "AUG",
        9 => "SEP",
        10 => "OCT",
        11 => "NOV",
        _ => "DEC",
    };
    let mut out: String = name.to_owned();
    out.push(' ');
    push_digits(&mut out, c.day as u64);
    assert(out@ =~= date_text(*c));
    out
}

/// Hours and minutes as a tick label.
pub open spec fn time_text(c: Civil) -> Seq<char> {
    padded(c.hour as int, 2) + seq![':'] + padded(c.min as int, 2)
}

/// The date and time of day of a number of seconds.
pub open spec fn civil_at(unix: int) -> Civil {
    choose|c: Civil| c.valid() && #[trigger] c.unix() == unix
}

/// The tick at a time: major where the interval divides the time, and then labelled with the
/// date on the first one of a day, with the time of day otherwise.
pub open spec fn tick_at(unix: int, step: int) -> TickView {
    let c = civil_at(unix);
    TickView {
        unix,
        major: unix % step == 0,
        label: if unix % step != 0 {
            None
        } else if (c.hour * 60 + c.min) * 60 < step {
            Some(date_text(c))
        } else {
            Some(time_text(c))
        },
    }
}

/// The first tick of a window, in seconds.
pub open spec fn first_tick(start: i64, minor: int) -> int {
    start as int / (minor * MICROS) * minor
}

/// The number of ticks of a window: they reach one interval beyond its end.
pub open spec fn tick_count(start: i64, span: i64, minor: int) -> int {
    (start + span + minor * MICROS - first_tick(start, minor) * MICROS) / (minor * MICROS) + 1
}

/// The ticks of a window.
pub open spec fn ticks(start: i64, span: i64, axis_w: i64) -> Seq<TickView> {
    let step = step_from(span, axis_w, 0) as int;
    let minor = step / 5;
    Seq::new(
        tick_count(start, span, minor) as nat,
        |i: int| tick_at(first_tick(start, minor) + i * minor, step),
    )
}

/// The quotient, rounded towards negative infinity.
pub fn floor_div(a: i128, b: i128) -> (r: i128)
    requires
        b > 0,
        a > i128::MIN,
    ensures
        r == a as int / b as int,
{
    if a >= 0 {
        a / b
    } else {
        let q: i128 = (-(a + 1)) / b;
        proof {
            let m = -(a + 1);
            vstd::arithmetic::div_mod::lemma_fundamental_div_mod(m, b as int);
            vstd::arithmetic::div_mod::lemma_mod_bound(m, b as int);
            let rem = m % (b as int);
            assert(b * (-q - 1) == -(b * q) - b) by (nonlinear_arith);
            assert((-q - 1) * b == b * (-q - 1)) by (nonlinear_arith);
            vstd::arithmetic::div_mod::lemma_fundamental_div_mod_converse(
                a as int,
                b as int,
                -q - 1,
                b - 1 - rem,
            );
        }
        -q - 1
    }
}

/// The times that are supported: some thirty thousand years around 1970.
pub const MAX_TIME: i64 = 1_000_000_000_000_000_000;

fn make_tick(unix: i64, step: i64) -> (r: Tick)
    requires
        60 <= step <= 2_592_000,
        -2 * MAX_TIME <= unix <= 2 * MAX_TIME,
    ensures
        r@ == tick_at(unix as int, step as int),
{
    let whole: i128 = floor_div(unix as i128, step as i128);
    proof {
        vstd::arithmetic::div_mod::lemma_fundamental_div_mod(unix as int, step as int);
        vstd::arithmetic::div_mod::lemma_mod_bound(unix as int, step as int);
        assert(whole * step == step * whole) by (nonlinear_arith);
    }
    let major: bool = whole * step as i128 == unix as i128;
    if !major {
        return Tick { unix, major, label: None };
    }
    let c: Civil = civil_from_unix(unix);
    proof {
        let other = civil_at(unix as int);
        assert(c.valid() && c.unix() == unix);
        crate::civil::civil_is_unique(c, other);
    }
    let label: String = if (c.hour * 60 + c.min) as i64 * 60 < step {
        date_label(&c)
    } else {
        let mut out: String = String::new();
        push_padded(&mut out, c.hour as i64, 2);
        out.push(':');
        push_padded(&mut out, c.min as i64, 2);
        assert(out@ =~= time_text(c));
        out
    };
    Tick { unix, major, label: Some(label) }
}

/// The ticks of a window: five to a major interval, from the last one before the window to one
/// interval beyond its end.
pub fn ticks_for_window(start: i64, span: i64, axis_w: i64) -> (r: Vec<Tick>)
    requires
        -MAX_TIME <= start <= MAX_TIME,
        0 < span <= MAX_SPAN,
        -MAX_AXIS <= axis_w <= MAX_AXIS,
    ensures
        r@.map_values(|t: Tick| t@) == ticks(start, span, axis_w),
{
    let step: i64 = step_for_span(span, axis_w);
    let minor: i64 = step / 5;
    let unit: i64 = minor * MICROS;
    let whole: i64 = floor_div(start as i128, unit as i128) as i64;
    let ghost first = first_tick(start, minor as int);
    proof {
        assert(minor * 5 == step);
        vstd::arithmetic::div_mod::lemma_fundamental_div_mod(start as int, unit as int);
        vstd::arithmetic::div_mod::lemma_mod_bound(start as int, unit as int);
        let q = start as int / unit as int;
        assert(unit * q == q * minor * MICROS) by (nonlinear_arith)
            requires
                unit == minor * MICROS,
        ;
        lemma_quotient_bounds(start as int, unit as int);
        assert(-MAX_TIME - 1 <= q * minor <= MAX_TIME) by (nonlinear_arith)
            requires
                unit * q == q * minor * MICROS,
                start - unit < unit * q <= start,
                -1_000_000_000_000_000_000 <= start <= 1_000_000_000_000_000_000,
                MAX_TIME == 1_000_000_000_000_000_000,
                unit <= 600_000_000_000,
                MICROS == 1_000_000,
        ;
        assert(first == q * minor);
    }
    let mut unix: i64 = whole * minor;
    let last: i128 = start as i128 + span as i128 + unit as i128;
    let mut out: Vec<Tick> = Vec::new();
    let ghost all = ticks(start, span, axis_w);
    let ghost count = tick_count(start, span, minor as int);
    proof {
        let gap = last - first * MICROS;
        vstd::arithmetic::div_mod::lemma_fundamental_div_mod(gap as int, unit as int);
        vstd::arithmetic::div_mod::lemma_mod_bound(gap as int, unit as int);
        vstd::arithmetic::div_mod::lemma_div_pos_is_pos(gap as int, unit as int);
        assert(count == gap as int / unit as int + 1);
        assert(all.len() == count);
        assert(first + 0 * minor == first);
    }
    while unix as i128 * MICROS as i128 <= last
        invariant
            step == step_from(span, axis_w, 0),
            60 <= step <= 2_592_000,
            minor == step as int / 5,
            12 <= minor,
            unit == minor * MICROS,
            unit <= 600_000_000_000,
            0 < span <= MAX_SPAN,
            -MAX_TIME <= start <= MAX_TIME,
            last == start + span + unit,
            first == first_tick(start, minor as int),
            -MAX_TIME - 1 <= first,
            unix == first + out@.len() * minor,
            unix <= 2 * MAX_TIME - 600_000,
            count == (last - first * MICROS) / (unit as int) + 1,
            count == tick_count(start, span, minor as int),
            all == ticks(start, span, axis_w),
            all.len() == count,
            out@.len() <= count,
            out@.map_values(|t: Tick| t@) =~= all.take(out@.len() as int),
        decreases count - out@.len(),
    {
        let ghost n = out@.len() as int;
        proof {
            let gap = last - first * MICROS;
            vstd::arithmetic::div_mod::lemma_fundamental_div_mod(gap, unit as int);
            vstd::arithmetic::div_mod::lemma_mod_bound(gap, unit as int);
            assert(n * minor * MICROS == n * unit) by (nonlinear_arith)
                requires
                    unit == minor * MICROS,
            ;
            assert(unix * MICROS == first * MICROS + n * minor * MICROS) by (nonlinear_arith)
                requires
                    unix == first + n * minor,
            ;
            assert(n * unit <= gap);
            assert(n < count) by (nonlinear_arith)
                requires
                    n * unit <= gap,
                    gap < unit * (gap / (unit as int)) + unit,
                    count == gap / (unit as int) + 1,
                    unit > 0,
            ;
            assert(0 <= n * minor) by (nonlinear_arith)
                requires
                    0 <= n,
                    12 <= minor,
            ;
        }
        let t: Tick = make_tick(unix, step);
        let ghost view = t@;
        let ghost before = out@;
        out.push(t);
        proof {
            assert(all[n] == view);
            assert(out@.map_values(|t: Tick| t@) =~= before.map_values(|t: Tick| t@).push(view));
            assert((n + 1) * minor == n * minor + minor) by (nonlinear_arith);
        }
        unix = unix + minor;
    }
    proof {
        let n = out@.len() as int;
        let gap = last - first * MICROS;
        vstd::arithmetic::div_mod::lemma_fundamental_div_mod(gap, unit as int);
        vstd::arithmetic::div_mod::lemma_mod_bound(gap, unit as int);
        assert(n * minor * MICROS == n * unit) by (nonlinear_arith)
            requires
                unit == minor * MICROS,
        ;
        assert(unix * MICROS == first * MICROS + n * minor * MICROS) by (nonlinear_arith)
            requires
                unix == first + n * minor,
        ;
        assert(n * unit > gap);
        assert(n >= count) by (nonlinear_arith)
            requires
                n * unit > gap,
                gap >= unit * (gap / (unit as int)),
                count == gap / (unit as int) + 1,
                unit > 0,
        ;
        assert(all.take(n) =~= all);
    }
    out
}

proof fn lemma_quotient_bounds(a: int, b: int)
    requires
        b >= 12_000_000,
        -1_000_000_000_000_000_000 <= a <= 1_000_000_000_000_000_000,
    ensures
        -1_000_000_000_000 <= a / b <= 1_000_000_000_000,
{
    vstd::arithmetic::div_mod::lemma_fundamental_div_mod(a, b);
    vstd::arithmetic::div_mod::lemma_mod_bound(a, b);
    let q = a / b;
    assert(-1_000_000_000_000 <= q <= 1_000_000_000_000) by (nonlinear_arith)
        requires
            a == b * q + a % b,
            0 <= a % b < b,
            b >= 12_000_000,
            -1_000_000_000_000_000_000 <= a <= 1_000_000_000_000_000_000,
    ;
}

/// Ticks are evenly spaced, five to an interval; the first one is not after the start of the
/// window and the last one not before its end.
pub proof fn ticks_cover_the_window(start: i64, span: i64, axis_w: i64)
    requires
        0 < span <= MAX_SPAN,
        step_from(span, axis_w, 0) % 60 == 0,
        step_from(span, axis_w, 0) >= 60,
    ensures
        ({
            let all = ticks(start, span, axis_w);
            let minor = step_from(span, axis_w, 0) as int / 5;
            &&& all.len() >= 2
            &&& all[0].unix * MICROS <= start < (all[0].unix + minor) * MICROS
            &&& all.last().unix * MICROS > start + span
            &&& forall|i: int|
                0 <= i < all.len() ==> (#[trigger] all[i]).unix == all[0].unix + i * minor
            &&& forall|i: int|
                0 <= i < all.len() ==> (#[trigger] all[i]).major == (all[i].unix % (step_from(
                    span,
                    axis_w,
                    0,
                ) as int) == 0) && (all[i].label is Some) == all[i].major
        }),
{
    let step = step_from(span, axis_w, 0) as int;
    let minor = step / 5;
    let unit = minor * MICROS;
    let first = first_tick(start, minor);
    let q = start as int / unit;
    vstd::arithmetic::div_mod::lemma_fundamental_div_mod(start as int, unit);
    vstd::arithmetic::div_mod::lemma_mod_bound(start as int, unit);
    assert(unit * q == q * minor * MICROS) by (nonlinear_arith)
        requires
            unit == minor * MICROS,
    ;
    let gap = start + span + unit - first * MICROS;
    vstd::arithmetic::div_mod::lemma_fundamental_div_mod(gap, unit);
    vstd::arithmetic::div_mod::lemma_mod_bound(gap, unit);
    let count = tick_count(start, span, minor);
    assert(gap / unit >= 1) by (nonlinear_arith)
        requires
            gap >= unit,
            gap == unit * (gap / unit) + gap % unit,
            0 <= gap % unit < unit,
            unit > 0,
    ;
    let all = ticks(start, span, axis_w);
    let n = all.len() - 1;
    assert(all.last().unix == first + n * minor);
    assert((first + n * minor) * MICROS == first * MICROS + unit * n) by (nonlinear_arith)
        requires
            unit == minor * MICROS,
    ;
    assert(unit * n == unit * (gap / unit));
    assert(first + 0 * minor == first);
    assert((first + minor) * MICROS == first * MICROS + unit) by (nonlinear_arith)
        requires
            unit == minor * MICROS,
    ;
}

// ---------- positions on the axis ----------

/// The position of a time on the axis, rounded down.
pub open spec fn x_of(unix: int, start: int, span: int, axis_w: int) -> int {
    (unix - start) * axis_w / span
}

/// The time at a position on the axis, rounded down.
pub open spec fn time_at(x: int, start: int, span: int, axis_w: int) -> int {
    start + x * span / axis_w
}

proof fn lemma_axis_product(a: int, b: int)
    requires
        -4_000_000_000_000_000_000 <= a <= 4_000_000_000_000_000_000,
        0 <= b <= 2_000_000_000_000,
    ensures
        -8_000_000_000_000_000_000_000_000_000_000 <= a * b
            <= 8_000_000_000_000_000_000_000_000_000_000,
{
    assert(-8_000_000_000_000_000_000_000_000_000_000 <= a * b
        <= 8_000_000_000_000_000_000_000_000_000_000) by (nonlinear_arith)
        requires
            -4_000_000_000_000_000_000 <= a <= 4_000_000_000_000_000_000,
            0 <= b <= 2_000_000_000_000,
    ;
}

/// The position of a time on the axis. It may lie far outside of the axis.
pub fn unix_to_x(unix: i64, start: i64, span: i64, axis_w: i64) -> (r: i128)
    requires
        -2 * MAX_TIME <= unix <= 2 * MAX_TIME,
        -2 * MAX_TIME <= start <= 2 * MAX_TIME,
        0 < span <= MAX_SPAN,
        0 <= axis_w <= MAX_AXIS,
    ensures
        r == x_of(unix as int, start as int, span as int, axis_w as int),
{
    proof {
        lemma_axis_product(unix - start, axis_w as int);
    }
    floor_div((unix as i128 - start as i128) * axis_w as i128, span as i128)
}

/// The time at a position of the axis.
pub fn x_to_unix(x: i64, start: i64, span: i64, axis_w: i64) -> (r: i64)
    requires
        0 <= x <= axis_w,
        -2 * MAX_TIME <= start <= 2 * MAX_TIME,
        0 < span <= MAX_SPAN,
        0 < axis_w <= MAX_AXIS,
    ensures
        r == time_at(x as int, start as int, span as int, axis_w as int),
        start <= r <= start + span,
{
    proof {
        lemma_axis_product(x as int, span as int);
        lemma_part(x as int, span as int, axis_w as int);
    }
    (start as i128 + floor_div(x as i128 * span as i128, axis_w as i128)) as i64
}

/// A part of a length.
proof fn lemma_part(x: int, span: int, axis_w: int)
    requires
        0 <= x <= axis_w,
        0 < axis_w,
        0 <= span,
    ensures
        0 <= x * span / axis_w <= span,
{
    let q = x * span / axis_w;
    assert(0 <= x * span <= axis_w * span) by (nonlinear_arith)
        requires
            0 <= x <= axis_w,
            0 <= span,
    ;
    vstd::arithmetic::div_mod::lemma_fundamental_div_mod(x * span, axis_w);
    vstd::arithmetic::div_mod::lemma_mod_bound(x * span, axis_w);
    assert(0 <= q <= span) by (nonlinear_arith)
        requires
            0 <= axis_w * q + (x * span) % axis_w <= axis_w * span,
            0 <= (x * span) % axis_w < axis_w,
            axis_w > 0,
    ;
}

/// The ends of the axis are the ends of the window, and going to a time and back from a position
/// loses at most one unit of the axis, where a unit is no shorter than a microsecond.
pub proof fn axis_round_trip(x: int, start: int, span: int, axis_w: int)
    requires
        0 < axis_w <= span,
    ensures
        time_at(0, start, span, axis_w) == start,
        time_at(axis_w, start, span, axis_w) == start + span,
        x_of(start, start, span, axis_w) == 0,
        x_of(start + span, start, span, axis_w) == axis_w,
        x - 1 <= x_of(time_at(x, start, span, axis_w), start, span, axis_w) <= x,
{
    vstd::arithmetic::div_mod::lemma_div_multiples_vanish(span, axis_w);
    vstd::arithmetic::div_mod::lemma_div_multiples_vanish(axis_w, span);
    assert(axis_w * span == span * axis_w) by (nonlinear_arith);
    assert(0 * span == 0);
    assert(0 * axis_w == 0);
    let u = x * span / axis_w;
    vstd::arithmetic::div_mod::lemma_fundamental_div_mod(x * span, axis_w);
    vstd::arithmetic::div_mod::lemma_mod_bound(x * span, axis_w);
    let y = u * axis_w / span;
    vstd::arithmetic::div_mod::lemma_fundamental_div_mod(u * axis_w, span);
    vstd::arithmetic::div_mod::lemma_mod_bound(u * axis_w, span);
    let a = (x * span) % axis_w;
    let b = (u * axis_w) % span;
    assert(x - 1 <= y <= x) by (nonlinear_arith)
        requires
            x * span == axis_w * u + a,
            0 <= a < axis_w,
            u * axis_w == span * y + b,
            0 <= b < span,
            0 < axis_w <= span,
    ;
}

// ---------- the window ----------

/// The visible window of time.
#[derive(Debug, Clone, Copy, PartialEq, Eq, Structural)]
pub struct TimeWindow {
    pub start: i64,
    pub span: i64,
}

impl Default for TimeWindow {
    /// The first window: three hours, from ten minutes before the scenario.
    fn default() -> (r: Self)
        ensures
            r.wf(),
            r.start == (SCENARIO_EPOCH_UNIX - 600) * MICROS,
            r.span == 3 * 3600 * MICROS,
    {
        TimeWindow { start: (SCENARIO_EPOCH_UNIX - 600) * MICROS, span: 10_800 * MICROS }
    }
}

impl TimeWindow {
    /// The window is neither too short nor too long and lies in the supported times.
    pub open spec fn wf(self) -> bool {
        MIN_SPAN <= self.span <= MAX_SPAN && -MAX_TIME <= self.start <= MAX_TIME
    }

    /// Whether the window is neither too short nor too long and lies in the supported times.
    pub fn is_ok(&self) -> (r: bool)
        ensures
            r == self.wf(),
    {
        MIN_SPAN <= self.span && self.span <= MAX_SPAN && -MAX_TIME <= self.start && self.start
            <= MAX_TIME
    }

}

/// The start of the window once it follows the time: it stays while the time is in its first nine
/// tenths, else the time stands at its first tenth.
pub open spec fn rolled(start: int, span: int, now: int) -> int {
    if 10 * (now - start) > 9 * span || now < start {
        now - span / 10
    } else {
        start
    }
}

/// Lets the window follow the time.
pub fn roll_window(start: &mut i64, span: i64, now: i64)
    requires
        -2 * MAX_TIME <= *old(start) <= 2 * MAX_TIME,
        -2 * MAX_TIME <= now <= 2 * MAX_TIME,
        0 < span <= MAX_SPAN,
    ensures
        *final(start) == rolled(*old(start) as int, span as int, now as int),
{
    if 10 * (now as i128 - *start as i128) > 9 * span as i128 || now < *start {
        *start = now - span / 10;
    }
}

/// A window that has followed the time holds it in its first nine tenths, and follows no more.
pub proof fn rolled_window_holds_the_time(start: int, span: int, now: int)
    requires
        span >= 10,
    ensures
        ({
            let s = rolled(start, span, now);
            &&& s <= now
            &&& 10 * (now - s) <= 9 * span
            &&& rolled(s, span, now) == s
        }),
{
}

/// A turn of the wheel over the bar.
#[derive(Debug, Clone, Copy, PartialEq, Eq, Structural)]
pub enum Wheel {
    Still,
    In,
    Out,
}

/// The span after a turn of the wheel: a quarter longer or a fifth shorter, within the limits.
pub open spec fn zoomed(span: int, wheel: Wheel) -> int {
    let s = match wheel {
        Wheel::Still => span,
        Wheel::In => span * 4 / 5,
        Wheel::Out => span * 5 / 4,
    };
    if wheel == Wheel::Still {
        span
    } else if s < MIN_SPAN {
        MIN_SPAN as int
    } else if s > MAX_SPAN {
        MAX_SPAN as int
    } else {
        s
    }
}

/// What happens to the timeline in a frame.
#[derive(Debug, Clone, Copy)]
pub struct TimelineInput {
    /// Whether the pointer is over the bar.
    pub over_bar: bool,
    pub wheel: Wheel,
    /// Whether the pointer is pressed.
    pub pressed: bool,
    /// The position of the pointer from the start of the axis.
    pub x: Option<i64>,
    pub axis_w: i64,
    /// The time of the scenario.
    pub now: i64,
    pub paused: bool,
    /// The time since the last frame, in microseconds.
    pub dt: u64,
}

impl TimelineInput {
    /// The axis has a width, which only a press over the bar needs, and the time is supported.
    pub open spec fn wf(self) -> bool {
        0 <= self.axis_w <= MAX_AXIS && (self.over_bar && self.pressed ==> 0 < self.axis_w)
            && -MAX_TIME < self.now - MAX_SPAN && self.now < MAX_TIME
            - MAX_SPAN
    }

    /// The time at the pointer, where it is pressed over the bar.
    pub open spec fn target(self, w: TimeWindow) -> Option<int> {
        match self.x {
            Some(x) => if self.over_bar && self.pressed {
                Some(
                    time_at(
                        clamped(x as int, self.axis_w as int),
                        w.start as int,
                        w.span as int,
                        self.axis_w as int,
                    ),
                )
            } else {
                None
            },
            None => None,
        }
    }
}

/// A position held on the axis.
pub open spec fn clamped(x: int, axis_w: int) -> int {
    if x < 0 {
        0
    } else if x > axis_w {
        axis_w
    } else {
        x
    }
}

/// The timeline: its window, whether the handle is being dragged, and the time since the ticks
/// were last drawn, in microseconds.
#[derive(Debug, Clone, Copy, PartialEq, Eq, Structural)]
pub struct Timeline {
    pub window: TimeWindow,
    pub dragging: bool,
    pub since_drawn: u64,
}

/// What a frame of the timeline asks for.
#[derive(Debug, Clone, Copy, PartialEq, Eq, Structural)]
pub struct TimelineOutput {
    /// The time that the clock is set to, in microseconds since the start of the scenario.
    pub jump: Option<i64>,
    /// Whether the ticks are drawn anew.
    pub redraw: bool,
}

/// The window after the wheel was turned over the bar.
pub open spec fn after_wheel(w: TimeWindow, i: TimelineInput) -> TimeWindow {
    if i.over_bar && i.wheel != Wheel::Still {
        let span = zoomed(w.span as int, i.wheel);
        TimeWindow { start: (i.now - span / 10) as i64, span: span as i64 }
    } else {
        w
    }
}

/// The timeline after a frame. The wheel sets the span around the time; a press over the bar
/// jumps to the time at the pointer; while the clock runs and nothing is dragged the window
/// follows the time. Ticks are drawn every fifth of a second and whenever the window changes.
pub open spec fn timeline_after(t: Timeline, i: TimelineInput) -> (Timeline, TimelineOutput) {
    let zoomed_window = after_wheel(t.window, i);
    let target = i.target(zoomed_window);
    let dragging = i.over_bar && i.pressed;
    let start = match target {
        Some(u) => rolled(zoomed_window.start as int, zoomed_window.span as int, u),
        None => if !i.paused && !dragging {
            rolled(zoomed_window.start as int, zoomed_window.span as int, i.now as int)
        } else {
            zoomed_window.start as int
        },
    };
    let window = TimeWindow { start: start as i64, span: zoomed_window.span };
    let since = if t.since_drawn + i.dt > u64::MAX { u64::MAX as int } else { t.since_drawn + i.dt };
    let redraw = since > 200_000 || window != t.window;
    (
        Timeline { window, dragging, since_drawn: if redraw { 0 } else { since as u64 } },
        TimelineOutput {
            jump: match target {
                Some(u) => Some(
                    if u < SCENARIO_EPOCH_UNIX * MICROS {
                        0
                    } else {
                        (u - SCENARIO_EPOCH_UNIX * MICROS) as i64
                    },
                ),
                None => None,
            },
            redraw,
        },
    )
}

impl Timeline {
    /// The timeline before the first frame.
    pub fn new() -> (r: Self)
        ensures
            r.window.wf(),
            r.window.start == (SCENARIO_EPOCH_UNIX - 600) * MICROS,
            r.window.span == 3 * 3600 * MICROS,
            !r.dragging,
            r.since_drawn == 0,
    {
        Timeline { window: TimeWindow::default(), dragging: false, since_drawn: 0 }
    }

    /// One frame of the timeline.
    pub fn frame(&mut self, i: TimelineInput) -> (r: TimelineOutput)
        requires
            old(self).window.wf(),
            i.wf(),
        ensures
            (*final(self), r) == timeline_after(*old(self), i),
            MIN_SPAN <= final(self).window.span <= MAX_SPAN,
            MAX_SPAN - MAX_TIME <= old(self).window.start <= MAX_TIME - MAX_SPAN
                ==> final(self).window.wf(),
    {
        let before: TimeWindow = self.window;
        if i.over_bar {
            let span: i64 = match i.wheel {
                Wheel::Still => self.window.span,
                Wheel::In => self.window.span * 4 / 5,
                Wheel::Out => self.window.span * 5 / 4,
            };
            let changed: bool = match i.wheel {
                Wheel::Still => false,
                _ => true,
            };
            if changed {
                self.window.span = if span < MIN_SPAN {
                    MIN_SPAN
                } else if span > MAX_SPAN {
                    MAX_SPAN
                } else {
                    span
                };
                self.window.start = i.now - self.window.span / 10;
            }
        }
        assert(self.window == after_wheel(before, i));
        let mut jump: Option<i64> = None;
        self.dragging = i.over_bar && i.pressed;
        if self.dragging {
            match i.x {
                Some(x) => {
                    let held: i64 = if x < 0 {
                        0
                    } else if x > i.axis_w {
                        i.axis_w
                    } else {
                        x
                    };
                    let target: i64 = x_to_unix(
                        held,
                        self.window.start,
                        self.window.span,
                        i.axis_w,
                    );
                    jump = Some(
                        if target < SCENARIO_EPOCH_UNIX * MICROS {
                            0
                        } else {
                            target - SCENARIO_EPOCH_UNIX * MICROS
                        },
                    );
                    roll_window(&mut self.window.start, self.window.span, target);
                },
                None => {},
            }
        } else if !i.paused {
            roll_window(&mut self.window.start, self.window.span, i.now);
        }
        self.since_drawn = self.since_drawn.saturating_add(i.dt);
        let redraw: bool = self.since_drawn > 200_000 || self.window.start != before.start
            || self.window.span != before.span;
        if redraw {
            self.since_drawn = 0;
        }
        TimelineOutput { jump, redraw }
    }

    /// The time that passes in the scenario while a real time passes, both in microseconds: a
    /// dragged handle stops the clock.
    pub fn sim_dt(&self, clock: &SimClock, real_dt: u32) -> (r: u64)
        ensures
            r == if self.dragging || clock.paused {
                0
            } else {
                real_dt * clock.factor()
            },
    {
        if self.dragging {
            0
        } else {
            clock.sim_dt(real_dt)
        }
    }

    /// Lets a real time pass, in microseconds: a dragged handle stops the clock.
    pub fn advance_clock(&self, clock: &mut SimClock, real_dt: u32)
        requires
            old(clock).t <= MAX_CLOCK,
        ensures
            *final(clock) == if self.dragging {
                *old(clock)
            } else {
                old(clock).advanced(real_dt)
            },
            old(clock).t <= final(clock).t <= MAX_CLOCK,
    {
        if !self.dragging {
            clock.advance(real_dt);
        }
    }
}

// ---------- what is drawn ----------

/// Whether a height of the pointer is over the bar of a window of some height.
pub open spec fn over_bar(y: int, height: int) -> bool {
    height - BAR_H <= y <= height
}

/// Whether a height of the pointer is over the bar of a window of some height.
pub fn in_bar(y: i64, height: i64) -> (r: bool)
    requires
        height >= 0,
    ensures
        r == over_bar(y as int, height as int),
{
    height - BAR_H <= y && y <= height
}

/// The scenario time as text: the day since its start and the time of day in UTC.
pub open spec fn now_line(now: int) -> Seq<char> {
    let secs = now / (MICROS as int);
    let c = civil_at(secs);
    "D+"@ + int_text((now - SCENARIO_EPOCH_UNIX * MICROS) / (86_400 * MICROS)) + seq![' ']
        + padded(c.hour as int, 2) + seq![':'] + padded(c.min as int, 2) + seq![':'] + padded(
        c.sec as int,
        2,
    ) + seq!['Z']
}

/// The date as text.
pub open spec fn date_line(now: int) -> Seq<char> {
    let c = civil_at(now / (MICROS as int));
    padded(c.year as int, 4) + seq!['-'] + padded(c.month as int, 2) + seq!['-'] + padded(
        c.day as int,
        2,
    )
}

/// The scenario time and the date as text.
pub fn now_texts(now: i64) -> (r: (String, String))
    requires
        -MAX_TIME <= now <= MAX_TIME,
    ensures
        r.0@ == now_line(now as int),
        r.1@ == date_line(now as int),
{
    let secs: i64 = floor_div(now as i128, MICROS as i128) as i64;
    let c: Civil = civil_from_unix(secs);
    proof {
        let other = civil_at(secs as int);
        assert(c.valid() && c.unix() == secs);
        crate::civil::civil_is_unique(c, other);
    }
    let day: i64 = floor_div(
        now as i128 - (SCENARIO_EPOCH_UNIX * MICROS) as i128,
        (86_400 * MICROS) as i128,
    ) as i64;
    let mut a: String = "D+".to_owned();
    push_int(&mut a, day);
    a.push(' ');
    push_padded(&mut a, c.hour as i64, 2);
    a.push(':');
    push_padded(&mut a, c.min as i64, 2);
    a.push(':');
    push_padded(&mut a, c.sec as i64, 2);
    a.push('Z');
    assert(a@ =~= now_line(now as int));
    let mut b: String = String::new();
    push_padded(&mut b, c.year, 4);
    b.push('-');
    push_padded(&mut b, c.month as i64, 2);
    b.push('-');
    push_padded(&mut b, c.day as i64, 2);
    assert(b@ =~= date_line(now as int));
    (a, b)
}

/// Whether a tick at a position is drawn: it is no more than twenty pixels off the axis.
pub open spec fn tick_drawn(x: int, axis_w: int) -> bool {
    -20_000 <= x <= axis_w + 20_000
}

/// Whether a tick at a position is drawn: it is no more than twenty pixels off the axis.
pub fn tick_shown(x: i128, axis_w: i64) -> (r: bool)
    ensures
        r == tick_drawn(x as int, axis_w as int),
{
    -20_000 <= x && x <= axis_w as i128 + 20_000
}

/// The position of the handle: that of the time, held on the axis.
pub fn handle_x(now: i64, w: &TimeWindow, axis_w: i64) -> (r: i64)
    requires
        -MAX_TIME <= now <= MAX_TIME,
        w.wf(),
        0 <= axis_w <= MAX_AXIS,
    ensures
        r == clamped(
            x_of(now as int, w.start as int, w.span as int, axis_w as int),
            axis_w as int,
        ),
{
    let x: i128 = unix_to_x(now, w.start, w.span, axis_w);
    if x < 0 {
        0
    } else if x > axis_w as i128 {
        axis_w
    } else {
        x as i64
    }
}

} // verus!
