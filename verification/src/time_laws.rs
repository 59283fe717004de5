//! Laws of the timeline: its ticks and labels, its window, and what is shown of the time.

use vstd::prelude::*;

use crate::civil::{every_second_has_a_date, lemma_time_of_day, Civil};
use crate::text::{digits, int_text, padded};
use crate::text_laws::{two_digits, two_digits_are_written};
use crate::timeline::{
    civil_at, clamped, date_line, month_name, now_line, step_from, steps, tick_at, ticks, ticks_cover_the_window,
    time_at, timeline_after, wide_enough, x_of, Timeline, TimelineInput, Wheel, MAX_SPAN, MICROS,
};

verus! {

// ---------- labels ----------

/// The date of a time is that of its day, and the time of day is counted from midnight.
pub proof fn the_date_of_a_time(unix: i64)
    ensures
        civil_at(unix as int).valid(),
        civil_at(unix as int).unix() == unix,
        civil_at(unix as int).hour == unix as int % 86_400 / 3600,
        civil_at(unix as int).min == unix as int % 86_400 / 60 % 60,
        civil_at(unix as int).sec == unix as int % 60,
        unix as int % 86_400 == 3600 * civil_at(unix as int).hour + 60 * civil_at(unix as int).min
            + civil_at(unix as int).sec,
{
    every_second_has_a_date(unix);
    let c = civil_at(unix as int);
    lemma_time_of_day(c.days(), c.hour as int, c.min as int, c.sec as int);
}

/// The names of the months one after the other.
pub open spec fn month_names() -> Seq<char> {
    "JANFEBMARAPRMAYJUNJULAUGSEPOCTNOVDEC"@
}

/// Each month has its own name of three letters.
pub proof fn months_have_their_names(m: int)
    requires
        1 <= m <= 12,
    ensures
        month_name(m) == month_names().subrange(3 * m - 3, 3 * m),
{
    reveal_strlit("JANFEBMARAPRMAYJUNJULAUGSEPOCTNOVDEC");
    reveal_strlit("JAN");
    reveal_strlit("FEB");
    reveal_strlit("MAR");
    reveal_strlit("APR");
    reveal_strlit("MAY");
    reveal_strlit("JUN");
    reveal_strlit("JUL");
    reveal_strlit("AUG");
    reveal_strlit("SEP");
    reveal_strlit("OCT");
    reveal_strlit("NOV");
    reveal_strlit("DEC");
    let part = month_names().subrange(3 * m - 3, 3 * m);
    assert(month_name(m).len() == 3 && part.len() == 3);
    assert(month_name(m)[0] == part[0]);
    assert(month_name(m)[1] == part[1]);
    assert(month_name(m)[2] == part[2]);
    assert(month_name(m) =~= part);
}

/// The label of a major tick is the date where no other major tick can come before it on its day, and
/// the hour and the minute, two digits each, otherwise; other ticks have none.
pub proof fn labels_tell_the_time(unix: i64, step: int)
    requires
        step > 0,
    ensures
        ({
            let tick = tick_at(unix as int, step);
            let sod = unix as int % 86_400;
            &&& tick.unix == unix
            &&& tick.major <==> unix as int % step == 0
            &&& !tick.major ==> tick.label is None
            &&& tick.major && sod - sod % 60 >= step ==> tick.label == Some(
                two_digits(sod / 3600) + seq![':'] + two_digits(sod / 60 % 60),
            )
            &&& tick.major && sod - sod % 60 < step ==> exists|c: Civil|
                c.valid() && #[trigger] c.unix() == unix && tick.label == Some(
                    month_names().subrange(3 * c.month - 3, 3 * c.month as int) + seq![' '] + digits(
                        c.day as nat,
                    ),
                )
        }),
{
    let c = civil_at(unix as int);
    let sod = unix as int % 86_400;
    the_date_of_a_time(unix);
    assert(sod % 60 == c.sec) by {
        lemma_time_of_day(0, c.hour as int, c.min as int, c.sec as int);
    }
    assert((c.hour * 60 + c.min) * 60 == sod - sod % 60);
    two_digits_are_written(c.hour as int);
    two_digits_are_written(c.min as int);
    months_have_their_names(c.month as int);
}

/// Every tick of a window is labelled so.
pub proof fn ticks_of_a_window_are_labelled(start: i64, span: i64, axis_w: i64, i: int)
    requires
        0 <= i < ticks(start, span, axis_w).len(),
        i64::MIN <= ticks(start, span, axis_w)[i].unix <= i64::MAX,
        step_from(span, axis_w, 0) > 0,
    ensures
        ({
            let tick = ticks(start, span, axis_w)[i];
            let step = step_from(span, axis_w, 0) as int;
            let sod = tick.unix % 86_400;
            &&& tick.major <==> tick.unix % step == 0
            &&& !tick.major ==> tick.label is None
            &&& tick.major && sod - sod % 60 >= step ==> tick.label == Some(
                two_digits(sod / 3600) + seq![':'] + two_digits(sod / 60 % 60),
            )
            &&& tick.major && sod - sod % 60 < step ==> exists|c: Civil|
                c.valid() && #[trigger] c.unix() == tick.unix && tick.label == Some(
                    month_names().subrange(3 * c.month - 3, 3 * c.month as int) + seq![' '] + digits(
                        c.day as nat,
                    ),
                )
        }),
{
    let tick = ticks(start, span, axis_w)[i];
    labels_tell_the_time(tick.unix as i64, step_from(span, axis_w, 0) as int);
}

/// The ticks of a window are multiples of a fifth of the interval. Every one that lies in the window is
/// among them, and the last one is no more than a fifth of the interval beyond its end.
pub proof fn ticks_stand_at_every_fifth(start: i64, span: i64, axis_w: i64, u: int)
    requires
        0 < span <= MAX_SPAN,
        step_from(span, axis_w, 0) % 60 == 0,
        step_from(span, axis_w, 0) >= 60,
    ensures
        ({
            let all = ticks(start, span, axis_w);
            let fifth = step_from(span, axis_w, 0) as int / 5;
            &&& forall|i: int| 0 <= i < all.len() ==> (#[trigger] all[i]).unix % fifth == 0
            &&& u % fifth == 0 && start <= u * MICROS <= start + span ==> exists|i: int|
                0 <= i < all.len() && (#[trigger] all[i]).unix == u
            &&& all.last().unix * MICROS <= start + span + fifth * MICROS
        }),
{
    let all = ticks(start, span, axis_w);
    let fifth = step_from(span, axis_w, 0) as int / 5;
    ticks_cover_the_window(start, span, axis_w);
    let first = all[0].unix;
    let unit = fifth * MICROS;
    let q = start as int / unit;
    assert(first == q * fifth);
    assert forall|i: int| 0 <= i < all.len() implies (#[trigger] all[i]).unix % fifth == 0 by {
        assert(q * fifth + i * fifth == (q + i) * fifth) by (nonlinear_arith);
        vstd::arithmetic::div_mod::lemma_mod_multiples_basic(q + i, fifth);
    }
    let gap = start + span + unit - first * MICROS;
    vstd::arithmetic::div_mod::lemma_fundamental_div_mod(gap, unit);
    vstd::arithmetic::div_mod::lemma_mod_bound(gap, unit);
    let n = all.len() - 1;
    assert(n == gap / unit);
    assert((first + n * fifth) * MICROS == first * MICROS + unit * n) by (nonlinear_arith)
        requires
            unit == fifth * MICROS,
    ;
    assert(all.last().unix == first + n * fifth);
    if u % fifth == 0 && start <= u * MICROS <= start + span {
        let k = u / fifth;
        vstd::arithmetic::div_mod::lemma_fundamental_div_mod(u, fifth);
        let i = k - q;
        assert(u == first + i * fifth) by (nonlinear_arith)
            requires
                u == fifth * k,
                first == q * fifth,
                i == k - q,
        ;
        let all_end = all.last().unix;
        assert(0 <= i <= n) by (nonlinear_arith)
            requires
                u == first + i * fifth,
                all_end == first + n * fifth,
                first * MICROS <= u * MICROS,
                u * MICROS < all_end * MICROS,
                MICROS == 1_000_000,
                fifth > 0,
        ;
        assert(all[i].unix == u);
    }
}

/// Two times of one day that are labelled with the same hour and minute are in the same minute.
pub proof fn labels_of_a_day_differ(a: i64, b: i64, step: int)
    requires
        step > 0,
        a as int / 86_400 == b as int / 86_400,
        tick_at(a as int, step).major,
        tick_at(b as int, step).major,
        a as int % 86_400 - a as int % 86_400 % 60 >= step,
        b as int % 86_400 - b as int % 86_400 % 60 >= step,
        tick_at(a as int, step).label == tick_at(b as int, step).label,
    ensures
        a as int / 60 == b as int / 60,
{
    labels_tell_the_time(a, step);
    labels_tell_the_time(b, step);
    let x = a as int % 86_400;
    let y = b as int % 86_400;
    let p = two_digits(x / 3600) + seq![':'] + two_digits(x / 60 % 60);
    let q = two_digits(y / 3600) + seq![':'] + two_digits(y / 60 % 60);
    assert(p == q);
    assert(p[0] == q[0] && p[1] == q[1] && p[3] == q[3] && p[4] == q[4]);
    lemma_digit_chars(x / 3600 / 10, y / 3600 / 10);
    lemma_digit_chars(x / 3600 % 10, y / 3600 % 10);
    lemma_digit_chars(x / 60 % 60 / 10, y / 60 % 60 / 10);
    lemma_digit_chars(x / 60 % 60 % 10, y / 60 % 60 % 10);
    assert(x / 3600 == y / 3600);
    assert(x / 60 % 60 == y / 60 % 60);
    assert(x / 60 == 60 * (x / 3600) + x / 60 % 60);
    assert(y / 60 == 60 * (y / 3600) + y / 60 % 60);
}

proof fn lemma_digit_chars(a: int, b: int)
    requires
        0 <= a < 10,
        0 <= b < 10,
        crate::text_laws::digit_char(a) == crate::text_laws::digit_char(b),
    ensures
        a == b,
{
}

// ---------- intervals ----------

/// The intervals of major ticks, in seconds: 1, 5, 15 and 30 minutes, 1, 3, 6 and 12 hours, and 1, 3,
/// 7 and 30 days.
pub open spec fn is_interval(s: int) -> bool {
    s == 60 || s == 5 * 60 || s == 15 * 60 || s == 30 * 60 || s == 3600 || s == 3 * 3600 || s == 6
        * 3600 || s == 12 * 3600 || s == 86_400 || s == 3 * 86_400 || s == 7 * 86_400 || s == 30
        * 86_400
}

/// The interval is the shortest at which major ticks are at least ninety pixels apart; the longest
/// one where there is none. Widths are in thousandths of a pixel and spans in microseconds.
pub proof fn the_interval_is_the_shortest_that_fits(span: i64, axis_w: i64)
    requires
        0 < span,
    ensures
        ({
            let step = step_from(span, axis_w, 0) as int;
            &&& is_interval(step)
            &&& step != 30 * 86_400 ==> step * 1_000_000 * axis_w >= 90_000 * span
            &&& forall|s: int| #[trigger]
                is_interval(s) && s * 1_000_000 * axis_w >= 90_000 * span ==> step <= s
        }),
{
    lemma_step(span, axis_w, 0);
    let step = step_from(span, axis_w, 0) as int;
    assert forall|s: int| #[trigger]
        is_interval(s) && s * 1_000_000 * axis_w >= 90_000 * span implies step <= s by {
        let j: int = if s == 60 {
            0
        } else if s == 300 {
            1
        } else if s == 900 {
            2
        } else if s == 1800 {
            3
        } else if s == 3600 {
            4
        } else if s == 10_800 {
            5
        } else if s == 21_600 {
            6
        } else if s == 43_200 {
            7
        } else if s == 86_400 {
            8
        } else if s == 259_200 {
            9
        } else if s == 604_800 {
            10
        } else {
            11
        };
        assert(steps()[j] == s);
        assert(wide_enough(steps()[j], span, axis_w));
    }
}

proof fn lemma_step(span: i64, axis_w: i64, i: int)
    requires
        0 <= i < 12,
    ensures
        ({
            let step = step_from(span, axis_w, i) as int;
            &&& is_interval(step)
            &&& step >= steps()[i]
            &&& step != 30 * 86_400 ==> wide_enough(step as i64, span, axis_w)
            &&& forall|j: int|
                i <= j < 12 && wide_enough(#[trigger] steps()[j], span, axis_w) ==> step
                    <= steps()[j]
        }),
    decreases 12 - i,
{
    if i < 11 && !wide_enough(steps()[i], span, axis_w) {
        lemma_step(span, axis_w, i + 1);
    }
}

// ---------- the axis ----------

/// The axis is even: a time stands at the share of the width that it has of the span, rounded down,
/// and the other way round.
pub proof fn the_axis_is_even(unix: int, x: int, start: int, span: int, axis_w: int)
    requires
        0 < span,
        0 < axis_w,
    ensures
        span * x_of(unix, start, span, axis_w) <= (unix - start) * axis_w < span * (x_of(
            unix,
            start,
            span,
            axis_w,
        ) + 1),
        axis_w * (time_at(x, start, span, axis_w) - start) <= x * span < axis_w * (time_at(
            x,
            start,
            span,
            axis_w,
        ) - start + 1),
{
    let a = (unix - start) * axis_w;
    vstd::arithmetic::div_mod::lemma_fundamental_div_mod(a, span);
    vstd::arithmetic::div_mod::lemma_mod_bound(a, span);
    let q = a / span;
    assert(span * (q + 1) == span * q + span) by (nonlinear_arith);
    let b = x * span;
    vstd::arithmetic::div_mod::lemma_fundamental_div_mod(b, axis_w);
    vstd::arithmetic::div_mod::lemma_mod_bound(b, axis_w);
    let p = b / axis_w;
    assert(axis_w * (p + 1) == axis_w * p + axis_w) by (nonlinear_arith);
}

// ---------- the window ----------

/// A turn of the wheel over the bar makes the span a fifth shorter or a quarter longer, between two
/// minutes and fourteen days, and never goes the other way; elsewhere it leaves the span alone.
pub proof fn the_wheel_sets_the_span(t: Timeline, i: TimelineInput)
    requires
        t.window.wf(),
        i.wf(),
    ensures
        ({
            let before = t.window.span as int;
            let after = timeline_after(t, i).0.window.span as int;
            &&& !i.over_bar || i.wheel == Wheel::Still ==> after == before
            &&& i.over_bar && i.wheel == Wheel::In ==> after <= before && (after == 120_000_000
                || 5 * after <= 4 * before < 5 * (after + 1))
            &&& i.over_bar && i.wheel == Wheel::Out ==> after >= before && (after
                == 14 * 86_400 * 1_000_000 || 4 * after <= 5 * before < 4 * (after + 1))
            &&& 120_000_000 <= after <= 14 * 86_400 * 1_000_000
        }),
{
}

/// A press over the bar sets the clock to the time under the pointer, which is held on the axis and
/// not before the start of the scenario; nothing else sets it. It is a drag as long as it lasts.
pub proof fn a_press_sets_the_clock(t: Timeline, i: TimelineInput)
    requires
        t.window.wf(),
        i.wf(),
    ensures
        ({
            let (after, out) = timeline_after(t, i);
            let pressed = i.over_bar && i.pressed;
            &&& after.dragging == pressed
            &&& (out.jump is Some) == (pressed && i.x is Some)
        }),
        i.over_bar && i.pressed && i.x is Some && i.wheel == Wheel::Still ==> {
            let jump = timeline_after(t, i).1.jump->Some_0 as int;
            let x = i.x->Some_0 as int;
            let held = if x < 0 { 0 } else if x > i.axis_w { i.axis_w as int } else { x };
            let wanted = t.window.start - 1_789_185_600_000_000;
            // The clock shows the time at the pointer, or the start of the scenario.
            &&& jump >= 0
            &&& jump > 0 ==> i.axis_w * (jump - wanted) <= held * t.window.span < i.axis_w * (jump
                - wanted + 1)
            &&& jump == 0 ==> held * t.window.span < i.axis_w * (1 - wanted)
        },
{
    if i.over_bar && i.pressed && i.x is Some && i.wheel == Wheel::Still {
        let x = i.x->Some_0 as int;
        let w = i.axis_w as int;
        let span = t.window.span as int;
        let start = t.window.start as int;
        let at = clamped(x, w);
        the_axis_is_even(0, at, start, span, w);
        let u = time_at(at, start, span, w);
        assert(0 <= at * span <= w * span) by (nonlinear_arith)
            requires
                0 <= at <= w,
                0 <= span,
        ;
        assert(u - start <= span) by (nonlinear_arith)
            requires
                w * (u - start) <= at * span,
                at * span <= w * span,
                w > 0,
        ;
        assert(u - start >= 0) by (nonlinear_arith)
            requires
                0 <= at * span < w * (u - start + 1),
                w > 0,
        ;
        let wanted = start - 1_789_185_600_000_000;
        let jump = timeline_after(t, i).1.jump->Some_0 as int;
        if u >= 1_789_185_600_000_000 {
            assert(jump - wanted == u - start);
            if jump == 0 {
                assert(u - start + 1 == 1 - wanted);
            }
        } else {
            assert(w * (u - start + 1) <= w * (1 - wanted)) by (nonlinear_arith)
                requires
                    u - start + 1 <= 1 - wanted,
                    w > 0,
            ;
        }
    }
}

/// Without wheel and press a window stands while the clock is paused, and follows the time while it
/// runs: the time is then in the first nine tenths of the window. The ticks are drawn anew exactly
/// where the window has changed or a fifth of a second has passed.
pub proof fn the_window_follows_the_time(t: Timeline, i: TimelineInput)
    requires
        t.window.wf(),
        i.wf(),
        i.wheel == Wheel::Still || !i.over_bar,
        !(i.over_bar && i.pressed),
    ensures
        ({
            let (after, out) = timeline_after(t, i);
            let inside = t.window.start <= i.now && 10 * (i.now - t.window.start) <= 9
                * t.window.span;
            &&& i.paused || inside ==> after.window == t.window
            &&& !i.paused ==> after.window.start <= i.now && 10 * (i.now - after.window.start) <= 9
                * after.window.span
            &&& !i.paused && !inside ==> 10 * (i.now - after.window.start) <= after.window.span < 10
                * (i.now - after.window.start + 1)
            &&& out.redraw == (after.window != t.window || t.since_drawn + i.dt > 200_000)
            &&& after.since_drawn == if out.redraw {
                0
            } else {
                (t.since_drawn + i.dt) as u64
            }
        }),
{
}

// ---------- the time as text ----------

/// The text of the time has the days since the start of the scenario and the time of day; that of the
/// date has the year, the month and the day.
pub proof fn the_time_is_written_out(now: i64)
    ensures
        ({
            let s = now as int / 1_000_000;
            let sod = s % 86_400;
            now_line(now as int) == seq!['D', '+'] + int_text(
                (now - 1_789_185_600_000_000) / 86_400_000_000,
            ) + seq![' '] + two_digits(sod / 3600) + seq![':'] + two_digits(sod / 60 % 60)
                + seq![':'] + two_digits(sod % 60) + seq!['Z']
        }),
        exists|c: Civil|
            c.valid() && #[trigger] c.unix() == now as int / 1_000_000 && date_line(now as int)
                == padded(c.year as int, 4) + seq!['-'] + two_digits(c.month as int) + seq!['-']
                + two_digits(c.day as int),
{
    let s = now as int / 1_000_000;
    let sod = s % 86_400;
    the_date_of_a_time(s as i64);
    let c = civil_at(s);
    assert(sod % 60 == c.sec) by {
        lemma_time_of_day(0, c.hour as int, c.min as int, c.sec as int);
    }
    two_digits_are_written(c.hour as int);
    two_digits_are_written(c.min as int);
    two_digits_are_written(c.sec as int);
    two_digits_are_written(c.month as int);
    two_digits_are_written(c.day as int);
    reveal_strlit("D+");
    assert("D+"@ =~= seq!['D', '+']);
    assert(now_line(now as int) =~= seq!['D', '+'] + int_text(
        (now - 1_789_185_600_000_000) / 86_400_000_000,
    ) + seq![' '] + two_digits(sod / 3600) + seq![':'] + two_digits(sod / 60 % 60) + seq![':']
        + two_digits(sod % 60) + seq!['Z']);
}

} // verus!
