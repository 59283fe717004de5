//! Laws of pointer and keys: picking, dragging, the clock keys, and ranges.

use vstd::prelude::*;

use crate::geo::{distance2, Point};
use crate::input::{
    clock_after, drag_goes, is_length, is_over, is_pick, is_range_text, is_root, is_rounded_root,
    movement, on_screen, pickable, range_unit, DragOutput, DragState, Keys, ScreenPos, Target, Zone,
};
use crate::sim::{Side, SimClock};
use crate::text::{digits, padded};

verus! {

// ---------- zones and picking ----------

/// The pointer is over the panels exactly where it is on or between the borders of one of them.
pub proof fn zones_include_their_borders(p: ScreenPos, z: Zone, others: Seq<Zone>)
    ensures
        is_over(Some(p), seq![z] + others) <==> (z.x0 <= p.x && p.x <= z.x1 && z.y0 <= p.y && p.y
            <= z.y1) || is_over(Some(p), others),
        !is_over(Some(p), Seq::empty()),
        !is_over(None, others),
{
    let all = seq![z] + others;
    if z.has(p) {
        assert(all[0].has(p));
    }
    if is_over(Some(p), others) {
        let i = choose|i: int| 0 <= i < others.len() && (#[trigger] others[i]).has(p);
        assert(all[i + 1].has(p));
    }
    if is_over(Some(p), all) {
        let i = choose|i: int| 0 <= i < all.len() && (#[trigger] all[i]).has(p);
        if i > 0 {
            assert(others[i - 1].has(p));
        }
    }
}

/// A click reaches eighteen pixels: a unit can be picked where it is shown and no farther away, at a scale
/// in micrometres per pixel.
pub proof fn picking_reaches_eighteen_pixels(t: Target, at: Point, mpp: int)
    ensures
        pickable(t, at, mpp) <==> (t.side != Side::Red || t.detected) && (((t.pos.x - at.x) * 10_000) * ((
        t.pos.x - at.x) * 10_000) + ((t.pos.y - at.y) * 10_000) * ((t.pos.y - at.y) * 10_000) <= (18
            * mpp) * (18 * mpp)),
{
    let (x, y) = (t.pos.x - at.x, t.pos.y - at.y);
    assert((x * 10_000) * (x * 10_000) == (x * x) * 100_000_000) by (nonlinear_arith);
    assert((y * 10_000) * (y * 10_000) == (y * y) * 100_000_000) by (nonlinear_arith);
}

/// At most one unit is picked, and no unit that can be picked is nearer.
pub proof fn the_nearest_unit_is_picked(units: Seq<Target>, at: Point, mpp: int, i: int, j: int)
    requires
        is_pick(units, at, mpp, i),
        0 <= j < units.len(),
    ensures
        is_pick(units, at, mpp, j) ==> j == i,
        pickable(units[j], at, mpp) ==> distance2(units[i].pos, at) <= distance2(units[j].pos, at),
        pickable(units[j], at, mpp) && distance2(units[i].pos, at) == distance2(units[j].pos, at) ==> i
            <= j,
{
    if is_pick(units, at, mpp, j) {
        assert(pickable(units[i], at, mpp));
    }
}

// ---------- dragging ----------

/// Letting go right after a press clicks, and so does letting go after movements of up to six pixels in
/// all, unless the pointer is over the panels; after more than that it does not.
pub proof fn presses_without_movement_click(
    d: DragState,
    at: ScreenPos,
    down: DragState,
    first: DragOutput,
    after: DragState,
    last: DragOutput,
    cursor: Option<ScreenPos>,
    over: bool,
)
    requires
        !d.down,
        drag_goes(d, true, Some(at), over, down, first),
        drag_goes(down, false, cursor, over, after, last),
    ensures
        first.pan is None && !first.click,
        down.down && down.moved == 0 && down.last == at,
        last.click == !over,
        last.pan is None,
        !after.down,
{
}

/// Letting go clicks after movements of up to six pixels in all and not after more, and only where a
/// button was down and the pointer is not over the panels.
pub proof fn clicks_stay_within_six_pixels(
    d: DragState,
    cursor: Option<ScreenPos>,
    over: bool,
    after: DragState,
    out: DragOutput,
)
    requires
        drag_goes(d, false, cursor, over, after, out),
    ensures
        out.click <==> d.down && d.moved <= 6 * 1_000 && !over,
        out.pan is None,
        !after.down,
        after.moved == d.moved && after.last == d.last,
{
}

/// A drag that goes on moves the view by exactly the movement of the pointer once it has gone more than
/// six pixels in all, counting this movement.
pub proof fn drags_move_the_view_with_the_pointer(
    d: DragState,
    to: ScreenPos,
    over: bool,
    after: DragState,
    out: DragOutput,
    len: int,
)
    requires
        d.down,
        on_screen(d.last),
        on_screen(to),
        drag_goes(d, true, Some(to), over, after, out),
        0 <= len,
        len * len <= (to.x - d.last.x) * (to.x - d.last.x) + (to.y - d.last.y) * (to.y - d.last.y),
        (to.x - d.last.x) * (to.x - d.last.x) + (to.y - d.last.y) * (to.y - d.last.y) < (len + 1) * (len
            + 1),
        d.moved + len <= u64::MAX,
    ensures
        after.down && after.last == to && after.moved == d.moved + len,
        !out.click,
        out.pan is Some <==> d.moved + len > 6 * 1_000 && !over,
        out.pan is Some ==> out.pan->Some_0.x == to.x - d.last.x && out.pan->Some_0.y == to.y - d.last.y,
{
    let step = movement(d.last, to);
    assert(step.x == to.x - d.last.x && step.y == to.y - d.last.y);
    let k = choose|k: int| #[trigger]
        is_length(k, step) && after.moved == if d.moved + k > u64::MAX {
            u64::MAX as int
        } else {
            d.moved + k
        };
    let n = step.x * step.x + step.y * step.y;
    assert(is_root(k, n));
    assert(k == len) by (nonlinear_arith)
        requires
            0 <= k,
            0 <= len,
            k * k <= n,
            n < (k + 1) * (k + 1),
            len * len <= n,
            n < (len + 1) * (len + 1),
    ;
}

// ---------- keys ----------

/// The pause key stops and starts the clock and nothing else does; the other keys go one speed up or down
/// and stay where there is no further one. No key changes the time.
pub proof fn keys_move_one_speed(c: SimClock, k: Keys)
    requires
        c.speed_idx <= 4,
    ensures
        clock_after(c, k).paused == if k.pause {
            !c.paused
        } else {
            c.paused
        },
        k.faster && !k.slower ==> clock_after(c, k).speed_idx == if c.speed_idx == 4 {
            4
        } else {
            c.speed_idx + 1
        },
        k.slower && !k.faster ==> clock_after(c, k).speed_idx == if c.speed_idx == 0 {
            0
        } else {
            c.speed_idx - 1
        },
        !k.slower && !k.faster ==> clock_after(c, k).speed_idx == c.speed_idx,
        k.slower && k.faster ==> clock_after(c, k).speed_idx == if c.speed_idx == 4 {
            3
        } else {
            c.speed_idx as int
        },
        clock_after(c, k).t == c.t,
{
}

// ---------- ranges ----------

proof fn lemma_nearest(k: int, j: int, n2: int, unit: int)
    requires
        unit > 0,
        0 <= k,
        is_rounded_root(j, n2, unit),
        k == 0 || ((2 * k - 1) * unit) * ((2 * k - 1) * unit) < 4 * n2,
        4 * n2 < ((2 * k + 1) * unit) * ((2 * k + 1) * unit),
    ensures
        j == k,
{
    let (a, b) = ((2 * k - 1) * unit, (2 * k + 1) * unit);
    let (c, d) = ((2 * j - 1) * unit, (2 * j + 1) * unit);
    if j > k {
        assert(b <= c) by (nonlinear_arith)
            requires
                j >= k + 1,
                unit > 0,
                b == (2 * k + 1) * unit,
                c == (2 * j - 1) * unit,
        ;
        assert(b > 0) by (nonlinear_arith)
            requires
                k >= 0,
                unit > 0,
                b == (2 * k + 1) * unit,
        ;
        assert(b * b <= c * c) by (nonlinear_arith)
            requires
                0 < b <= c,
        ;
    }
    if j < k {
        assert(d <= a) by (nonlinear_arith)
            requires
                j + 1 <= k,
                unit > 0,
                a == (2 * k - 1) * unit,
                d == (2 * j + 1) * unit,
        ;
        assert(d > 0) by (nonlinear_arith)
            requires
                j >= 0,
                unit > 0,
                d == (2 * j + 1) * unit,
        ;
        assert(d * d <= a * a) by (nonlinear_arith)
            requires
                0 < d <= a,
        ;
    }
}

/// Below a kilometre a range is told in metres, from a kilometre on in kilometres with one decimal; both
/// are the nearest. The bearing follows with three digits. Squares of distances are in square centimetres.
pub proof fn ranges_are_rounded_to_the_nearest(text: Seq<char>, d2: int, bearing: int, k: int)
    requires
        is_range_text(text, d2, bearing),
        0 <= k,
    ensures
        d2 < 100_000 * 100_000 && (k == 0 || ((2 * k - 1) * 100) * ((2 * k - 1) * 100) < 4 * d2) && 4 * d2
            < ((2 * k + 1) * 100) * ((2 * k + 1) * 100) ==> text == digits(k as nat) + seq!['m', ' ']
            + padded(bearing, 3),
        d2 >= 100_000 * 100_000 && (k == 0 || ((2 * k - 1) * 10_000) * ((2 * k - 1) * 10_000) < 4 * d2)
            && 4 * d2 < ((2 * k + 1) * 10_000) * ((2 * k + 1) * 10_000) ==> text == digits(
            (k / 10) as nat,
        ) + seq!['.'] + digits((k % 10) as nat) + seq!['k', 'm', ' '] + padded(bearing, 3),
{
    reveal_strlit("km ");
    reveal_strlit("m ");
    assert("km "@ =~= seq!['k', 'm', ' ']);
    assert("m "@ =~= seq!['m', ' ']);
    let unit = range_unit(d2);
    let j = choose|j: int| #[trigger]
        is_rounded_root(j, d2, unit) && text == crate::input::range_text(j, d2, bearing);
    if (k == 0 || ((2 * k - 1) * unit) * ((2 * k - 1) * unit) < 4 * d2) && 4 * d2 < ((2 * k + 1) * unit)
        * ((2 * k + 1) * unit) {
        lemma_nearest(k, j, d2, unit);
    }
}

} // verus!
