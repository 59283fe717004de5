//! What pointer and keys do: hit zones, picking, dragging, orders and shortcuts.
//!
//! Screen positions are in thousandths of a pixel, map positions in centimetres.

use vstd::prelude::*;

use crate::geo::{distance2, distance_squared, Point};
use crate::sim::{on_patrol, under_way, PlatformKind, Side, SimClock, Unit};
use crate::text::{digits, padded, push_digits, push_padded};
use crate::units::{is_shown, shown};

verus! {

// ---------- hit zones ----------

/// A rectangle of the screen, its borders included.
#[derive(Debug, Clone, Copy, PartialEq, Eq, Structural)]
pub struct Zone {
    pub x0: i64,
    pub y0: i64,
    pub x1: i64,
    pub y1: i64,
}

/// A place on the screen.
#[derive(Debug, Clone, Copy, PartialEq, Eq, Structural)]
pub struct ScreenPos {
    pub x: i64,
    pub y: i64,
}

impl Zone {
    /// Whether a place lies in the rectangle.
    pub open spec fn has(self, p: ScreenPos) -> bool {
        self.x0 <= p.x <= self.x1 && self.y0 <= p.y <= self.y1
    }

    /// Whether a place lies in the rectangle.
    pub fn contains(&self, p: ScreenPos) -> (r: bool)
        ensures
            r == self.has(p),
    {
        self.x0 <= p.x && p.x <= self.x1 && self.y0 <= p.y && p.y <= self.y1
    }
}

/// Whether the pointer is over one of the zones.
pub open spec fn is_over(cursor: Option<ScreenPos>, zones: Seq<Zone>) -> bool {
    cursor is Some && exists|i: int| 0 <= i < zones.len() && (#[trigger] zones[i]).has(
        cursor->Some_0,
    )
}

/// Whether the pointer is over one of the zones.
pub fn over_ui(cursor: Option<ScreenPos>, zones: &[Zone]) -> (r: bool)
    ensures
        r == is_over(cursor, zones@),
{
    match cursor {
        None => false,
        Some(p) => {
            let mut i: usize = 0;
            while i < zones.len()
                invariant
                    i <= zones@.len(),
                    cursor == Some(p),
                    forall|j: int| 0 <= j < i ==> !(#[trigger] zones@[j]).has(p),
                decreases zones@.len() - i,
            {
                if zones[i].contains(p) {
                    return true;
                }
                i = i + 1;
            }
            false
        },
    }
}

// ---------- picking ----------

/// What picking needs to know of a unit.
#[derive(Debug, Clone, Copy)]
pub struct Target {
    pub side: Side,
    pub detected: bool,
    pub pos: Point,
}

/// How far from a unit a click may be, in pixels.
pub const PICK_PX: u32 = 18;

/// Whether a unit can be picked at a place at a scale in micrometres per pixel: it is shown and near
/// enough. A centimetre is ten thousand micrometres.
pub open spec fn pickable(t: Target, at: Point, mpp: int) -> bool {
    shown(t.side, t.detected) && distance2(t.pos, at) * 100_000_000 <= (PICK_PX * mpp) * (PICK_PX
        * mpp)
}

/// Whether unit `i` is the one that is picked: the nearest, and the first of the nearest.
pub open spec fn is_pick(units: Seq<Target>, at: Point, mpp: int, i: int) -> bool {
    &&& 0 <= i < units.len()
    &&& pickable(units[i], at, mpp)
    &&& forall|j: int|
        0 <= j < units.len() && pickable(#[trigger] units[j], at, mpp) ==> distance2(
            units[i].pos,
            at,
        ) < distance2(units[j].pos, at) || (distance2(units[i].pos, at) == distance2(
            units[j].pos,
            at,
        ) && i <= j)
}

/// The unit at a place: the nearest one that is shown and near enough, at a scale in micrometres per
/// pixel.
pub fn pick_unit(at: Point, mpp: u32, units: &[Target]) -> (r: Option<usize>)
    ensures
        match r {
            Some(i) => is_pick(units@, at, mpp as int, i as int),
            None => forall|j: int|
                0 <= j < units@.len() ==> !pickable(#[trigger] units@[j], at, mpp as int),
        },
{
    let reach: i128 = PICK_PX as i128 * mpp as i128;
    assert(0 <= reach <= 18 * 0xffff_ffff) by (nonlinear_arith)
        requires
            reach == PICK_PX * mpp,
            PICK_PX == 18,
            0 <= mpp <= 0xffff_ffff,
    ;
    assert(0 <= reach * reach <= 0x200_0000_0000_0000_0000) by (nonlinear_arith)
        requires
            0 <= reach <= 18 * 0xffff_ffff,
    ;
    let limit: i128 = reach * reach;
    let mut best: Option<(i128, usize)> = None;
    let mut i: usize = 0;
    while i < units.len()
        invariant
            i <= units@.len(),
            limit == (PICK_PX * mpp) * (PICK_PX * mpp),
            match best {
                Some((d, k)) => {
                    &&& k < i
                    &&& d == distance2(units@[k as int].pos, at)
                    &&& pickable(units@[k as int], at, mpp as int)
                    &&& forall|j: int|
                        0 <= j < i && pickable(#[trigger] units@[j], at, mpp as int) ==> d
                            < distance2(units@[j].pos, at) || (d == distance2(units@[j].pos, at)
                            && k <= j)
                },
                None => forall|j: int|
                    0 <= j < i ==> !pickable(#[trigger] units@[j], at, mpp as int),
            },
        decreases units@.len() - i,
    {
        let t: Target = units[i];
        if is_shown(t.side, t.detected) {
            let d: i128 = distance_squared(t.pos, at);
            let nearer: bool = match best {
                Some((b, _)) => d < b,
                None => true,
            };
            if d * 100_000_000 <= limit && nearer {
                best = Some((d, i));
            }
        }
        i = i + 1;
    }
    match best {
        Some((_, k)) => Some(k),
        None => None,
    }
}

/// Hidden units are never picked.
pub proof fn hidden_units_cannot_be_picked(units: Seq<Target>, at: Point, mpp: int, i: int)
    requires
        is_pick(units, at, mpp, i),
    ensures
        units[i].side == Side::Red ==> units[i].detected,
{
}

// ---------- dragging ----------

/// The greatest integer whose square is not above a number.
pub open spec fn is_root(r: int, n: int) -> bool {
    0 <= r && r * r <= n < (r + 1) * (r + 1)
}

/// The integer square root.
pub fn isqrt(n: u128) -> (r: u128)
    requires
        n <= 0x10_0000_0000_0000_0000_0000,
    ensures
        is_root(r as int, n as int),
        r <= 0x400_0000_0000,
{
    let mut lo: u128 = 0;
    let mut hi: u128 = 0x400_0000_0001;
    assert(0x400_0000_0001 * 0x400_0000_0001 > 0x10_0000_0000_0000_0000_0000) by (nonlinear_arith);
    while lo + 1 < hi
        invariant
            n <= 0x10_0000_0000_0000_0000_0000,
            lo < hi <= 0x400_0000_0001,
            lo * lo <= n,
            n < hi * hi,
        decreases hi - lo,
    {
        let mid: u128 = lo + (hi - lo) / 2;
        assert(mid * mid <= 0x400_0000_0001 * 0x400_0000_0001) by (nonlinear_arith)
            requires
                mid <= 0x400_0000_0001,
        ;
        if mid * mid <= n {
            lo = mid;
        } else {
            hi = mid;
        }
    }
    lo
}

/// The distance that the pointer may move, in thousandths of a pixel, and still click.
pub const CLICK_SLOP: u64 = 6_000;

/// A drag with the left button: a press that does not move is a click.
#[derive(Debug, Clone, Copy, PartialEq, Eq, Structural)]
pub struct DragState {
    pub down: bool,
    pub last: ScreenPos,
    pub moved: u64,
}

/// What a frame of a drag asks for: a movement of the view, or a selection at the pointer.
#[derive(Debug, Clone, Copy, PartialEq, Eq, Structural)]
pub struct DragOutput {
    pub pan: Option<ScreenPos>,
    pub click: bool,
}

/// Whether a place is on any screen.
pub open spec fn on_screen(p: ScreenPos) -> bool {
    -0x8000_0000 <= p.x <= 0x8000_0000 && -0x8000_0000 <= p.y <= 0x8000_0000
}

/// The movement from one place to another.
pub open spec fn movement(from: ScreenPos, to: ScreenPos) -> ScreenPos {
    ScreenPos { x: (to.x - from.x) as i64, y: (to.y - from.y) as i64 }
}

/// Whether a number is the length of a movement, rounded down.
pub open spec fn is_length(len: int, d: ScreenPos) -> bool {
    is_root(len, d.x * d.x + d.y * d.y)
}

/// Whether a drag goes from one state to another in a frame. While the button is down, a drag that
/// has moved far enough moves the view, unless the pointer is over the panels; a button that is
/// let go clicks where the drag has not moved far and the pointer is not over the panels.
pub open spec fn drag_goes(
    d: DragState,
    pressed: bool,
    cursor: Option<ScreenPos>,
    over: bool,
    after: DragState,
    out: DragOutput,
) -> bool {
    if pressed {
        match cursor {
            None => after == d && out == (DragOutput { pan: None, click: false }),
            Some(c) => if !d.down {
                &&& after == (DragState { down: true, last: c, moved: 0 })
                &&& out == (DragOutput { pan: None, click: false })
            } else {
                let step = movement(d.last, c);
                &&& after.down
                &&& after.last == c
                &&& exists|len: int| #[trigger]
                    is_length(len, step) && after.moved == if d.moved + len > u64::MAX {
                        u64::MAX as int
                    } else {
                        d.moved + len
                    }
                &&& out.pan == if after.moved > CLICK_SLOP && !over {
                    Some(step)
                } else {
                    None
                }
                &&& !out.click
            },
        }
    } else {
        &&& after == (DragState { down: false, ..d })
        &&& out.pan is None
        &&& out.click == (d.down && d.moved <= CLICK_SLOP && !over)
    }
}

impl Default for DragState {
    /// No drag.
    fn default() -> (r: Self)
        ensures
            r == (DragState { down: false, last: ScreenPos { x: 0, y: 0 }, moved: 0 }),
    {
        DragState { down: false, last: ScreenPos { x: 0, y: 0 }, moved: 0 }
    }
}

impl DragState {
    /// One frame of a drag.
    pub fn frame(&mut self, pressed: bool, cursor: Option<ScreenPos>, over: bool) -> (r: DragOutput)
        requires
            on_screen(old(self).last),
            cursor is Some ==> on_screen(cursor->Some_0),
        ensures
            drag_goes(*old(self), pressed, cursor, over, *final(self), r),
            on_screen(final(self).last),
    {
        if !pressed {
            let click: bool = self.down && self.moved <= CLICK_SLOP && !over;
            self.down = false;
            return DragOutput { pan: None, click };
        }
        match cursor {
            None => DragOutput { pan: None, click: false },
            Some(c) => {
                if !self.down {
                    self.down = true;
                    self.last = c;
                    self.moved = 0;
                    return DragOutput { pan: None, click: false };
                }
                let step = ScreenPos { x: c.x - self.last.x, y: c.y - self.last.y };
                proof {
                    lemma_square_small(step.x as int);
                    lemma_square_small(step.y as int);
                }
                let n: i128 = step.x as i128 * step.x as i128 + step.y as i128 * step.y as i128;
                let len: u128 = isqrt(n as u128);
                assert(step == movement(self.last, c));
                assert(is_length(len as int, step));
                self.moved = self.moved.saturating_add(len as u64);
                self.last = c;
                let pan: Option<ScreenPos> = if self.moved > CLICK_SLOP && !over {
                    Some(step)
                } else {
                    None
                };
                DragOutput { pan, click: false }
            },
        }
    }
}

proof fn lemma_square_small(a: int)
    requires
        -0x1_0000_0000 <= a <= 0x1_0000_0000,
    ensures
        0 <= a * a <= 0x1_0000_0000_0000_0000,
{
    assert(0 <= a * a <= 0x1_0000_0000_0000_0000) by (nonlinear_arith)
        requires
            -0x1_0000_0000 <= a <= 0x1_0000_0000,
    ;
}

/// A drag moves the view only once it has gone far, and one that has gone far stays so while the
/// button is down and does not click when it is let go.
pub proof fn panning_does_not_click(
    d: DragState,
    pressed: bool,
    cursor: Option<ScreenPos>,
    over: bool,
    after: DragState,
    out: DragOutput,
)
    requires
        drag_goes(d, pressed, cursor, over, after, out),
    ensures
        out.pan is Some ==> after.down && after.moved > CLICK_SLOP,
        d.down && d.moved > CLICK_SLOP ==> !out.click,
        d.down && d.moved > CLICK_SLOP && pressed ==> after.down && after.moved > CLICK_SLOP,
{
}

/// Over the panels a drag neither moves the view nor clicks.
pub proof fn panels_keep_the_pointer(
    d: DragState,
    pressed: bool,
    cursor: Option<ScreenPos>,
    after: DragState,
    out: DragOutput,
)
    requires
        drag_goes(d, pressed, cursor, true, after, out),
    ensures
        out.pan is None,
        !out.click,
{
}

/// A drag with the middle button: it moves the view from its first movement on.
#[derive(Debug, Clone, Copy, PartialEq, Eq, Structural)]
pub struct MidDrag {
    pub down: bool,
    pub last: ScreenPos,
}

impl Default for MidDrag {
    /// No drag.
    fn default() -> (r: Self)
        ensures
            r == (MidDrag { down: false, last: ScreenPos { x: 0, y: 0 } }),
    {
        MidDrag { down: false, last: ScreenPos { x: 0, y: 0 } }
    }
}

impl MidDrag {
    /// The drag after a frame, and the movement of the view.
    pub open spec fn after(self, pressed: bool, cursor: Option<ScreenPos>) -> (
        MidDrag,
        Option<ScreenPos>,
    ) {
        if !pressed {
            (MidDrag { down: false, ..self }, None)
        } else {
            match cursor {
                None => (self, None),
                Some(c) => (
                    MidDrag { down: true, last: c },
                    if self.down {
                        Some(movement(self.last, c))
                    } else {
                        None
                    },
                ),
            }
        }
    }

    /// One frame of a drag: the movement of the view.
    pub fn frame(&mut self, pressed: bool, cursor: Option<ScreenPos>) -> (r: Option<ScreenPos>)
        requires
            on_screen(old(self).last),
            cursor is Some ==> on_screen(cursor->Some_0),
        ensures
            on_screen(final(self).last),
            (*final(self), r) == old(self).after(pressed, cursor),
    {
        if !pressed {
            self.down = false;
            return None;
        }
        match cursor {
            None => None,
            Some(c) => {
                let step = ScreenPos { x: c.x - self.last.x, y: c.y - self.last.y };
                let was_down: bool = self.down;
                self.down = true;
                self.last = c;
                if was_down {
                    Some(step)
                } else {
                    None
                }
            },
        }
    }
}

// ---------- orders and shortcuts ----------

/// Whether a unit takes orders: it is of the blue side and can move.
pub open spec fn may_order(unit: Unit) -> bool {
    unit.side == Side::Blue && unit.kind != PlatformKind::Facility
}

/// Orders a unit to a destination, where it is of the blue side and can move; says whether it did.
pub fn order_unit(unit: &mut Unit, dest: Point) -> (r: bool)
    ensures
        r == may_order(*old(unit)),
        !r ==> *final(unit) == *old(unit),
        r ==> under_way(*old(unit), *final(unit), dest),
{
    let blue: bool = match unit.side {
        Side::Blue => true,
        _ => false,
    };
    if blue && unit.kind.mobile() {
        unit.order_move(dest);
        true
    } else {
        false
    }
}

/// Lets a unit of the blue side return to its patrol.
pub fn recall_unit(unit: &mut Unit)
    ensures
        old(unit).side != Side::Blue || old(unit).patrol@.len() == 0 ==> *final(unit) == *old(unit),
        old(unit).side == Side::Blue && old(unit).patrol@.len() > 0 ==> on_patrol(
            *old(unit),
            *final(unit),
        ),
{
    let blue: bool = match unit.side {
        Side::Blue => true,
        _ => false,
    };
    if blue {
        unit.resume_patrol();
    }
}

/// The keys that were pressed in a frame.
#[derive(Debug, Clone, Copy, PartialEq, Eq, Structural)]
pub struct Keys {
    pub pause: bool,
    pub faster: bool,
    pub slower: bool,
    pub escape: bool,
    pub globe: bool,
    pub focus: bool,
    pub recall: bool,
}

/// What the keys ask for, apart from the clock.
#[derive(Debug, Clone, Copy, PartialEq, Eq, Structural)]
pub struct KeyActions {
    pub deselect: bool,
    pub to_globe: bool,
    pub focus: bool,
    pub recall: bool,
}

/// The clock after the keys.
pub open spec fn clock_after(c: SimClock, k: Keys) -> SimClock {
    let a = SimClock { paused: if k.pause { !c.paused } else { c.paused }, ..c };
    let b = SimClock {
        speed_idx: if !k.faster {
            a.speed_idx
        } else if a.speed_idx < 4 {
            (a.speed_idx + 1) as usize
        } else {
            4
        },
        ..a
    };
    SimClock {
        speed_idx: if k.slower && b.speed_idx > 0 {
            (b.speed_idx - 1) as usize
        } else {
            b.speed_idx
        },
        ..b
    }
}

/// What the keys ask for, apart from the clock. The globe is entered only from the map in a window, and
/// a unit is focused or recalled only where one is still selected.
pub open spec fn actions(keys: Keys, windowed: bool, on_map: bool, selected: bool) -> KeyActions {
    KeyActions {
        deselect: keys.escape,
        to_globe: keys.globe && windowed && on_map,
        focus: keys.focus && selected && !keys.escape,
        recall: keys.recall && selected && !keys.escape,
    }
}

/// Applies the keys to the clock and says what else they ask for.
pub fn apply_keys(
    clock: &mut SimClock,
    keys: Keys,
    windowed: bool,
    on_map: bool,
    selected: bool,
) -> (r: KeyActions)
    ensures
        *final(clock) == clock_after(*old(clock), keys),
        r == actions(keys, windowed, on_map, selected),
{
    if keys.pause {
        clock.toggle_pause();
    }
    if keys.faster {
        clock.faster();
    }
    if keys.slower {
        clock.slower();
    }
    let still: bool = selected && !keys.escape;
    KeyActions {
        deselect: keys.escape,
        to_globe: keys.globe && windowed && on_map,
        focus: keys.focus && still,
        recall: keys.recall && still,
    }
}

/// Stopping and starting the clock again changes nothing, and its speed stays one of the speeds.
pub proof fn clock_keys_keep_the_clock_sane(c: SimClock, k: Keys)
    ensures
        ({
            let p = Keys {
                pause: true,
                faster: false,
                slower: false,
                escape: false,
                globe: false,
                focus: false,
                recall: false,
            };
            clock_after(clock_after(c, p), p) == c
        }),
        c.speed_idx <= 4 ==> clock_after(c, k).speed_idx <= 4,
        clock_after(c, k).t == c.t,
{
}

// ---------- range and bearing ----------

/// Whether a number is the square root of `n2` divided by `unit`, rounded to the nearest integer;
/// a tie goes to the even one.
pub open spec fn is_rounded_root(k: int, n2: int, unit: int) -> bool {
    &&& 0 <= k
    &&& k == 0 || (2 * k - 1) * unit * ((2 * k - 1) * unit) <= 4 * n2
    &&& 4 * n2 <= (2 * k + 1) * unit * ((2 * k + 1) * unit)
    &&& 4 * n2 == (2 * k + 1) * unit * ((2 * k + 1) * unit) ==> k % 2 == 0
    &&& k > 0 && 4 * n2 == (2 * k - 1) * unit * ((2 * k - 1) * unit) ==> k % 2 == 0
}

/// The square root of `n2` divided by `unit`, rounded to the nearest integer.
fn rounded_root(n2: u128, unit: u128) -> (r: u64)
    requires
        n2 <= 0x2_0000_0000_0000_0000,
        unit == 100 || unit == 10_000,
    ensures
        is_rounded_root(r as int, n2 as int, unit as int),
{
    let twice: u128 = isqrt(4 * n2);
    let k: u128 = (twice + unit) / (2 * unit);
    proof {
        let q = (twice + unit) as int / (2 * unit as int);
        vstd::arithmetic::div_mod::lemma_fundamental_div_mod((twice + unit) as int, 2 * unit as int);
        vstd::arithmetic::div_mod::lemma_mod_bound((twice + unit) as int, 2 * unit as int);
        let m = 2 * unit as int;
        assert(m * q == (2 * q) * unit) by (nonlinear_arith)
            requires
                m == 2 * unit,
        ;
        assert((2 * q - 1) * unit == (2 * q) * unit - unit) by (nonlinear_arith);
        assert((2 * q + 1) * unit == (2 * q) * unit + unit) by (nonlinear_arith);
        let lower = (2 * q - 1) * unit;
        let upper = (2 * q + 1) * unit;
        assert(lower <= twice < upper);
        assert(q > 0 ==> lower * lower <= twice * twice) by (nonlinear_arith)
            requires
                lower <= twice,
                q > 0 ==> 0 <= lower,
                0 <= twice,
        ;
        assert((twice + 1) * (twice + 1) <= upper * upper) by (nonlinear_arith)
            requires
                twice + 1 <= upper,
                0 <= twice,
        ;
        assert(k == q);
        assert(k <= 0x1_0000_0000_0000) by (nonlinear_arith)
            requires
                m * k <= twice + unit,
                twice <= 0x400_0000_0000,
                unit <= 10_000,
                m >= 200,
        ;
    }
    if twice % unit == 0 && twice * twice == 4 * n2 && (twice / unit) % 2 == 1 && k % 2 == 1 {
        proof {
            let t = twice as int;
            let u = unit as int;
            vstd::arithmetic::div_mod::lemma_fundamental_div_mod(t, u);
            let h = t / u;
            assert(t == u * h);
            assert(h == 2 * k - 1) by (nonlinear_arith)
                requires
                    t == u * h,
                    (2 * k - 1) * u <= t < (2 * k + 1) * u,
                    u > 0,
                    h % 2 == 1,
            ;
            let j = k - 1;
            assert((2 * j + 1) * unit == (2 * k - 1) * unit);
            assert(u * h == (2 * k - 1) * unit) by (nonlinear_arith)
                requires
                    h == 2 * k - 1,
                    u == unit,
            ;
            assert(j > 0 ==> (2 * j - 1) * unit * ((2 * j - 1) * unit) < 4 * n2) by (nonlinear_arith)
                requires
                    4 * n2 == (2 * j + 1) * unit * ((2 * j + 1) * unit),
                    unit > 0,
            ;
        }
        (k - 1) as u64
    } else {
        proof {
            let t = twice as int;
            let u = unit as int;
            let lower = (2 * k - 1) * unit;
            if k > 0 && 4 * n2 == lower * lower && k % 2 == 1 {
                assert(t == lower) by (nonlinear_arith)
                    requires
                        t * t <= lower * lower,
                        lower * lower < (t + 1) * (t + 1),
                        lower <= t,
                        0 <= lower,
                ;
                vstd::arithmetic::div_mod::lemma_fundamental_div_mod_converse(
                    t,
                    u,
                    2 * k - 1,
                    0,
                );
                assert(false);
            }
        }
        k as u64
    }
}

/// Whether text is a range and bearing: tenths of kilometres from a kilometre on, metres below,
/// and the bearing in whole degrees with three digits.
pub open spec fn is_range_text(text: Seq<char>, d2: int, bearing: int) -> bool {
    exists|k: int| #[trigger]
        is_rounded_root(k, d2, range_unit(d2)) && text == range_text(k, d2, bearing)
}

/// The unit of a range: a tenth of a kilometre from a kilometre on, a metre below.
pub open spec fn range_unit(d2: int) -> int {
    if d2 >= 10_000_000_000 {
        10_000
    } else {
        100
    }
}

/// A range of `k` units and a bearing as text.
pub open spec fn range_text(k: int, d2: int, bearing: int) -> Seq<char> {
    if d2 >= 10_000_000_000 {
        digits((k / 10) as nat) + seq!['.'] + digits((k % 10) as nat) + "km "@ + padded(bearing, 3)
    } else {
        digits(k as nat) + "m "@ + padded(bearing, 3)
    }
}

/// Range and bearing as text ("18.3km 224"). The bearing is in whole degrees.
pub fn range_bearing_text(from: Point, to: Point, bearing: u32) -> (r: String)
    ensures
        is_range_text(r@, distance2(from, to), bearing as int),
{
    let d2: i128 = distance_squared(from, to);
    proof {
        let dx = from.x - to.x;
        let dy = from.y - to.y;
        lemma_square_small(dx);
        lemma_square_small(dy);
    }
    let mut out: String = String::new();
    if d2 >= 10_000_000_000 {
        let k: u64 = rounded_root(d2 as u128, 10_000);
        push_digits(&mut out, k / 10);
        out.push('.');
        push_digits(&mut out, k % 10);
        out.append("km ");
        push_padded(&mut out, bearing as i64, 3);
        proof {
            assert(is_rounded_root(k as int, d2 as int, range_unit(d2 as int)));
            assert(out@ =~= range_text(k as int, d2 as int, bearing as int));
        }
    } else {
        let k: u64 = rounded_root(d2 as u128, 100);
        push_digits(&mut out, k);
        out.append("m ");
        push_padded(&mut out, bearing as i64, 3);
        proof {
            assert(is_rounded_root(k as int, d2 as int, range_unit(d2 as int)));
            assert(out@ =~= range_text(k as int, d2 as int, bearing as int));
        }
    }
    out
}

} // verus!
