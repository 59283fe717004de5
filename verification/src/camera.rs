//! The camera of the map: panning, zooming at the pointer, and the place under the pointer.
//!
//! Map positions are in nanometres, screen positions in thousandths of a pixel and the scale in
//! micrometres per pixel, so that all of them agree exactly.

use vstd::prelude::*;

use crate::input::{movement, on_screen, ScreenPos};

verus! {

/// A place on the map in nanometres.
#[derive(Debug, Clone, Copy, PartialEq, Eq, Structural)]
pub struct WorldPos {
    pub x: i64,
    pub y: i64,
}

/// The closest scale: 1.2 metres per pixel.
pub const MIN_MPP: i64 = 1_200_000;

/// The widest scale: 1200 metres per pixel.
pub const MAX_MPP: i64 = 1_200_000_000;

/// How far from the origin the camera may be: a million kilometres are far beyond the map.
pub const MAX_WORLD: i64 = 1_000_000_000_000_000_000;

/// The camera of the map: the place at its centre and its scale.
#[derive(Debug, Clone, Copy, PartialEq, Eq, Structural)]
pub struct CameraRig {
    pub target: WorldPos,
    pub mpp: i64,
}

/// Where a place of the screen lies from the centre of a viewport, y upwards.
pub open spec fn from_center(cursor: ScreenPos, viewport: ScreenPos) -> (int, int) {
    (cursor.x - viewport.x / 2, viewport.y / 2 - cursor.y)
}

/// The place on the map under a place of the screen.
pub open spec fn world_at(rig: CameraRig, cursor: ScreenPos, viewport: ScreenPos) -> (int, int) {
    let d = from_center(cursor, viewport);
    (rig.target.x + d.0 * rig.mpp, rig.target.y + d.1 * rig.mpp)
}

/// A scale held within the limits.
pub open spec fn clamped_mpp(m: int) -> int {
    if m < MIN_MPP {
        MIN_MPP as int
    } else if m > MAX_MPP {
        MAX_MPP as int
    } else {
        m
    }
}

impl Default for CameraRig {
    /// The first camera: at the origin, twenty metres per pixel.
    fn default() -> (r: Self)
        ensures
            r.wf(),
            r == (CameraRig { target: WorldPos { x: 0, y: 0 }, mpp: 20_000_000 }),
    {
        CameraRig { target: WorldPos { x: 0, y: 0 }, mpp: 20_000_000 }
    }
}

impl CameraRig {
    /// The scale is no wider than the widest and the camera not too far away. A scale that was set
    /// by hand may be closer than the closest; zooming brings it back within the limits.
    pub open spec fn wf(self) -> bool {
        &&& 0 < self.mpp <= MAX_MPP
        &&& -MAX_WORLD <= self.target.x <= MAX_WORLD
        &&& -MAX_WORLD <= self.target.y <= MAX_WORLD
    }

    /// Whether the scale is no wider than the widest and the camera not too far away.
    pub fn is_ok(&self) -> (r: bool)
        ensures
            r == self.wf(),
    {
        0 < self.mpp && self.mpp <= MAX_MPP && -MAX_WORLD <= self.target.x && self.target.x
            <= MAX_WORLD && -MAX_WORLD <= self.target.y && self.target.y <= MAX_WORLD
    }

    /// The place on the map under a place of the screen.
    pub fn world_from_screen(&self, cursor: ScreenPos, viewport: ScreenPos) -> (r: WorldPos)
        requires
            self.wf(),
            on_screen(cursor),
            on_screen(viewport),
            viewport.x >= 0,
            viewport.y >= 0,
        ensures
            (r.x as int, r.y as int) == world_at(*self, cursor, viewport),
    {
        let dx: i64 = cursor.x - viewport.x / 2;
        let dy: i64 = viewport.y / 2 - cursor.y;
        proof {
            lemma_reach(dx as int, self.mpp as int);
            lemma_reach(dy as int, self.mpp as int);
        }
        WorldPos { x: self.target.x + dx * self.mpp, y: self.target.y + dy * self.mpp }
    }

    /// Moves the view with the pointer: the map follows it.
    pub fn pan_by_screen_delta(&mut self, delta: ScreenPos)
        requires
            old(self).wf(),
            -0x1_0000_0000 <= delta.x <= 0x1_0000_0000,
            -0x1_0000_0000 <= delta.y <= 0x1_0000_0000,
        ensures
            final(self).mpp == old(self).mpp,
            final(self).target.x == old(self).target.x - delta.x * old(self).mpp,
            final(self).target.y == old(self).target.y + delta.y * old(self).mpp,
    {
        proof {
            lemma_reach(delta.x as int, self.mpp as int);
            lemma_reach(delta.y as int, self.mpp as int);
            assert((-delta.x) * self.mpp == -(delta.x * self.mpp)) by (nonlinear_arith);
        }
        self.target = WorldPos {
            x: self.target.x - delta.x * self.mpp,
            y: self.target.y + delta.y * self.mpp,
        };
    }

    /// Zooms by a factor in millionths, so that the place under the pointer stays there.
    pub fn zoom_at(&mut self, cursor: ScreenPos, viewport: ScreenPos, factor: u32)
        requires
            old(self).wf(),
            on_screen(cursor),
            on_screen(viewport),
            viewport.x >= 0,
            viewport.y >= 0,
            200_000 <= factor <= 10_000_000,
        ensures
            MIN_MPP <= final(self).mpp <= MAX_MPP,
            final(self).mpp == clamped_mpp(old(self).mpp * 1_000_000 / factor as int),
            world_at(*final(self), cursor, viewport) == world_at(*old(self), cursor, viewport),
    {
        let dx: i64 = cursor.x - viewport.x / 2;
        let dy: i64 = viewport.y / 2 - cursor.y;
        let anchor: WorldPos = self.world_from_screen(cursor, viewport);
        let scaled: i64 = self.mpp * 1_000_000 / factor as i64;
        self.mpp = if scaled < MIN_MPP {
            MIN_MPP
        } else if scaled > MAX_MPP {
            MAX_MPP
        } else {
            scaled
        };
        proof {
            lemma_reach(dx as int, self.mpp as int);
            lemma_reach(dy as int, self.mpp as int);
            lemma_reach(dx as int, old(self).mpp as int);
            lemma_reach(dy as int, old(self).mpp as int);
        }
        self.target = WorldPos { x: anchor.x - dx * self.mpp, y: anchor.y - dy * self.mpp };
    }

    /// Shows a height of ground, in millimetres, from the bottom to the top of a viewport, as far as
    /// the limits of the scale allow.
    pub fn show_height(&mut self, height: u64, viewport_h: u32)
        requires
            viewport_h > 0,
        ensures
            *final(self) == (CameraRig {
                mpp: clamped_mpp(height * 1_000_000 / viewport_h as int) as i64,
                ..*old(self)
            }),
    {
        let scaled: u128 = height as u128 * 1_000_000 / viewport_h as u128;
        self.mpp = if scaled < MIN_MPP as u128 {
            MIN_MPP
        } else if scaled > MAX_MPP as u128 {
            MAX_MPP
        } else {
            scaled as i64
        };
    }
}

/// Puts a place in the centre.
pub fn focus_on(rig: &mut CameraRig, pos: WorldPos)
    ensures
        *final(rig) == (CameraRig { target: pos, ..*old(rig) }),
{
    rig.target = pos;
}

proof fn lemma_reach(d: int, mpp: int)
    requires
        -0x1_8000_0000 <= d <= 0x1_8000_0000,
        0 < mpp <= MAX_MPP,
    ensures
        -8_000_000_000_000_000_000 < d * mpp < 8_000_000_000_000_000_000,
        -0x1_0000_0000 <= d <= 0x1_0000_0000 ==> -5_200_000_000_000_000_000 < d * mpp
            < 5_200_000_000_000_000_000,
        -0xc000_0000 <= d <= 0xc000_0000 ==> -3_900_000_000_000_000_000 < d * mpp
            < 3_900_000_000_000_000_000,
{
    assert(-8_000_000_000_000_000_000 < d * mpp < 8_000_000_000_000_000_000) by (nonlinear_arith)
        requires
            -0x1_8000_0000 <= d <= 0x1_8000_0000,
            0 < mpp <= 1_200_000_000,
    ;
    if -0x1_0000_0000 <= d <= 0x1_0000_0000 {
        assert(-5_200_000_000_000_000_000 < d * mpp < 5_200_000_000_000_000_000) by (nonlinear_arith)
            requires
                -0x1_0000_0000 <= d <= 0x1_0000_0000,
                0 < mpp <= 1_200_000_000,
        ;
    }
    if -0xc000_0000 <= d <= 0xc000_0000 {
        assert(-3_900_000_000_000_000_000 < d * mpp < 3_900_000_000_000_000_000) by (nonlinear_arith)
            requires
                -0xc000_0000 <= d <= 0xc000_0000,
                0 < mpp <= 1_200_000_000,
        ;
    }
}

/// The place that was under the pointer before a movement of the view is under it afterwards.
pub proof fn panning_follows_the_pointer(
    a: CameraRig,
    b: CameraRig,
    from: ScreenPos,
    to: ScreenPos,
    viewport: ScreenPos,
)
    requires
        on_screen(from),
        on_screen(to),
        b.mpp == a.mpp,
        b.target.x == a.target.x - movement(from, to).x * a.mpp,
        b.target.y == a.target.y + movement(from, to).y * a.mpp,
    ensures
        world_at(b, to, viewport) == world_at(a, from, viewport),
{
    let m = a.mpp as int;
    let dx = to.x - from.x;
    let dy = to.y - from.y;
    assert(movement(from, to).x == dx && movement(from, to).y == dy);
    let f = from_center(from, viewport);
    let t = from_center(to, viewport);
    assert(t.0 == f.0 + dx);
    assert(t.1 == f.1 - dy);
    assert((f.0 + dx) * m == f.0 * m + dx * m) by (nonlinear_arith);
    assert((f.1 - dy) * m == f.1 * m - dy * m) by (nonlinear_arith);
}

/// The factor, in millionths, of a turn of the wheel: fifteen percent in or out for a notch, and no
/// more. A turn is in ten-thousandths of a notch.
pub open spec fn factor_of(delta: int) -> int {
    1_000_000 + 15 * (if delta > 10_000 {
        10_000
    } else if delta < -10_000 {
        -10_000
    } else {
        delta
    })
}

/// The factor, in millionths, of a turn of the wheel.
pub fn wheel_factor(delta: i64) -> (r: u32)
    ensures
        r == factor_of(delta as int),
        850_000 <= r <= 1_150_000,
{
    let turn: i64 = if delta > 10_000 {
        10_000
    } else if delta < -10_000 {
        -10_000
    } else {
        delta
    };
    (1_000_000 + 15 * turn) as u32
}

/// The direction in which the keys move the view.
pub open spec fn direction(up: bool, down: bool, left: bool, right: bool) -> (int, int) {
    (
        (if right { 1int } else { 0 }) - (if left { 1int } else { 0 }),
        (if up { 1int } else { 0 }) - (if down { 1int } else { 0 }),
    )
}

/// The direction in which the keys move the view.
pub fn pan_direction(up: bool, down: bool, left: bool, right: bool) -> (r: (i32, i32))
    ensures
        (r.0 as int, r.1 as int) == direction(up, down, left, right),
{
    let x: i32 = (if right { 1i32 } else { 0 }) - (if left { 1i32 } else { 0 });
    let y: i32 = (if up { 1i32 } else { 0 }) - (if down { 1i32 } else { 0 });
    (x, y)
}

} // verus!
