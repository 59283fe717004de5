//! The camera of the globe and the passage between globe and map.
//!
//! Angles are in millionths of a degree, distances in millimetres, and the scale in micrometres
//! per pixel.

use vstd::prelude::*;

use crate::camera::MAX_MPP;
use crate::timeline::floor_div;

verus! {

/// The radius of the globe.
pub const GLOBE_RADIUS: i64 = 6_371_000_000;

/// The scale at which the map is entered: 1120 metres per pixel. It is below the widest scale of
/// the map, so that the views do not flicker.
pub const LAND_MPP: i64 = 1_120_000_000;

/// The scale at which the map is left: one metre per pixel below its widest scale.
pub const TAKEOFF_MPP: i64 = 1_199_000_000;

/// Twice the tangent of half the field of view of 45 degrees, in thousand millionths.
pub const VIEW_FACTOR: i128 = 828_427_125;

/// The greatest latitude of the camera.
pub const MAX_LAT: i64 = 85_000_000;

/// The least distance of the camera from the centre of the globe: two percent above the ground.
pub const MIN_DISTANCE: i64 = 6_498_420_000;

/// The greatest distance of the camera from the centre of the globe.
pub const MAX_DISTANCE: i64 = 25_484_000_000;

/// The camera of the globe: the place below it and its distance from the centre.
#[derive(Debug, Clone, Copy, PartialEq, Eq, Structural)]
pub struct GlobeRig {
    pub lat: i64,
    pub lon: i64,
    pub distance: i64,
}

/// A number held between two others.
pub open spec fn held(v: int, lo: int, hi: int) -> int {
    if v < lo {
        lo
    } else if v > hi {
        hi
    } else {
        v
    }
}

/// How far the globe turns when the pointer moves by a pixel: the closer, the less, but never
/// less than at two percent above the ground.
pub open spec fn turn_rate(distance: int) -> int {
    let r = 550_000 * (distance - GLOBE_RADIUS) / (GLOBE_RADIUS as int);
    if r < 11_000 {
        11_000
    } else {
        r
    }
}

/// The scale at which the ground appears from a distance, in a viewport of some height in
/// thousandths of a pixel.
pub open spec fn apparent(distance: int, viewport_h: int) -> int {
    let h = if viewport_h < 1000 { 1000 } else { viewport_h };
    let m = (distance - GLOBE_RADIUS) * VIEW_FACTOR / (h * 1000);
    if m < 300_000 {
        300_000
    } else {
        m
    }
}

/// The distance from which the ground appears at a scale.
pub open spec fn distance_of(mpp: int, viewport_h: int) -> int {
    let h = if viewport_h < 1000 { 1000 } else { viewport_h };
    let up = mpp * h * 1000 / (VIEW_FACTOR as int);
    GLOBE_RADIUS + if up < 127_420_000 { 127_420_000 } else { up }
}

/// The scale at which the ground appears from a distance.
pub fn apparent_mpp(distance: i64, viewport_h: i64) -> (r: i64)
    requires
        GLOBE_RADIUS <= distance <= 1_000_000_000_000,
        0 <= viewport_h <= 0x8000_0000,
    ensures
        r == apparent(distance as int, viewport_h as int),
{
    let h: i128 = if viewport_h < 1000 { 1000 } else { viewport_h as i128 };
    let up: i128 = (distance - GLOBE_RADIUS) as i128;
    proof {
        let n = up * VIEW_FACTOR;
        let d = h * 1000;
        assert(0 <= n <= 1_000_000_000_000 * 828_427_125) by (nonlinear_arith)
            requires
                n == up * 828_427_125,
                0 <= up <= 1_000_000_000_000,
        ;
        lemma_quotient(n, d);
    }
    let m: i128 = up * VIEW_FACTOR / (h * 1000);
    if m < 300_000 {
        300_000
    } else {
        m as i64
    }
}

proof fn lemma_quotient(n: int, d: int)
    requires
        0 <= n,
        d >= 1,
    ensures
        0 <= n / d <= n,
        d >= 1_000_000 ==> n / d <= n / 1_000_000,
{
    vstd::arithmetic::div_mod::lemma_div_pos_is_pos(n, d);
    vstd::arithmetic::div_mod::lemma_div_nonincreasing(n, d);
    if d >= 1_000_000 {
        vstd::arithmetic::div_mod::lemma_div_is_ordered_by_denominator(n, 1_000_000, d);
    }
}

/// The distance from which the ground appears at a scale: at least two percent above the ground.
pub fn distance_for_mpp(mpp: i64, viewport_h: i64) -> (r: i64)
    requires
        0 <= mpp <= 2_000_000_000,
        0 <= viewport_h <= 0x8000_0000,
    ensures
        r == distance_of(mpp as int, viewport_h as int),
{
    let h: i128 = if viewport_h < 1000 { 1000 } else { viewport_h as i128 };
    proof {
        assert(0 <= mpp * h * 1000 <= 2_000_000_000 * 0x8000_0000 * 1000) by (nonlinear_arith)
            requires
                0 <= mpp <= 2_000_000_000,
                0 <= h <= 0x8000_0000,
        ;
    }
    let up: i128 = mpp as i128 * h * 1000 / VIEW_FACTOR;
    if up < 127_420_000 {
        GLOBE_RADIUS + 127_420_000
    } else {
        GLOBE_RADIUS + up as i64
    }
}

/// Going from a scale to a distance and back loses no more than rounding does, where the distance
/// is not held at its least.
pub proof fn scale_round_trip(mpp: int, viewport_h: int)
    requires
        1000 <= viewport_h,
        mpp * viewport_h * 1000 / (VIEW_FACTOR as int) >= 127_420_000,
        apparent(distance_of(mpp, viewport_h), viewport_h) > 300_000,
    ensures
        ({
            let back = apparent(distance_of(mpp, viewport_h), viewport_h);
            &&& back <= mpp
            &&& (mpp - back) * (viewport_h * 1000) < VIEW_FACTOR + viewport_h * 1000
        }),
{
    let v = VIEW_FACTOR as int;
    let d = viewport_h * 1000;
    let n = mpp * viewport_h * 1000;
    assert(n == mpp * d) by (nonlinear_arith)
        requires
            n == mpp * viewport_h * 1000,
            d == viewport_h * 1000,
    ;
    let up = n / v;
    vstd::arithmetic::div_mod::lemma_fundamental_div_mod(n, v);
    vstd::arithmetic::div_mod::lemma_mod_bound(n, v);
    let back = up * v / d;
    vstd::arithmetic::div_mod::lemma_fundamental_div_mod(up * v, d);
    vstd::arithmetic::div_mod::lemma_mod_bound(up * v, d);
    let a = n % v;
    let b = (up * v) % d;
    assert(v * up == up * v) by (nonlinear_arith);
    assert((mpp - back) * d == a + b) by (nonlinear_arith)
        requires
            mpp * d == up * v + a,
            up * v == d * back + b,
    ;
    assert(back <= mpp) by (nonlinear_arith)
        requires
            (mpp - back) * d == a + b,
            0 <= a,
            0 <= b,
            d > 0,
    ;
}

impl Default for GlobeRig {
    /// The first camera: above Pearl Harbor, from where the whole globe is seen.
    fn default() -> (r: Self)
        ensures
            r.wf(),
            r.lat == 21_355_000,
            r.lon == -157_925_000,
            r.distance == 18_475_900_000,
    {
        GlobeRig { lat: 21_355_000, lon: -157_925_000, distance: 18_475_900_000 }
    }
}

impl GlobeRig {
    /// The camera is within its limits.
    pub open spec fn wf(self) -> bool {
        &&& -89_000_000 <= self.lat <= 89_000_000
        &&& -1_000_000_000_000_000 <= self.lon <= 1_000_000_000_000_000
        &&& GLOBE_RADIUS <= self.distance <= 1_000_000_000_000
    }

    /// Whether the camera is within its limits.
    pub fn is_ok(&self) -> (r: bool)
        ensures
            r == self.wf(),
    {
        -89_000_000 <= self.lat && self.lat <= 89_000_000 && -1_000_000_000_000_000 <= self.lon
            && self.lon <= 1_000_000_000_000_000 && GLOBE_RADIUS <= self.distance && self.distance
            <= 1_000_000_000_000
    }

    /// Turns the globe with the pointer, which has moved by thousandths of a pixel.
    pub fn rotate(&mut self, dx: i64, dy: i64)
        requires
            old(self).wf(),
            -0x1_0000_0000 <= dx <= 0x1_0000_0000,
            -0x1_0000_0000 <= dy <= 0x1_0000_0000,
        ensures
            *final(self) == (GlobeRig {
                lat: held(
                    old(self).lat + dy * turn_rate(old(self).distance as int) / 1000,
                    -MAX_LAT as int,
                    MAX_LAT as int,
                ) as i64,
                lon: (old(self).lon - dx * turn_rate(old(self).distance as int) / 1000) as i64,
                ..*old(self)
            }),
    {
        let above: i128 = (self.distance - GLOBE_RADIUS) as i128;
        let quotient: i128 = 550_000 * above / GLOBE_RADIUS as i128;
        let rate: i128 = if quotient < 11_000 { 11_000 } else { quotient };
        proof {
            assert(rate == turn_rate(self.distance as int));
            assert(rate <= 90_000_000);
            lemma_turn(dx as int, rate as int);
            lemma_turn(dy as int, rate as int);
        }
        let turn_x: i64 = floor_div(dx as i128 * rate, 1000) as i64;
        let turn_y: i64 = floor_div(dy as i128 * rate, 1000) as i64;
        let lat: i64 = self.lat + turn_y;
        self.lon = self.lon - turn_x;
        self.lat = if lat < -MAX_LAT {
            -MAX_LAT
        } else if lat > MAX_LAT {
            MAX_LAT
        } else {
            lat
        };
    }

    /// Moves towards the globe by a factor in millionths, within the limits.
    pub fn approach(&mut self, factor: u32)
        requires
            old(self).wf(),
            850_000 <= factor <= 1_150_000,
        ensures
            *final(self) == (GlobeRig {
                distance: held(
                    old(self).distance * 1_000_000 / factor as int,
                    MIN_DISTANCE as int,
                    MAX_DISTANCE as int,
                ) as i64,
                ..*old(self)
            }),
            MIN_DISTANCE <= final(self).distance <= MAX_DISTANCE,
            final(self).wf(),
    {
        let d: i64 = self.distance * 1_000_000 / factor as i64;
        self.distance = if d < MIN_DISTANCE {
            MIN_DISTANCE
        } else if d > MAX_DISTANCE {
            MAX_DISTANCE
        } else {
            d
        };
    }

    /// The camera at a height above the ground, held within the limits.
    pub fn set_height(&mut self, height: i64)
        requires
            0 <= height <= 1_000_000_000_000,
        ensures
            *final(self) == (GlobeRig {
                distance: held(
                    GLOBE_RADIUS + height,
                    MIN_DISTANCE as int,
                    MAX_DISTANCE as int,
                ) as i64,
                ..*old(self)
            }),
    {
        let d: i64 = GLOBE_RADIUS + height;
        self.distance = if d < MIN_DISTANCE {
            MIN_DISTANCE
        } else if d > MAX_DISTANCE {
            MAX_DISTANCE
        } else {
            d
        };
    }
}

proof fn lemma_turn(d: int, rate: int)
    requires
        -0x1_0000_0000 <= d <= 0x1_0000_0000,
        0 <= rate <= 90_000_000,
    ensures
        -0x1_0000_0000 * 90_000_000 <= d * rate <= 0x1_0000_0000 * 90_000_000,
        -386_547_056_640_000 <= d * rate / 1000 <= 386_547_056_640_000,
{
    assert(-0x1_0000_0000 * 90_000_000 <= d * rate <= 0x1_0000_0000 * 90_000_000)
        by (nonlinear_arith)
        requires
            -0x1_0000_0000 <= d <= 0x1_0000_0000,
            0 <= rate <= 90_000_000,
    ;
}

/// Whether the camera of the globe goes over to the map: on request, or where the ground appears
/// closer than the map shows it at the passage.
pub open spec fn lands(requested: bool, distance: int, viewport_h: int) -> bool {
    requested || apparent(distance, viewport_h) < LAND_MPP
}

/// Whether the map goes over to the globe: in a window, where it is as wide as it gets.
pub open spec fn takes_off(windowed: bool, mpp: int) -> bool {
    windowed && mpp >= TAKEOFF_MPP
}

/// Whether the camera of the globe goes over to the map.
pub fn should_land(requested: bool, distance: i64, viewport_h: i64) -> (r: bool)
    requires
        GLOBE_RADIUS <= distance <= 1_000_000_000_000,
        0 <= viewport_h <= 0x8000_0000,
    ensures
        r == lands(requested, distance as int, viewport_h as int),
{
    requested || apparent_mpp(distance, viewport_h) < LAND_MPP
}

/// Whether the map goes over to the globe: in a window, where it is as wide as it gets.
pub fn should_take_off(windowed: bool, mpp: i64) -> (r: bool)
    ensures
        r == takes_off(windowed, mpp as int),
{
    windowed && mpp >= TAKEOFF_MPP
}

/// The distance at which the globe is entered from the map: six percent beyond its widest scale.
pub fn takeoff_distance(viewport_h: i64) -> (r: i64)
    requires
        0 <= viewport_h <= 0x8000_0000,
    ensures
        r == distance_of(1_272_000_000, viewport_h as int),
{
    distance_for_mpp(1_272_000_000, viewport_h)
}

/// The passages do not undo each other: the map is entered at a scale at which it is not left at
/// once, and the globe at a distance from which the map is not entered at once.
pub proof fn passages_do_not_flicker(viewport_h: int)
    requires
        1000 <= viewport_h <= 0x8000_0000,
    ensures
        LAND_MPP < TAKEOFF_MPP,
        LAND_MPP <= MAX_MPP,
        apparent(distance_of(1_272_000_000, viewport_h), viewport_h) >= LAND_MPP,
{
    let v = VIEW_FACTOR as int;
    let d = viewport_h * 1000;
    let mpp = 1_272_000_000int;
    let n = mpp * viewport_h * 1000;
    assert(n == mpp * d);
    let up = n / v;
    vstd::arithmetic::div_mod::lemma_fundamental_div_mod(n, v);
    vstd::arithmetic::div_mod::lemma_mod_bound(n, v);
    assert(v * up == up * v) by (nonlinear_arith);
    let high = if up < 127_420_000 { 127_420_000 } else { up };
    vstd::arithmetic::div_mod::lemma_fundamental_div_mod(high * v, d);
    vstd::arithmetic::div_mod::lemma_mod_bound(high * v, d);
    let back = high * v / d;
    assert(high * v >= up * v) by (nonlinear_arith)
        requires
            high >= up,
            v > 0,
    ;
    assert(back >= LAND_MPP) by (nonlinear_arith)
        requires
            high * v == d * back + (high * v) % d,
            (high * v) % d < d,
            high * v >= up * v,
            mpp * d == up * v + n % v,
            n % v < v,
            v == 828_427_125,
            d >= 1_000_000,
            mpp == 1_272_000_000,
            LAND_MPP == 1_120_000_000,
    ;
}

} // verus!
