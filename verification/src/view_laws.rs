//! Laws of views: layers and their colours, the graticule, the cameras, and the tiles of the globe.

use vstd::arithmetic::power2::pow2;
use vstd::prelude::*;

use crate::camera::{clamped_mpp, world_at, CameraRig};
use crate::extract::{Line, LineKind, MapData, Poly, PolyKind, RoadClass};
use crate::globe::{apparent, distance_of, held, turn_rate};
use crate::globe_tiles::{
    covered, globe_limits, is_ancestor, level_from, level_suffices, marked, GlobeKey,
};
use crate::input::ScreenPos;
use crate::map_render::{
    area_members, draw_order, graticule_fits, graticule_step_from, graticule_steps, members,
    multiples, path_members, plans, LayerKind, PlanView, Rgb,
};
use crate::order::{before, is_order};
use crate::stream::{Limits, Status};

verus! {

// ---------- layers ----------

/// The colour of each layer, as red, green and blue in two hexadecimal digits each.
pub open spec fn colour_of(kind: LayerKind) -> int {
    match kind {
        LayerKind::Area(PolyKind::Water) => 0x0f2f44,
        LayerKind::Area(PolyKind::Landuse) => 0x1b2129,
        LayerKind::Area(PolyKind::Green) => 0x16231b,
        LayerKind::Area(PolyKind::Apron) => 0x2a2f36,
        LayerKind::Area(PolyKind::Building) => 0x252b34,
        LayerKind::Path(LineKind::Waterway) => 0x0f2f44,
        LayerKind::Path(LineKind::Rail) => 0x3a3242,
        LayerKind::Path(LineKind::Taxiway) => 0x31363c,
        LayerKind::Path(LineKind::Runway) => 0x40464e,
        LayerKind::Path(LineKind::Road(RoadClass::Minor)) => 0x2c343e,
        LayerKind::Path(LineKind::Road(RoadClass::Mid)) => 0x38414c,
        LayerKind::Path(LineKind::Road(RoadClass::Major)) => 0x48525f,
    }
}

/// A colour as one number.
pub open spec fn packed(c: Rgb) -> int {
    c.r * 65536 + c.g * 256 + c.b
}

/// How far to the front a layer is drawn.
pub open spec fn height_of(kind: LayerKind) -> int {
    match kind {
        LayerKind::Area(PolyKind::Water) => 0,
        LayerKind::Area(PolyKind::Landuse) => 1,
        LayerKind::Area(PolyKind::Green) => 2,
        LayerKind::Area(PolyKind::Apron) => 3,
        LayerKind::Area(PolyKind::Building) => 4,
        LayerKind::Path(LineKind::Waterway) => 5,
        LayerKind::Path(LineKind::Rail) => 6,
        LayerKind::Path(LineKind::Taxiway) => 7,
        LayerKind::Path(LineKind::Runway) => 8,
        LayerKind::Path(LineKind::Road(RoadClass::Minor)) => 9,
        LayerKind::Path(LineKind::Road(RoadClass::Mid)) => 10,
        LayerKind::Path(LineKind::Road(RoadClass::Major)) => 11,
    }
}

proof fn lemma_draw_order(kind: LayerKind)
    ensures
        draw_order().len() == 12,
        0 <= height_of(kind) < 12,
        draw_order()[height_of(kind)].0 == kind,
        packed(draw_order()[height_of(kind)].1) == colour_of(kind),
{
}

proof fn lemma_plans(map: MapData, n: int, j: int)
    requires
        0 <= n <= 12,
        0 <= j < plans(map, n).len(),
    ensures
        0 <= height_of(plans(map, n)[j].kind) < n,
        packed(plans(map, n)[j].color) == colour_of(plans(map, n)[j].kind),
        plans(map, n)[j].members == members(map, plans(map, n)[j].kind),
        members(map, plans(map, n)[j].kind).len() > 0,
        forall|i: int|
            0 <= i < j ==> height_of((#[trigger] plans(map, n)[i]).kind) < height_of(
                plans(map, n)[j].kind,
            ),
    decreases n,
{
    let before = plans(map, n - 1);
    let all = plans(map, n);
    let (kind, color) = draw_order()[n - 1];
    lemma_place(n - 1);
    lemma_draw_order(kind);
    if j < before.len() {
        lemma_plans(map, n - 1, j);
        assert(all[j] == before[j]);
        assert forall|i: int| 0 <= i < j implies height_of((#[trigger] all[i]).kind) < height_of(
            all[j].kind,
        ) by {
            assert(all[i] == before[i]);
        }
    } else {
        assert forall|i: int| 0 <= i < j implies height_of((#[trigger] all[i]).kind) < height_of(
            all[j].kind,
        ) by {
            assert(all[i] == before[i]);
            lemma_plans(map, n - 1, i);
        }
    }
}

proof fn lemma_place(p: int)
    requires
        0 <= p < 12,
    ensures
        height_of(draw_order()[p].0) == p,
{
}

/// Layers are drawn from the back to the front: areas before lines, water at the very back, and roads at the
/// front with the major ones before all. Each has its colour, shows all members of its kind, and is left out
/// where it has none.
pub proof fn layers_are_drawn_from_back_to_front(map: MapData, i: int, j: int)
    requires
        0 <= i < j < plans(map, 12).len(),
    ensures
        height_of(plans(map, 12)[i].kind) < height_of(plans(map, 12)[j].kind),
        packed(plans(map, 12)[i].color) == colour_of(plans(map, 12)[i].kind),
        packed(plans(map, 12)[j].color) == colour_of(plans(map, 12)[j].kind),
        plans(map, 12)[i].members == members(map, plans(map, 12)[i].kind),
        plans(map, 12)[i].members.len() > 0,
{
    lemma_plans(map, 12, i);
    lemma_plans(map, 12, j);
}

/// A map with only one kind of area or line has one layer, in its colour.
pub proof fn single_layers_have_their_colour(map: MapData)
    requires
        plans(map, 12).len() == 1,
    ensures
        packed(plans(map, 12)[0].color) == colour_of(plans(map, 12)[0].kind),
        plans(map, 12)[0].members == members(map, plans(map, 12)[0].kind),
{
    lemma_plans(map, 12, 0);
}

proof fn lemma_areas_ascend(polys: Seq<Poly>, kind: PolyKind, n: int)
    requires
        0 <= n <= polys.len() <= usize::MAX,
    ensures
        forall|i: int|
            0 <= i < area_members(polys, kind, n).len() ==> #[trigger] area_members(polys, kind, n)[i] < n,
        forall|i: int, j: int|
            0 <= i < j < area_members(polys, kind, n).len() ==> #[trigger] area_members(polys, kind, n)[i]
                < #[trigger] area_members(polys, kind, n)[j],
    decreases n,
{
    if n > 0 {
        lemma_areas_ascend(polys, kind, n - 1);
        let (a, b) = (area_members(polys, kind, n - 1), area_members(polys, kind, n));
        assert forall|i: int| 0 <= i < b.len() implies #[trigger] b[i] < n by {
            if i < a.len() {
                assert(b[i] == a[i]);
            }
        }
        assert forall|i: int, j: int| 0 <= i < j < b.len() implies #[trigger] b[i] < #[trigger] b[j] by {
            assert(b[i] == a[i]);
            if j < a.len() {
                assert(b[j] == a[j]);
            }
        }
    }
}

proof fn lemma_paths_ascend(lines: Seq<Line>, kind: LineKind, n: int)
    requires
        0 <= n <= lines.len() <= usize::MAX,
    ensures
        forall|i: int|
            0 <= i < path_members(lines, kind, n).len() ==> #[trigger] path_members(lines, kind, n)[i] < n,
        forall|i: int, j: int|
            0 <= i < j < path_members(lines, kind, n).len() ==> #[trigger] path_members(lines, kind, n)[i]
                < #[trigger] path_members(lines, kind, n)[j],
    decreases n,
{
    if n > 0 {
        lemma_paths_ascend(lines, kind, n - 1);
        let (a, b) = (path_members(lines, kind, n - 1), path_members(lines, kind, n));
        assert forall|i: int| 0 <= i < b.len() implies #[trigger] b[i] < n by {
            if i < a.len() {
                assert(b[i] == a[i]);
            }
        }
        assert forall|i: int, j: int| 0 <= i < j < b.len() implies #[trigger] b[i] < #[trigger] b[j] by {
            assert(b[i] == a[i]);
            if j < a.len() {
                assert(b[j] == a[j]);
            }
        }
    }
}

/// The members of a layer are drawn once each and in the order of the map.
pub proof fn members_are_drawn_in_order(map: MapData, kind: LayerKind, i: int, j: int)
    requires
        map.polys@.len() <= usize::MAX,
        map.lines@.len() <= usize::MAX,
        0 <= i < j < members(map, kind).len(),
    ensures
        members(map, kind)[i] < members(map, kind)[j],
{
    match kind {
        LayerKind::Area(k) => lemma_areas_ascend(map.polys@, k, map.polys@.len() as int),
        LayerKind::Path(k) => lemma_paths_ascend(map.lines@, k, map.lines@.len() as int),
    }
}

// ---------- the graticule ----------

/// Whether a number is one of the intervals of the graticule, in hundredths of a degree.
pub open spec fn is_graticule(s: int) -> bool {
    s == 1 || s == 2 || s == 5 || s == 10 || s == 25 || s == 50 || s == 100 || s == 200 || s == 500
}

proof fn lemma_graticule(view_m: u64, view_px: u32, i: int)
    requires
        0 <= i <= 9,
    ensures
        ({
            let r = graticule_step_from(view_m, view_px, i);
            &&& is_graticule(r as int)
            &&& r == 500 || graticule_fits(r, view_m, view_px)
            &&& forall|j: int|
                i <= j < 9 && graticule_steps()[j] < r ==> !graticule_fits(
                    #[trigger] graticule_steps()[j],
                    view_m,
                    view_px,
                )
        }),
    decreases 9 - i,
{
    let s = graticule_steps();
    assert(s[0] == 1 && s[1] == 2 && s[2] == 5 && s[3] == 10 && s[4] == 25 && s[5] == 50 && s[6] == 100
        && s[7] == 200 && s[8] == 500);
    if i < 9 {
        lemma_graticule(view_m, view_px, i + 1);
    }
}

/// The interval is the least of 1, 2, 5, 10, 25, 50, 100, 200 and 500 hundredths of a degree whose lines are
/// 110 pixels apart or more, and 500 where no other is; a degree is 111320 metres.
pub proof fn graticule_lines_are_apart(view_m: u64, view_px: u32, s: int)
    requires
        view_px > 0,
        is_graticule(s),
    ensures
        ({
            let r = graticule_step_from(view_m, view_px, 0) as int;
            &&& is_graticule(r)
            &&& r == 500 || (r * 111_320) * view_px >= 11_000 * view_m
            &&& s < r ==> (s * 111_320) * view_px < 11_000 * view_m
        }),
{
    lemma_graticule(view_m, view_px, 0);
    let g = graticule_steps();
    assert(g[0] == 1 && g[1] == 2 && g[2] == 5 && g[3] == 10 && g[4] == 25 && g[5] == 50 && g[6] == 100
        && g[7] == 200 && g[8] == 500);
    let j: int = if s == 1 {
        0
    } else if s == 2 {
        1
    } else if s == 5 {
        2
    } else if s == 10 {
        3
    } else if s == 25 {
        4
    } else if s == 50 {
        5
    } else if s == 100 {
        6
    } else if s == 200 {
        7
    } else {
        8
    };
    assert(g[j] == s);
    let r = graticule_step_from(view_m, view_px, 0);
    if s < r {
        assert(!graticule_fits(g[j], view_m, view_px));
    }
}

/// The graticule has every multiple of its interval between the bounds, the bounds included, in ascending
/// order and nothing else.
pub proof fn the_graticule_has_every_multiple(min: int, max: int, step: int, v: int)
    requires
        step > 0,
    ensures
        multiples(min, max, step).contains(v) <==> min <= v <= max && v % step == 0,
        forall|i: int|
            0 < i < multiples(min, max, step).len() ==> #[trigger] multiples(min, max, step)[i]
                == multiples(min, max, step)[i - 1] + step,
{
    let q = (-min) / step;
    let first = -q * step;
    let all = multiples(min, max, step);
    vstd::arithmetic::div_mod::lemma_fundamental_div_mod(-min, step);
    vstd::arithmetic::div_mod::lemma_mod_bound(-min, step);
    assert(-q * step == -(step * q)) by (nonlinear_arith);
    assert(min <= first < min + step);
    vstd::arithmetic::div_mod::lemma_fundamental_div_mod_converse(first, step, -q, 0);
    let gap = max - first;
    if max >= first {
        vstd::arithmetic::div_mod::lemma_fundamental_div_mod(gap, step);
        vstd::arithmetic::div_mod::lemma_mod_bound(gap, step);
        vstd::arithmetic::div_mod::lemma_div_pos_is_pos(gap, step);
    }
    assert forall|i: int| 0 < i < all.len() implies #[trigger] all[i] == all[i - 1] + step by {
        assert(i * step == (i - 1) * step + step) by (nonlinear_arith);
    }
    if all.contains(v) {
        let i = choose|i: int| 0 <= i < all.len() && all[i] == v;
        assert(v == first + i * step);
        assert(0 <= i * step) by (nonlinear_arith)
            requires
                0 <= i,
                0 < step,
        ;
        assert(i * step <= step * (gap / step)) by (nonlinear_arith)
            requires
                i <= gap / step,
                0 < step,
        ;
        assert(v == step * (i - q)) by (nonlinear_arith)
            requires
                v == -q * step + i * step,
        ;
        assert((i - q) * step == step * (i - q)) by (nonlinear_arith);
        vstd::arithmetic::div_mod::lemma_fundamental_div_mod_converse(v, step, i - q, 0);
    }
    if min <= v <= max && v % step == 0 {
        vstd::arithmetic::div_mod::lemma_fundamental_div_mod(v, step);
        let k = v / step;
        let i = k + q;
        assert(v == step * k);
        assert(v - first == step * i) by (nonlinear_arith)
            requires
                v == step * k,
                first == -q * step,
                i == k + q,
        ;
        assert(i >= 0) by (nonlinear_arith)
            requires
                step * i == v - first,
                v >= min,
                first < min + step,
                step > 0,
        ;
        assert(max >= first) by {
            assert(step * i >= 0) by (nonlinear_arith)
                requires
                    i >= 0,
                    step > 0,
            ;
        }
        assert(i <= gap / step) by (nonlinear_arith)
            requires
                step * i <= gap,
                gap < step * (gap / step) + step,
                step > 0,
        ;
        assert(i * step == step * i) by (nonlinear_arith);
        assert(all[i] == v);
    }
}

// ---------- the camera of the map ----------

/// The centre of the viewport shows the place at the centre of the camera; a pixel to the right is as far to
/// the east as the scale says, and a pixel down as far to the south.
pub proof fn the_screen_shows_the_map_to_scale(
    rig: CameraRig,
    viewport: ScreenPos,
    p: ScreenPos,
    dx: i64,
    dy: i64,
)
    requires
        i64::MIN <= p.x + dx <= i64::MAX,
        i64::MIN <= p.y + dy <= i64::MAX,
        viewport.x >= 0,
        viewport.y >= 0,
    ensures
        world_at(rig, ScreenPos { x: (viewport.x / 2) as i64, y: (viewport.y / 2) as i64 }, viewport) == (
            rig.target.x as int,
            rig.target.y as int,
        ),
        world_at(rig, ScreenPos { x: (p.x + dx) as i64, y: (p.y + dy) as i64 }, viewport) == (
            world_at(rig, p, viewport).0 + dx * rig.mpp,
            world_at(rig, p, viewport).1 - dy * rig.mpp,
        ),
{
    let m = rig.mpp as int;
    let (a, b) = (p.x - viewport.x / 2, viewport.y / 2 - p.y);
    assert((a + dx) * m == a * m + dx * m) by (nonlinear_arith);
    assert((b - dy) * m == b * m - dy * m) by (nonlinear_arith);
    assert(0 * m == 0);
}

/// Scales from 1.2 to 1200 metres per pixel are kept, closer and wider ones held at these.
pub proof fn scales_are_held_within_limits(m: int)
    ensures
        1_200_000 <= clamped_mpp(m) <= 1_200_000_000,
        1_200_000 <= m <= 1_200_000_000 ==> clamped_mpp(m) == m,
        m < 1_200_000 ==> clamped_mpp(m) == 1_200_000,
        m > 1_200_000_000 ==> clamped_mpp(m) == 1_200_000_000,
{
}

// ---------- the camera of the globe ----------

/// A number is held between two others: the nearest between them is taken.
pub proof fn numbers_are_held_between(v: int, lo: int, hi: int, w: int)
    requires
        lo <= w <= hi,
    ensures
        lo <= held(v, lo, hi) <= hi,
        lo <= v <= hi ==> held(v, lo, hi) == v,
        (if held(v, lo, hi) < v {
            v - held(v, lo, hi)
        } else {
            held(v, lo, hi) - v
        }) <= (if w < v {
            v - w
        } else {
            w - v
        }),
{
}

/// The globe turns by 0.55 degrees for a pixel where the camera is as high as the globe's radius of 6371
/// kilometres, in proportion from other heights, and never by less than 0.011.
pub proof fn the_globe_turns_with_the_height(distance: int)
    requires
        distance >= 6_371_000_000,
    ensures
        turn_rate(distance) >= 11_000,
        turn_rate(distance) > 11_000 ==> turn_rate(distance) * 6_371_000_000 <= 550_000 * (distance
            - 6_371_000_000) < (turn_rate(distance) + 1) * 6_371_000_000,
        turn_rate(distance) == 11_000 ==> 550_000 * (distance - 6_371_000_000) < 11_001 * 6_371_000_000,
{
}

/// The ground appears at a scale in proportion to the height above it: a viewport shows 0.828427125 times the
/// height from top to bottom, and the scale is never closer than 0.3 metres per pixel.
pub proof fn the_ground_appears_to_scale(distance: int, viewport_h: int)
    requires
        distance >= 6_371_000_000,
        viewport_h >= 1000,
    ensures
        ({
            let (m, up) = (apparent(distance, viewport_h), distance - 6_371_000_000);
            &&& m >= 300_000
            &&& m > 300_000 ==> m * (viewport_h * 1000) <= up * 828_427_125 < (m + 1) * (viewport_h
                * 1000)
            &&& m == 300_000 ==> up * 828_427_125 < 300_001 * (viewport_h * 1000)
        }),
{
    let up = distance - 6_371_000_000;
    let d = viewport_h * 1000;
    let n = up * 828_427_125;
    vstd::arithmetic::div_mod::lemma_fundamental_div_mod(n, d);
    vstd::arithmetic::div_mod::lemma_mod_bound(n, d);
    let q = n / d;
    assert(q * d == d * q) by (nonlinear_arith);
    assert((q + 1) * d == d * q + d) by (nonlinear_arith);
    if q < 300_000 {
        assert((q + 1) * d <= 300_001 * d) by (nonlinear_arith)
            requires
                q + 1 <= 300_001,
                d >= 0,
        ;
    }
}

/// The distance for a scale is that from which the ground appears at it, and never less than two percent above
/// the ground.
pub proof fn distances_follow_the_scale(mpp: int, viewport_h: int)
    requires
        0 <= mpp,
        viewport_h >= 1000,
    ensures
        ({
            let up = distance_of(mpp, viewport_h) - 6_371_000_000;
            &&& up * 50 >= 6_371_000_000
            &&& up * 50 > 6_371_000_000 ==> up * 828_427_125 <= mpp * (viewport_h * 1000) < (up + 1)
                * 828_427_125
            &&& up * 50 == 6_371_000_000 ==> mpp * (viewport_h * 1000) < 127_420_001 * 828_427_125
        }),
{
    let n = mpp * viewport_h * 1000;
    assert(n == mpp * (viewport_h * 1000)) by (nonlinear_arith)
        requires
            n == mpp * viewport_h * 1000,
    ;
}

// ---------- the tiles of the globe ----------

proof fn lemma_level_from(above: int, z: int)
    requires
        0 <= z <= 8,
    ensures
        ({
            let r = level_from(above, z);
            &&& z <= r <= 8
            &&& r < 8 ==> level_suffices(above, r)
            &&& forall|j: int| z <= j < r ==> !#[trigger] level_suffices(above, j)
        }),
    decreases 8 - z,
{
    if z < 8 && !level_suffices(above, z) {
        lemma_level_from(above, z + 1);
    }
}

/// The level is the coarsest whose pixels are no larger on the ground than those of a screen of 900 pixels that
/// shows as much ground as the camera is high, and 8 where none is. The equator is 40075016.7 metres long and
/// 256 pixels wide at level 0, and each level has twice the pixels of the one before.
pub proof fn imagery_is_as_fine_as_the_screen(above: int, j: int)
    requires
        above > 0,
        0 <= j <= 8,
    ensures
        ({
            let r = level_from(above, 0);
            &&& 0 <= r <= 8
            &&& r < 8 ==> (pow2(r as nat) * 256) * (above * 10) >= 400_750_167int * 1000 * 900
            &&& j < r ==> (pow2(j as nat) * 256) * (above * 10) < 400_750_167int * 1000 * 900
        }),
{
    lemma_level_from(above, 0);
    let r = level_from(above, 0);
    let (p, q) = (pow2(r as nat) as int, pow2(j as nat) as int);
    assert((p * 256) * (above * 10) == p * (256 * above * 10)) by (nonlinear_arith);
    assert((q * 256) * (above * 10) == q * (256 * above * 10)) by (nonlinear_arith);
    if j < r {
        assert(!level_suffices(above, j));
    }
}

/// A coarser tile covers a tile exactly where the column and the row of the finer one lie between those of its
/// own first and last tile of that level.
pub proof fn coarser_tiles_cover_a_square(a: GlobeKey, k: GlobeKey)
    requires
        a.z < k.z,
    ensures
        ({
            let n = pow2((k.z - a.z) as nat) as int;
            is_ancestor(a, k) <==> a.x * n <= k.x < (a.x + 1) * n && a.y * n <= k.y < (a.y + 1) * n
        }),
{
    let n = pow2((k.z - a.z) as nat) as int;
    vstd::arithmetic::power2::lemma_pow2_pos((k.z - a.z) as nat);
    lemma_divided(k.x as int, n, a.x as int);
    lemma_divided(k.y as int, n, a.y as int);
}

proof fn lemma_divided(v: int, n: int, q: int)
    requires
        n > 0,
    ensures
        v / n == q <==> q * n <= v < (q + 1) * n,
{
    vstd::arithmetic::div_mod::lemma_fundamental_div_mod(v, n);
    vstd::arithmetic::div_mod::lemma_mod_bound(v, n);
    assert((q + 1) * n == q * n + n) by (nonlinear_arith);
    if q * n <= v < (q + 1) * n {
        vstd::arithmetic::div_mod::lemma_fundamental_div_mod_converse(v, n, q, v - q * n);
    }
    if v / n == q {
        assert(n * q == q * n) by (nonlinear_arith);
    }
}

/// A tile is hidden for the next finer level where its four children are loaded, and only there; it is never
/// hidden for its own level or a coarser one.
pub proof fn tiles_are_hidden_by_their_children(
    k: GlobeKey,
    tiles: Map<GlobeKey, Status>,
    coarser: u8,
)
    requires
        k.z < 31,
        k.x < 0x4000_0000,
        k.y < 0x4000_0000,
        coarser <= k.z,
    ensures
        !covered(k, coarser, tiles),
        covered(k, (k.z + 1) as u8, tiles) <==> forall|i: int, j: int|
            #![trigger child(k, i, j)]
            0 <= i < 2 && 0 <= j < 2 ==> tiles.contains_key(child(k, i, j)) && tiles[child(k, i, j)]
                == Status::Loaded,
{
    let z = (k.z + 1) as u8;
    vstd::arithmetic::power2::lemma2_to64();
    assert(pow2(1) == 2);
    if covered(k, z, tiles) {
        assert forall|i: int, j: int|
            #![trigger child(k, i, j)]
            0 <= i < 2 && 0 <= j < 2 implies tiles.contains_key(child(k, i, j)) && tiles[child(k, i, j)]
            == Status::Loaded by {
            coarser_tiles_cover_a_square(k, child(k, i, j));
            assert(is_ancestor(k, child(k, i, j)));
        }
    }
    if forall|i: int, j: int|
        #![trigger child(k, i, j)]
        0 <= i < 2 && 0 <= j < 2 ==> tiles.contains_key(child(k, i, j)) && tiles[child(k, i, j)]
            == Status::Loaded {
        assert forall|c: GlobeKey| c.z == z && #[trigger] is_ancestor(k, c) implies tiles.contains_key(c)
            && tiles[c] == Status::Loaded by {
            coarser_tiles_cover_a_square(k, c);
            let (i, j) = (c.x - 2 * k.x, c.y - 2 * k.y);
            assert(child(k, i, j) == c);
        }
    }
}

/// A child of a tile.
pub open spec fn child(k: GlobeKey, i: int, j: int) -> GlobeKey {
    GlobeKey { z: (k.z + 1) as u8, x: (2 * k.x + i) as u32, y: (2 * k.y + j) as u32 }
}

proof fn lemma_marked(z: u8, marks: Seq<bool>, n: int, k: GlobeKey)
    requires
        z <= 15,
        0 <= n <= pow2(z as nat) * pow2(z as nat),
        n <= marks.len(),
    ensures
        marked(z, marks, n).contains(k) <==> k.z == z && k.x < pow2(z as nat) && k.y * pow2(z as nat) + k.x
            < n && marks[k.y * pow2(z as nat) + k.x],
    decreases n,
{
    if n > 0 {
        lemma_marked(z, marks, n - 1, k);
        let side = pow2(z as nat) as int;
        vstd::arithmetic::power2::lemma_pow2_pos(z as nat);
        vstd::arithmetic::power2::lemma2_to64();
        vstd::arithmetic::power2::lemma_pow2_strictly_increases(z as nat, 16);
        let i = n - 1;
        vstd::arithmetic::div_mod::lemma_fundamental_div_mod(i, side);
        vstd::arithmetic::div_mod::lemma_mod_bound(i, side);
        vstd::arithmetic::div_mod::lemma_div_pos_is_pos(i, side);
        assert(i / side < side) by (nonlinear_arith)
            requires
                i == side * (i / side) + i % side,
                0 <= i % side,
                i < side * side,
                side >= 1,
        ;
        assert(side * (i / side) == (i / side) * side) by (nonlinear_arith);
        let before = marked(z, marks, n - 1);
        let last = GlobeKey { z, x: (i % side) as u32, y: (i / side) as u32 };
        if k.z == z && k.x < side && k.y * side + k.x == i {
            lemma_divided(i, side, k.y as int);
            assert((k.y + 1) * side == k.y * side + side) by (nonlinear_arith);
            assert(k == last);
        }
        if k == last {
            assert(k.y * side + k.x == i);
        }
        let all = marked(z, marks, n);
        if marks[i] {
            assert(all == before.push(last));
            if before.contains(k) {
                let j = choose|j: int| 0 <= j < before.len() && before[j] == k;
                assert(all[j] == k);
            }
            if k == last {
                assert(all[before.len() as int] == k);
            }
            if all.contains(k) {
                let j = choose|j: int| 0 <= j < all.len() && all[j] == k;
                if j < before.len() {
                    assert(before[j] == k);
                }
            }
        }
    }
}

/// The tiles that face the camera are those of the level whose mark, row by row, says so.
pub proof fn marks_tell_the_facing_tiles(z: u8, marks: Seq<bool>, k: GlobeKey)
    requires
        z <= 15,
        marks.len() == pow2(z as nat) * pow2(z as nat),
    ensures
        marked(z, marks, marks.len() as int).contains(k) <==> k.z == z && k.x < pow2(z as nat) && k.y
            < pow2(z as nat) && marks[k.y * pow2(z as nat) + k.x],
{
    lemma_marked(z, marks, marks.len() as int, k);
    let side = pow2(z as nat) as int;
    vstd::arithmetic::power2::lemma_pow2_pos(z as nat);
    if k.x < side {
        assert(k.y < side <==> k.y * side + k.x < side * side) by (nonlinear_arith)
            requires
                0 <= k.x < side,
                0 <= k.y,
        ;
    }
}

/// No more than three imagery tiles are fetched at once, requests are at least 300 milliseconds apart, and a
/// tile that failed is tried again after 30 seconds. Times are in nanoseconds.
pub proof fn imagery_is_fetched_gently()
    ensures
        globe_limits() == (Limits {
            max_inflight: 3,
            interval: 300_000_000,
            retry: 30_000_000_000,
        }),
{
}

// ---------- sorting ----------

/// Sorting lists every index once, by ascending key, and equal keys in their order; there is only one such
/// list.
pub proof fn sorting_is_stable(keys: Seq<i128>, a: Seq<usize>, i: int, j: int)
    requires
        is_order(keys, a),
        0 <= i < j < a.len(),
    ensures
        keys[a[i] as int] <= keys[a[j] as int],
        keys[a[i] as int] == keys[a[j] as int] ==> a[i] < a[j],
        a[i] != a[j],
        a.len() == keys.len(),
{
    assert(before(keys, a[i] as int, a[j] as int));
}

/// A map without areas and lines has no layers.
pub proof fn plans_of_nothing_are_empty(map: MapData)
    ensures
        (forall|kind: LayerKind| (#[trigger] members(map, kind)).len() == 0) ==> plans(map, 12)
            == Seq::<PlanView>::empty(),
{
    if forall|kind: LayerKind| (#[trigger] members(map, kind)).len() == 0 {
        if plans(map, 12).len() > 0 {
            lemma_plans(map, 12, 0);
        }
        assert(plans(map, 12) =~= Seq::empty());
    }
}

} // verus!
