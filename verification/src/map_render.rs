//! What of a map is drawn and in what order: the layers, their colours, and the graticule.

use vstd::prelude::*;

use crate::extract::{Line, LineKind, MapData, Poly, PolyKind, RoadClass};
use crate::geo::{distance2, distance_squared, Point};

verus! {

// ---------- layers ----------

/// What a layer shows.
#[derive(Debug, Clone, Copy, PartialEq, Eq, Structural)]
pub enum LayerKind {
    Area(PolyKind),
    Path(LineKind),
}

/// A colour in sRGB.
#[derive(Debug, Clone, Copy, PartialEq, Eq, Structural)]
pub struct Rgb {
    pub r: u8,
    pub g: u8,
    pub b: u8,
}

/// A colour in sRGB.
pub open spec fn rgb(r: u8, g: u8, b: u8) -> Rgb {
    Rgb { r, g, b }
}

/// The layers with their colours, in the order in which they are drawn: a later one covers an
/// earlier one.
pub open spec fn draw_order() -> Seq<(LayerKind, Rgb)> {
    seq![
        (LayerKind::Area(PolyKind::Water), rgb(15, 47, 68)),
        (LayerKind::Area(PolyKind::Landuse), rgb(27, 33, 41)),
        (LayerKind::Area(PolyKind::Green), rgb(22, 35, 27)),
        (LayerKind::Area(PolyKind::Apron), rgb(42, 47, 54)),
        (LayerKind::Area(PolyKind::Building), rgb(37, 43, 52)),
        (LayerKind::Path(LineKind::Waterway), rgb(15, 47, 68)),
        (LayerKind::Path(LineKind::Rail), rgb(58, 50, 66)),
        (LayerKind::Path(LineKind::Taxiway), rgb(49, 54, 60)),
        (LayerKind::Path(LineKind::Runway), rgb(64, 70, 78)),
        (LayerKind::Path(LineKind::Road(RoadClass::Minor)), rgb(44, 52, 62)),
        (LayerKind::Path(LineKind::Road(RoadClass::Mid)), rgb(56, 65, 76)),
        (LayerKind::Path(LineKind::Road(RoadClass::Major)), rgb(72, 82, 95)),
    ]
}

/// A layer of a map: what it shows, its colour, and which areas or lines of the map are in it.
#[derive(Debug)]
pub struct LayerPlan {
    pub kind: LayerKind,
    pub color: Rgb,
    pub members: Vec<usize>,
}

/// What a `LayerPlan` stands for.
pub struct PlanView {
    pub kind: LayerKind,
    pub color: Rgb,
    pub members: Seq<usize>,
}

impl View for LayerPlan {
    type V = PlanView;

    open spec fn view(&self) -> PlanView {
        PlanView { kind: self.kind, color: self.color, members: self.members@ }
    }
}

/// The indexes, below `n`, of the areas of a kind.
pub open spec fn area_members(polys: Seq<Poly>, kind: PolyKind, n: int) -> Seq<usize>
    decreases n,
{
    if n <= 0 {
        Seq::empty()
    } else if polys[n - 1].kind == kind {
        area_members(polys, kind, n - 1).push((n - 1) as usize)
    } else {
        area_members(polys, kind, n - 1)
    }
}

/// The indexes, below `n`, of the lines of a kind.
pub open spec fn path_members(lines: Seq<Line>, kind: LineKind, n: int) -> Seq<usize>
    decreases n,
{
    if n <= 0 {
        Seq::empty()
    } else if lines[n - 1].kind == kind {
        path_members(lines, kind, n - 1).push((n - 1) as usize)
    } else {
        path_members(lines, kind, n - 1)
    }
}

/// Which areas or lines of a map a layer shows.
pub open spec fn members(map: MapData, kind: LayerKind) -> Seq<usize> {
    match kind {
        LayerKind::Area(k) => area_members(map.polys@, k, map.polys@.len() as int),
        LayerKind::Path(k) => path_members(map.lines@, k, map.lines@.len() as int),
    }
}

/// The first `n` layers that show something.
pub open spec fn plans(map: MapData, n: int) -> Seq<PlanView>
    decreases n,
{
    if n <= 0 {
        Seq::empty()
    } else {
        let before = plans(map, n - 1);
        let (kind, color) = draw_order()[n - 1];
        if members(map, kind).len() > 0 {
            before.push(PlanView { kind, color, members: members(map, kind) })
        } else {
            before
        }
    }
}

fn find_areas(polys: &Vec<Poly>, kind: PolyKind) -> (r: Vec<usize>)
    ensures
        r@ == area_members(polys@, kind, polys@.len() as int),
{
    let mut out: Vec<usize> = Vec::new();
    let mut i: usize = 0;
    while i < polys.len()
        invariant
            i <= polys@.len(),
            out@ == area_members(polys@, kind, i as int),
        decreases polys@.len() - i,
    {
        if polys[i].kind == kind {
            out.push(i);
        }
        i = i + 1;
    }
    out
}

fn find_paths(lines: &Vec<Line>, kind: LineKind) -> (r: Vec<usize>)
    ensures
        r@ == path_members(lines@, kind, lines@.len() as int),
{
    let mut out: Vec<usize> = Vec::new();
    let mut i: usize = 0;
    while i < lines.len()
        invariant
            i <= lines@.len(),
            out@ == path_members(lines@, kind, i as int),
        decreases lines@.len() - i,
    {
        if lines[i].kind == kind {
            out.push(i);
        }
        i = i + 1;
    }
    out
}

/// The layers of a map that show something, in the order in which they are drawn.
pub fn plan_layers(map: &MapData) -> (r: Vec<LayerPlan>)
    ensures
        r@.map_values(|p: LayerPlan| p@) == plans(*map, 12),
{
    let order: [(LayerKind, Rgb); 12] = [
        (LayerKind::Area(PolyKind::Water), Rgb { r: 15, g: 47, b: 68 }),
        (LayerKind::Area(PolyKind::Landuse), Rgb { r: 27, g: 33, b: 41 }),
        (LayerKind::Area(PolyKind::Green), Rgb { r: 22, g: 35, b: 27 }),
        (LayerKind::Area(PolyKind::Apron), Rgb { r: 42, g: 47, b: 54 }),
        (LayerKind::Area(PolyKind::Building), Rgb { r: 37, g: 43, b: 52 }),
        (LayerKind::Path(LineKind::Waterway), Rgb { r: 15, g: 47, b: 68 }),
        (LayerKind::Path(LineKind::Rail), Rgb { r: 58, g: 50, b: 66 }),
        (LayerKind::Path(LineKind::Taxiway), Rgb { r: 49, g: 54, b: 60 }),
        (LayerKind::Path(LineKind::Runway), Rgb { r: 64, g: 70, b: 78 }),
        (LayerKind::Path(LineKind::Road(RoadClass::Minor)), Rgb { r: 44, g: 52, b: 62 }),
        (LayerKind::Path(LineKind::Road(RoadClass::Mid)), Rgb { r: 56, g: 65, b: 76 }),
        (LayerKind::Path(LineKind::Road(RoadClass::Major)), Rgb { r: 72, g: 82, b: 95 }),
    ];
    assert(order@ =~= draw_order());
    let mut out: Vec<LayerPlan> = Vec::new();
    let mut i: usize = 0;
    while i < 12
        invariant
            i <= 12,
            order@ == draw_order(),
            out@.map_values(|p: LayerPlan| p@) =~= plans(*map, i as int),
        decreases 12 - i,
    {
        let (kind, color) = order[i];
        let found: Vec<usize> = match kind {
            LayerKind::Area(k) => find_areas(&map.polys, k),
            LayerKind::Path(k) => find_paths(&map.lines, k),
        };
        assert(found@ == members(*map, kind));
        if found.len() > 0 {
            let plan = LayerPlan { kind, color, members: found };
            let ghost before = out@;
            let ghost view = plan@;
            out.push(plan);
            assert(out@.map_values(|p: LayerPlan| p@) =~= before.map_values(|p: LayerPlan| p@).push(
                view,
            ));
        }
        i = i + 1;
    }
    out
}

proof fn lemma_area_members(polys: Seq<Poly>, kind: PolyKind, n: int, i: int)
    requires
        0 <= i < n <= polys.len() <= usize::MAX,
    ensures
        area_members(polys, kind, n).contains(i as usize) <==> polys[i].kind == kind,
    decreases n,
{
    let all = area_members(polys, kind, n);
    let before = area_members(polys, kind, n - 1);
    lemma_area_range(polys, kind, n - 1);
    if i < n - 1 {
        lemma_area_members(polys, kind, n - 1, i);
        if before.contains(i as usize) {
            let j = choose|j: int| 0 <= j < before.len() && before[j] == i as usize;
            assert(all[j] == i as usize);
        }
        if all.contains(i as usize) {
            let j = choose|j: int| 0 <= j < all.len() && all[j] == i as usize;
            if j < before.len() {
                assert(before[j] == i as usize);
            }
        }
    } else {
        if polys[i].kind == kind {
            assert(all[before.len() as int] == i as usize);
        } else if before.contains(i as usize) {
            let j = choose|j: int| 0 <= j < before.len() && before[j] == i as usize;
            assert(before[j] < n - 1);
        }
    }
}

proof fn lemma_area_range(polys: Seq<Poly>, kind: PolyKind, n: int)
    requires
        n <= polys.len() <= usize::MAX,
    ensures
        forall|j: int|
            0 <= j < area_members(polys, kind, n).len() ==> (#[trigger] area_members(
                polys,
                kind,
                n,
            )[j]) < n,
    decreases n,
{
    if n > 0 {
        lemma_area_range(polys, kind, n - 1);
        let before = area_members(polys, kind, n - 1);
        let all = area_members(polys, kind, n);
        assert forall|j: int| 0 <= j < all.len() implies (#[trigger] all[j]) < n by {
            if j < before.len() {
                assert(all[j] == before[j]);
            }
        }
    }
}

proof fn lemma_path_members(lines: Seq<Line>, kind: LineKind, n: int, i: int)
    requires
        0 <= i < n <= lines.len() <= usize::MAX,
    ensures
        path_members(lines, kind, n).contains(i as usize) <==> lines[i].kind == kind,
    decreases n,
{
    let all = path_members(lines, kind, n);
    let before = path_members(lines, kind, n - 1);
    lemma_path_range(lines, kind, n - 1);
    if i < n - 1 {
        lemma_path_members(lines, kind, n - 1, i);
        if before.contains(i as usize) {
            let j = choose|j: int| 0 <= j < before.len() && before[j] == i as usize;
            assert(all[j] == i as usize);
        }
        if all.contains(i as usize) {
            let j = choose|j: int| 0 <= j < all.len() && all[j] == i as usize;
            if j < before.len() {
                assert(before[j] == i as usize);
            }
        }
    } else {
        if lines[i].kind == kind {
            assert(all[before.len() as int] == i as usize);
        } else if before.contains(i as usize) {
            let j = choose|j: int| 0 <= j < before.len() && before[j] == i as usize;
            assert(before[j] < n - 1);
        }
    }
}

proof fn lemma_path_range(lines: Seq<Line>, kind: LineKind, n: int)
    requires
        n <= lines.len() <= usize::MAX,
    ensures
        forall|j: int|
            0 <= j < path_members(lines, kind, n).len() ==> (#[trigger] path_members(
                lines,
                kind,
                n,
            )[j]) < n,
    decreases n,
{
    if n > 0 {
        lemma_path_range(lines, kind, n - 1);
        let before = path_members(lines, kind, n - 1);
        let all = path_members(lines, kind, n);
        assert forall|j: int| 0 <= j < all.len() implies (#[trigger] all[j]) < n by {
            if j < before.len() {
                assert(all[j] == before[j]);
            }
        }
    }
}

/// Every area of the map is in the layer of its kind and in no other.
pub proof fn areas_are_drawn_in_their_layer(map: MapData, i: int, kind: PolyKind)
    requires
        0 <= i < map.polys@.len() <= usize::MAX,
    ensures
        members(map, LayerKind::Area(kind)).contains(i as usize) <==> map.polys@[i].kind == kind,
{
    lemma_area_members(map.polys@, kind, map.polys@.len() as int, i);
}

/// Every line of the map is in the layer of its kind and in no other.
pub proof fn lines_are_drawn_in_their_layer(map: MapData, i: int, kind: LineKind)
    requires
        0 <= i < map.lines@.len() <= usize::MAX,
    ensures
        members(map, LayerKind::Path(kind)).contains(i as usize) <==> map.lines@[i].kind == kind,
{
    lemma_path_members(map.lines@, kind, map.lines@.len() as int, i);
}

/// Every kind of area and line that occurs has one layer, which shows all of it.
pub proof fn every_kind_is_drawn(map: MapData, kind: LayerKind)
    requires
        members(map, kind).len() > 0,
    ensures
        exists|j: int|
            0 <= j < plans(map, 12).len() && (#[trigger] plans(map, 12)[j]).kind == kind && plans(
                map,
                12,
            )[j].members == members(map, kind),
        forall|a: int, b: int|
            0 <= a < b < plans(map, 12).len() ==> (#[trigger] plans(map, 12)[a]).kind != (
            #[trigger] plans(map, 12)[b]).kind,
{
    let place: int = match kind {
        LayerKind::Area(PolyKind::Water) => 0,
        LayerKind::Area(PolyKind::Landuse) => 1,
        LayerKind::Area(PolyKind::Green) => 2,
        LayerKind::Area(PolyKind::Apron) => 3,
        LayerKind::Area(PolyKind::Building) => 4,
        LayerKind::Path(LineKind::Waterway) => 5,
        LayerKind::Path(LineKind::Rail) => 6,
        LayerKind::Path(LineKind::Taxiway) => 7,
        LayerKind::Path(LineKind::Runway) => 8,
        LayerKind::Path(LineKind::Road(RoadClass::Minor)) => 9,
        LayerKind::Path(LineKind::Road(RoadClass::Mid)) => 10,
        LayerKind::Path(LineKind::Road(RoadClass::Major)) => 11,
    };
    assert(draw_order()[place].0 == kind);
    lemma_plans(map, 12);
    lemma_plan_of(map, place, 12);
}

/// The plans follow the order of drawing, so no two are of one kind.
proof fn lemma_plans(map: MapData, n: int)
    requires
        0 <= n <= 12,
    ensures
        forall|a: int|
            0 <= a < plans(map, n).len() ==> exists|p: int|
                0 <= p < n && (#[trigger] draw_order()[p]).0 == (#[trigger] plans(map, n)[a]).kind,
        forall|a: int, b: int|
            0 <= a < b < plans(map, n).len() ==> (#[trigger] plans(map, n)[a]).kind != (
            #[trigger] plans(map, n)[b]).kind,
    decreases n,
{
    if n > 0 {
        lemma_plans(map, n - 1);
        let before = plans(map, n - 1);
        let all = plans(map, n);
        let added = draw_order()[n - 1].0;
        assert forall|a: int| 0 <= a < all.len() implies exists|p: int|
            0 <= p < n && (#[trigger] draw_order()[p]).0 == (#[trigger] all[a]).kind by {
            if a < before.len() {
                assert(all[a] == before[a]);
                let p = choose|p: int|
                    0 <= p < n - 1 && (#[trigger] draw_order()[p]).0 == before[a].kind;
                assert(draw_order()[p].0 == all[a].kind);
            } else {
                assert(draw_order()[n - 1].0 == all[a].kind);
            }
        }
        assert forall|a: int, b: int| 0 <= a < b < all.len() implies (#[trigger] all[a]).kind != (
        #[trigger] all[b]).kind by {
            assert(all[a] == before[a]);
            if b < before.len() {
                assert(all[b] == before[b]);
            } else {
                let p = choose|p: int|
                    0 <= p < n - 1 && (#[trigger] draw_order()[p]).0 == before[a].kind;
                lemma_order_is_distinct(p, n - 1);
            }
        }
    }
}

proof fn lemma_order_is_distinct(p: int, q: int)
    requires
        0 <= p < q < 12,
    ensures
        draw_order()[p].0 != draw_order()[q].0,
{
}

proof fn lemma_plan_of(map: MapData, place: int, n: int)
    requires
        0 <= place < n <= 12,
        members(map, draw_order()[place].0).len() > 0,
    ensures
        exists|j: int|
            0 <= j < plans(map, n).len() && (#[trigger] plans(map, n)[j]).kind
                == draw_order()[place].0 && plans(map, n)[j].members == members(
                map,
                draw_order()[place].0,
            ),
    decreases n,
{
    let before = plans(map, n - 1);
    let all = plans(map, n);
    let kind = draw_order()[place].0;
    if place < n - 1 {
        lemma_plan_of(map, place, n - 1);
        let j = choose|j: int|
            0 <= j < before.len() && (#[trigger] before[j]).kind == kind && before[j].members
                == members(map, kind);
        assert(all[j] == before[j]);
    } else {
        assert(all[before.len() as int].kind == kind);
    }
}

// ---------- the graticule ----------

/// The intervals of the graticule, in hundredths of a degree.
pub open spec fn graticule_steps() -> Seq<u64> {
    seq![1u64, 2, 5, 10, 25, 50, 100, 200, 500]
}

/// Whether lines at an interval, in hundredths of a degree, are at least 110 pixels apart in a
/// view that is some metres and some pixels high; a degree is 111320 metres.
pub open spec fn graticule_fits(step: u64, view_m: u64, view_px: u32) -> bool {
    step * 111_320 * (if view_px > 0 { view_px as int } else { 1 }) >= view_m * 11_000
}

/// The first interval, from index `i` on, at which lines are far enough apart; the widest one
/// where none is.
pub open spec fn graticule_step_from(view_m: u64, view_px: u32, i: int) -> u64
    decreases 9 - i,
{
    if i < 0 || i >= 9 {
        500
    } else if graticule_fits(graticule_steps()[i], view_m, view_px) {
        graticule_steps()[i]
    } else {
        graticule_step_from(view_m, view_px, i + 1)
    }
}

/// The interval of the graticule, in hundredths of a degree, for a view that is some metres and
/// some pixels high.
pub fn graticule_step_for_view(view_m: u64, view_px: u32) -> (r: u64)
    ensures
        r == graticule_step_from(view_m, view_px, 0),
        1 <= r <= 500,
{
    let steps: [u64; 9] = [1, 2, 5, 10, 25, 50, 100, 200, 500];
    assert(steps@ =~= graticule_steps());
    let px: u128 = if view_px > 0 { view_px as u128 } else { 1 };
    let need: u128 = view_m as u128 * 11_000;
    let mut i: usize = 0;
    while i < 9
        invariant
            i <= 9,
            steps@ == graticule_steps(),
            px == if view_px > 0 { view_px as int } else { 1 },
            need == view_m * 11_000,
            graticule_step_from(view_m, view_px, 0) == graticule_step_from(
                view_m,
                view_px,
                i as int,
            ),
        decreases 9 - i,
    {
        let s: u64 = steps[i];
        proof {
            assert(1 <= graticule_steps()[i as int] <= 500);
            assert(s * 111_320 * px <= 0xffff_ffff_ffff_ffff) by (nonlinear_arith)
                requires
                    s <= 500,
                    px <= 0xffff_ffff,
            ;
        }
        if s as u128 * 111_320 * px >= need {
            return s;
        }
        i = i + 1;
    }
    500
}

/// A closer view never has wider intervals.
pub proof fn graticule_narrows_with_the_view(a: u64, b: u64, view_px: u32, i: int)
    requires
        a <= b,
        0 <= i <= 9,
    ensures
        graticule_step_from(a, view_px, i) <= graticule_step_from(b, view_px, i),
    decreases 9 - i,
{
    if i < 9 {
        graticule_narrows_with_the_view(a, b, view_px, i + 1);
        if graticule_fits(graticule_steps()[i], a, view_px) {
            lemma_step_at_least(b, view_px, i);
        }
    }
}

proof fn lemma_step_at_least(view_m: u64, view_px: u32, i: int)
    requires
        0 <= i < 9,
    ensures
        graticule_steps()[i] <= graticule_step_from(view_m, view_px, i),
    decreases 9 - i,
{
    let s = graticule_steps();
    assert(s[0] == 1 && s[1] == 2 && s[2] == 5 && s[3] == 10 && s[4] == 25 && s[5] == 50 && s[6]
        == 100 && s[7] == 200 && s[8] == 500);
    if !graticule_fits(graticule_steps()[i], view_m, view_px) && i + 1 < 9 {
        lemma_step_at_least(view_m, view_px, i + 1);
    } else {
        reveal_with_fuel(graticule_step_from, 3);
    }
}

/// The multiples of an interval between two bounds, both included.
pub open spec fn multiples(min: int, max: int, step: int) -> Seq<int> {
    let first = -((-min) / step) * step;
    Seq::new(
        (if max < first { 0int } else { (max - first) / step + 1 }) as nat,
        |i: int| first + i * step,
    )
}

/// Numbers as integers.
pub open spec fn values(s: Seq<i64>) -> Seq<int> {
    s.map_values(|v: i64| v as int)
}

/// The parallels or meridians of the graticule between two bounds: the multiples of an interval.
/// Angles are in millionths of a degree.
pub fn graticule_values(min: i64, max: i64, step: i64) -> (r: Vec<i64>)
    requires
        0 < step <= 5_000_000,
        -1_000_000_000 <= min <= 1_000_000_000,
        -1_000_000_000 <= max <= 1_000_000_000,
    ensures
        values(r@) == multiples(min as int, max as int, step as int),
{
    let quotient: i128 = crate::timeline::floor_div(-(min as i128), step as i128);
    let ghost all = multiples(min as int, max as int, step as int);
    let ghost first = -((-(min as int)) / (step as int)) * step;
    proof {
        let m = -(min as int);
        vstd::arithmetic::div_mod::lemma_fundamental_div_mod(m, step as int);
        vstd::arithmetic::div_mod::lemma_mod_bound(m, step as int);
        assert(-(quotient as int) * step == -(step * quotient)) by (nonlinear_arith);
        assert(min <= first < min + step);
        assert(-1_000_000_001 <= quotient <= 1_000_000_001) by (nonlinear_arith)
            requires
                m == step * quotient + m % (step as int),
                0 <= m % (step as int) < step,
                -1_000_000_000 <= m <= 1_000_000_000,
                step >= 1,
        ;
    }
    let mut v: i64 = -(quotient as i64) * step;
    let mut out: Vec<i64> = Vec::new();
    proof {
        if max >= first {
            let gap = max - first;
            vstd::arithmetic::div_mod::lemma_fundamental_div_mod(gap, step as int);
            vstd::arithmetic::div_mod::lemma_mod_bound(gap, step as int);
            vstd::arithmetic::div_mod::lemma_div_pos_is_pos(gap, step as int);
        }
        assert(first + 0 * step == first);
    }
    while v <= max
        invariant
            0 < step <= 5_000_000,
            -1_000_000_000 <= max <= 1_000_000_000,
            all == multiples(min as int, max as int, step as int),
            first == -((-(min as int)) / (step as int)) * step,
            -1_000_000_000 <= first,
            v == first + out@.len() * step,
            v <= 1_010_000_000,
            out@.len() <= all.len(),
            values(out@) =~= all.take(out@.len() as int),
        decreases max - v + 5_000_000,
    {
        let ghost n = out@.len() as int;
        let ghost before = out@;
        proof {
            let gap = max - first;
            vstd::arithmetic::div_mod::lemma_fundamental_div_mod(gap, step as int);
            vstd::arithmetic::div_mod::lemma_mod_bound(gap, step as int);
            assert(0 <= n * step) by (nonlinear_arith)
                requires
                    0 <= n,
                    0 < step,
            ;
            assert(n <= gap / (step as int)) by (nonlinear_arith)
                requires
                    n * step <= gap,
                    gap < step * (gap / (step as int)) + step,
                    step > 0,
            ;
            assert(all[n] == v);
            assert((n + 1) * step == n * step + step) by (nonlinear_arith);
        }
        out.push(v);
        assert(values(out@) =~= values(before).push(v as int));
        v = v + step;
    }
    proof {
        let n = out@.len() as int;
        if max >= first {
            let gap = max - first;
            vstd::arithmetic::div_mod::lemma_fundamental_div_mod(gap, step as int);
            vstd::arithmetic::div_mod::lemma_mod_bound(gap, step as int);
            assert(n >= gap / (step as int) + 1) by (nonlinear_arith)
                requires
                    n * step > gap,
                    gap >= step * (gap / (step as int)),
                    step > 0,
            ;
        }
        assert(all.take(n) =~= all);
    }
    out
}

/// Whether the graticule has to be drawn anew: its interval changes, or the view has moved by more
/// than half of its greater side. Lengths are in centimetres.
pub open spec fn stale(
    old_step: u64,
    step: u64,
    old_center: Point,
    center: Point,
    view_w: u32,
    view_h: u32,
) -> bool {
    old_step != step || 4 * distance2(old_center, center) > (if view_w > view_h {
        view_w * view_w
    } else {
        view_h * view_h
    })
}

/// Whether the graticule has to be drawn anew.
pub fn graticule_stale(
    old_step: u64,
    step: u64,
    old_center: Point,
    center: Point,
    view_w: u32,
    view_h: u32,
) -> (r: bool)
    ensures
        r == stale(old_step, step, old_center, center, view_w, view_h),
{
    let side: i128 = if view_w > view_h { view_w as i128 } else { view_h as i128 };
    proof {
        assert(0 <= side * side <= 0x1_0000_0000_0000_0000) by (nonlinear_arith)
            requires
                0 <= side <= 0xffff_ffff,
        ;
        let dx = old_center.x - center.x;
        let dy = old_center.y - center.y;
        assert(0 <= dx * dx <= 0x1_0000_0000_0000_0000) by (nonlinear_arith)
            requires
                -0x1_0000_0000 <= dx <= 0x1_0000_0000,
        ;
        assert(0 <= dy * dy <= 0x1_0000_0000_0000_0000) by (nonlinear_arith)
            requires
                -0x1_0000_0000 <= dy <= 0x1_0000_0000,
        ;
    }
    old_step != step || 4 * distance_squared(old_center, center) > side * side
}

} // verus!
