//! Laws of drawing vector tiles: how geometries, tags, features and layers become areas and lines.

use vstd::prelude::*;

use crate::extract::{LineKind, LineView, PolyKind, PolyView};
use crate::geo::{doubled_area, magnitude, Point};
use crate::mvt::{
    feature_parts, holes_of, layer_parts, packed_from, paths_of, pen_from, pen_moves, points,
    prop_of, raw_feature, raw_layer, resolve_tags, rings_of, shape, signed_value, text_of,
    tile_parts, value_from, zigzag_code, zigzag_value, FeatureView, Field, LayerView, Payload, Pen,
    Shape, TagValueView,
};

verus! {

// ---------- features ----------

/// The points of a ring of coordinate pairs, one for one.
pub open spec fn as_points(ring: Seq<(i32, i32)>) -> Seq<Point> {
    Seq::new(ring.len(), |i: int| Point { x: ring[i].0, y: ring[i].1 })
}

proof fn lemma_points(ring: Seq<(i32, i32)>)
    ensures
        points(ring) == as_points(ring),
{
    assert(points(ring) =~= as_points(ring));
}

/// The lines of a feature that is drawn as a path are, in order, those rings of its geometry that have
/// two or more points, of whatever length, each with all of its points.
pub proof fn paths_have_all_lines(layer: Seq<char>, f: FeatureView, kind: LineKind, width: u32)
    requires
        shape(layer, f) == Shape::Path(kind, width),
        rings_of(f.geometry) is Some,
    ensures
        feature_parts(layer, f) is Some,
        feature_parts(layer, f)->Some_0.0.len() == 0,
        feature_parts(layer, f)->Some_0.1 == rings_of(f.geometry)->Some_0.filter(
            |r: Seq<(i32, i32)>| r.len() >= 2,
        ).map_values(
            |r: Seq<(i32, i32)>| LineView { kind, pts: as_points(r), width },
        ),
{
    let rings = rings_of(f.geometry)->Some_0;
    lemma_paths(rings, kind, width, rings.len() as int);
    assert(rings.take(rings.len() as int) =~= rings);
}

proof fn lemma_paths(rings: Seq<Seq<(i32, i32)>>, kind: LineKind, width: u32, n: int)
    requires
        0 <= n <= rings.len(),
    ensures
        paths_of(rings, kind, width, n) == rings.take(n).filter(
            |r: Seq<(i32, i32)>| r.len() >= 2,
        ).map_values(
            |r: Seq<(i32, i32)>| LineView { kind, pts: as_points(r), width },
        ),
    decreases n,
{
    reveal(Seq::filter);
    let part = rings.take(n);
    if n > 0 {
        lemma_paths(rings, kind, width, n - 1);
        lemma_points(rings[n - 1]);
        assert(part.drop_last() =~= rings.take(n - 1));
        assert(part.last() == rings[n - 1]);
        let test = |r: Seq<(i32, i32)>| r.len() >= 2;
        let before = rings.take(n - 1).filter(test);
        if rings[n - 1].len() >= 2 {
            assert(part.filter(test) =~= before.push(rings[n - 1]));
        }
    }
    assert(paths_of(rings, kind, width, n) =~= part.filter(
        |r: Seq<(i32, i32)>| r.len() >= 2,
    ).map_values(|r: Seq<(i32, i32)>| LineView { kind, pts: as_points(r), width }));
}

/// A feature that is drawn as an area is one area with its first ring as the outline, where that has
/// three or more points, and the rings behind it that are smaller as holes, in order; otherwise it is
/// none.
pub proof fn areas_have_all_holes(layer: Seq<char>, f: FeatureView, kind: PolyKind)
    requires
        shape(layer, f) == Shape::Area(kind),
        rings_of(f.geometry) is Some,
    ensures
        ({
            let rings = rings_of(f.geometry)->Some_0;
            let outer = as_points(rings[0]);
            let drawn = feature_parts(layer, f)->Some_0;
            &&& feature_parts(layer, f) is Some
            &&& drawn.1.len() == 0
            &&& rings.len() == 0 || rings[0].len() < 3 ==> drawn.0.len() == 0
            &&& rings.len() > 0 && rings[0].len() >= 3 ==> {
                &&& drawn.0.len() == 1
                &&& drawn.0[0].kind == kind
                &&& drawn.0[0].outer == outer
                &&& drawn.0[0].holes == rings.skip(1).map_values(
                    |r: Seq<(i32, i32)>| as_points(r),
                ).filter(
                    |h: Seq<Point>| magnitude(doubled_area(h)) < magnitude(doubled_area(outer)),
                )
            }
        }),
{
    let rings = rings_of(f.geometry)->Some_0;
    if rings.len() > 0 {
        lemma_points(rings[0]);
        lemma_holes(rings, rings.len() as int);
        assert(rings.subrange(1, rings.len() as int) =~= rings.skip(1));
    }
}

proof fn lemma_holes(rings: Seq<Seq<(i32, i32)>>, n: int)
    requires
        1 <= n <= rings.len(),
    ensures
        ({
            let outer = as_points(rings[0]);
            holes_of(rings, n) == rings.subrange(1, n).map_values(
                |r: Seq<(i32, i32)>| as_points(r),
            ).filter(|h: Seq<Point>| magnitude(doubled_area(h)) < magnitude(doubled_area(outer)))
        }),
    decreases n,
{
    reveal(Seq::filter);
    lemma_points(rings[0]);
    let outer = as_points(rings[0]);
    let test = |h: Seq<Point>| magnitude(doubled_area(h)) < magnitude(doubled_area(outer));
    let all = rings.subrange(1, n).map_values(|r: Seq<(i32, i32)>| as_points(r));
    if n > 1 {
        lemma_holes(rings, n - 1);
        lemma_points(rings[n - 1]);
        let before = rings.subrange(1, n - 1).map_values(|r: Seq<(i32, i32)>| as_points(r));
        assert(all.drop_last() =~= before);
        assert(all.last() == as_points(rings[n - 1]));
    }
    assert(holes_of(rings, n) =~= all.filter(test));
}

/// Whether what one part draws and what another one draws make up what both draw.
pub open spec fn drawn_after(
    a: Option<(Seq<PolyView>, Seq<LineView>)>,
    b: Option<(Seq<PolyView>, Seq<LineView>)>,
    both: Option<(Seq<PolyView>, Seq<LineView>)>,
) -> bool {
    match (a, b) {
        (Some(x), Some(y)) => both == Some((x.0 + y.0, x.1 + y.1)),
        _ => both is None,
    }
}

/// A tile is drawn layer by layer: the layers of two tiles together draw what those of the first draw
/// and then what those of the second draw.
pub proof fn tiles_are_drawn_layer_by_layer(a: Seq<LayerView>, b: Seq<LayerView>)
    ensures
        drawn_after(
            tile_parts(a, a.len() as int),
            tile_parts(b, b.len() as int),
            tile_parts(a + b, (a + b).len() as int),
        ),
{
    lemma_tiles(a, b, b.len() as int);
}

proof fn lemma_tile_prefix(a: Seq<LayerView>, b: Seq<LayerView>, n: int)
    requires
        0 <= n <= a.len(),
    ensures
        tile_parts(a + b, n) == tile_parts(a, n),
    decreases n,
{
    if n > 0 {
        lemma_tile_prefix(a, b, n - 1);
        assert((a + b)[n - 1] == a[n - 1]);
    }
}

proof fn lemma_tiles(a: Seq<LayerView>, b: Seq<LayerView>, n: int)
    requires
        0 <= n <= b.len(),
    ensures
        drawn_after(
            tile_parts(a, a.len() as int),
            tile_parts(b, n),
            tile_parts(a + b, a.len() + n),
        ),
    decreases n,
{
    if n == 0 {
        lemma_tile_prefix(a, b, a.len() as int);
        if let Some(x) = tile_parts(a, a.len() as int) {
            assert(x.0 + Seq::<PolyView>::empty() =~= x.0);
            assert(x.1 + Seq::<LineView>::empty() =~= x.1);
        }
    } else {
        lemma_tiles(a, b, n - 1);
        assert((a + b)[a.len() + n - 1] == b[n - 1]);
        let now = layer_parts(b[n - 1], b[n - 1].features.len() as int);
        if tile_parts(a, a.len() as int) is Some && tile_parts(b, n - 1) is Some && now is Some {
            let x = tile_parts(a, a.len() as int)->Some_0;
            let y = tile_parts(b, n - 1)->Some_0;
            let z = now->Some_0;
            assert((x.0 + y.0) + z.0 =~= x.0 + (y.0 + z.0));
            assert((x.1 + y.1) + z.1 =~= x.1 + (y.1 + z.1));
        }
    }
}

/// A layer with the features of two layers of its name.
pub open spec fn with_features(l: LayerView, features: Seq<FeatureView>) -> LayerView {
    LayerView { features, ..l }
}

/// A layer is drawn feature by feature, and a layer of one feature draws that feature.
pub proof fn layers_are_drawn_feature_by_feature(
    l: LayerView,
    a: Seq<FeatureView>,
    b: Seq<FeatureView>,
    f: FeatureView,
)
    ensures
        drawn_after(
            layer_parts(with_features(l, a), a.len() as int),
            layer_parts(with_features(l, b), b.len() as int),
            layer_parts(with_features(l, a + b), (a + b).len() as int),
        ),
        layer_parts(with_features(l, seq![f]), 1) == feature_parts(l.name, f),
        tile_parts(seq![l], 1) == layer_parts(l, l.features.len() as int),
{
    lemma_layers(l, a, b, b.len() as int);
    assert(layer_parts(with_features(l, seq![f]), 0) == Some(
        (Seq::<PolyView>::empty(), Seq::<LineView>::empty()),
    ));
    if let Some(x) = feature_parts(l.name, f) {
        assert(Seq::<PolyView>::empty() + x.0 =~= x.0);
        assert(Seq::<LineView>::empty() + x.1 =~= x.1);
    }
    assert(tile_parts(seq![l], 0) == Some((Seq::<PolyView>::empty(), Seq::<LineView>::empty())));
    if let Some(x) = layer_parts(l, l.features.len() as int) {
        assert(Seq::<PolyView>::empty() + x.0 =~= x.0);
        assert(Seq::<LineView>::empty() + x.1 =~= x.1);
    }
}

proof fn lemma_layer_prefix(l: LayerView, a: Seq<FeatureView>, b: Seq<FeatureView>, n: int)
    requires
        0 <= n <= a.len(),
    ensures
        layer_parts(with_features(l, a + b), n) == layer_parts(with_features(l, a), n),
    decreases n,
{
    if n > 0 {
        lemma_layer_prefix(l, a, b, n - 1);
        assert((a + b)[n - 1] == a[n - 1]);
    }
}

proof fn lemma_layers(l: LayerView, a: Seq<FeatureView>, b: Seq<FeatureView>, n: int)
    requires
        0 <= n <= b.len(),
    ensures
        drawn_after(
            layer_parts(with_features(l, a), a.len() as int),
            layer_parts(with_features(l, b), n),
            layer_parts(with_features(l, a + b), a.len() + n),
        ),
    decreases n,
{
    if n == 0 {
        lemma_layer_prefix(l, a, b, a.len() as int);
        if let Some(x) = layer_parts(with_features(l, a), a.len() as int) {
            assert(x.0 + Seq::<PolyView>::empty() =~= x.0);
            assert(x.1 + Seq::<LineView>::empty() =~= x.1);
        }
    } else {
        lemma_layers(l, a, b, n - 1);
        assert((a + b)[a.len() + n - 1] == b[n - 1]);
        let now = feature_parts(l.name, b[n - 1]);
        let first = layer_parts(with_features(l, a), a.len() as int);
        let second = layer_parts(with_features(l, b), n - 1);
        if first is Some && second is Some && now is Some {
            let x = first->Some_0;
            let y = second->Some_0;
            let z = now->Some_0;
            assert((x.0 + y.0) + z.0 =~= x.0 + (y.0 + z.0));
            assert((x.1 + y.1) + z.1 =~= x.1 + (y.1 + z.1));
        }
    }
}

/// A feature that is not drawn draws nothing, whatever its geometry.
pub proof fn skipped_features_draw_nothing(layer: Seq<char>, f: FeatureView)
    requires
        shape(layer, f) == Shape::Skip,
    ensures
        feature_parts(layer, f) is Some,
        feature_parts(layer, f)->Some_0.0.len() == 0,
        feature_parts(layer, f)->Some_0.1.len() == 0,
{
}

// ---------- geometries ----------

/// The two numbers of a step from one position to another.
pub open spec fn step(from: (i32, i32), to: (i32, i32)) -> Seq<u32> {
    seq![zigzag_code(to.0 - from.0) as u32, zigzag_code(to.1 - from.1) as u32]
}

/// Whether a step between positions can be written.
pub open spec fn can_step(from: (i32, i32), to: (i32, i32)) -> bool {
    i32::MIN <= to.0 - from.0 <= i32::MAX && i32::MIN <= to.1 - from.1 <= i32::MAX
}

/// The steps from a position through points, one after the other.
pub open spec fn steps_through(from: (i32, i32), pts: Seq<(i32, i32)>) -> Seq<u32>
    decreases pts.len(),
{
    if pts.len() == 0 {
        Seq::empty()
    } else {
        step(from, pts[0]) + steps_through(pts[0], pts.skip(1))
    }
}

/// Whether the steps from a position through points can be written.
pub open spec fn can_go(from: (i32, i32), pts: Seq<(i32, i32)>) -> bool
    decreases pts.len(),
{
    pts.len() > 0 ==> can_step(from, pts[0]) && can_go(pts[0], pts.skip(1))
}

/// A line, and whether it is closed.
pub struct Stroke {
    pub pts: Seq<(i32, i32)>,
    pub closed: bool,
}

/// The commands that draw strokes from a position on: for each the pen is moved to the first point,
/// drawn through the others, and the ring is closed where the stroke is.
pub open spec fn commands(from: (i32, i32), strokes: Seq<Stroke>) -> Seq<u32>
    decreases strokes.len(),
{
    if strokes.len() == 0 {
        Seq::empty()
    } else {
        let s = strokes[0];
        let draw = seq![9u32] + step(from, s.pts[0]) + seq![(8 * (s.pts.len() - 1) + 2) as u32]
            + steps_through(s.pts[0], s.pts.skip(1));
        let close = if s.closed { seq![15u32] } else { Seq::empty() };
        draw + close + commands(s.pts.last(), strokes.skip(1))
    }
}

/// Whether strokes can be drawn from a position on: each has two or more points, not more than a
/// command can count, and steps that can be written.
pub open spec fn can_draw(from: (i32, i32), strokes: Seq<Stroke>) -> bool
    decreases strokes.len(),
{
    strokes.len() > 0 ==> {
        let s = strokes[0];
        &&& 2 <= s.pts.len() <= 0x1000_0000
        &&& can_go(from, s.pts)
        &&& can_draw(s.pts.last(), strokes.skip(1))
    }
}

/// The ring that a stroke is read as: its points, and the first one again where it is closed.
pub open spec fn ring_of_stroke(s: Stroke) -> Seq<(i32, i32)> {
    if s.closed {
        s.pts.push(s.pts[0])
    } else {
        s.pts
    }
}

proof fn lemma_step(from: (i32, i32), to: (i32, i32))
    requires
        can_step(from, to),
    ensures
        step(from, to).len() == 2,
        zigzag_value(step(from, to)[0] as int) == to.0 - from.0,
        zigzag_value(step(from, to)[1] as int) == to.1 - from.1,
{
    let (x, y) = (to.0 - from.0, to.1 - from.1);
    assert(0 <= zigzag_code(x) <= u32::MAX && 0 <= zigzag_code(y) <= u32::MAX);
    assert(step(from, to)[0] as int == zigzag_code(x));
    assert(step(from, to)[1] as int == zigzag_code(y));
}

#[verifier::spinoff_prover]
proof fn lemma_draws(before: Seq<u32>, pen: Pen, pts: Seq<(i32, i32)>, rest: Seq<u32>)
    requires
        can_go((pen.x, pen.y), pts),
    ensures
        ({
            let g = before + steps_through((pen.x, pen.y), pts) + rest;
            let last = if pts.len() > 0 { pts.last() } else { (pen.x, pen.y) };
            pen_moves(g, before.len() as int, pts.len(), pen, false) == Some(
                (
                    Pen { rings: pen.rings, current: pen.current + pts, x: last.0, y: last.1 },
                    before.len() + steps_through((pen.x, pen.y), pts).len() as int,
                ),
            )
        }),
    decreases pts.len(),
{
    let from = (pen.x, pen.y);
    let all = steps_through(from, pts);
    let g = before + all + rest;
    let i = before.len() as int;
    if pts.len() == 0 {
        assert(pen.current + pts =~= pen.current);
    } else {
        let s = step(from, pts[0]);
        let tail = steps_through(pts[0], pts.skip(1));
        let next = pen.moved(pts[0].0, pts[0].1, false);
        assert(g[i] == s[0] && g[i + 1] == s[1]);
        lemma_step(from, pts[0]);
        assert(zigzag_value(g[i] as int) == pts[0].0 - pen.x);
        assert(zigzag_value(g[i + 1] as int) == pts[0].1 - pen.y);
        lemma_draws(before + s, next, pts.skip(1), rest);
        assert((before + s) + tail + rest =~= g);
        assert(next.current + pts.skip(1) =~= pen.current + pts);
        if pts.len() > 1 {
            assert(pts.skip(1).last() == pts.last());
        }
    }
}

/// The commands of one stroke.
spec fn stroke_commands(from: (i32, i32), s: Stroke) -> Seq<u32> {
    seq![9u32] + step(from, s.pts[0]) + seq![(8 * (s.pts.len() - 1) + 2) as u32] + steps_through(
        s.pts[0],
        s.pts.skip(1),
    ) + (if s.closed { seq![15u32] } else { Seq::empty() })
}

/// The pen after a stroke.
spec fn after_stroke(pen: Pen, s: Stroke) -> Pen {
    let drawn = Pen {
        rings: pen.finished(),
        current: s.pts,
        x: s.pts.last().0,
        y: s.pts.last().1,
    };
    if s.closed {
        drawn.closed()
    } else {
        drawn
    }
}

proof fn lemma_lift(before: Seq<u32>, pen: Pen, to: (i32, i32), rest: Seq<u32>)
    requires
        can_step((pen.x, pen.y), to),
    ensures
        ({
            let g = before + (seq![9u32] + step((pen.x, pen.y), to)) + rest;
            pen_from(g, before.len() as int, pen) == pen_from(
                g,
                before.len() as int + 3,
                pen.moved(to.0, to.1, true),
            )
        }),
{
    let from = (pen.x, pen.y);
    let g = before + (seq![9u32] + step(from, to)) + rest;
    let i = before.len() as int;
    assert(g[i] == 9);
    assert(g[i + 1] == step(from, to)[0]);
    assert(g[i + 2] == step(from, to)[1]);
    lemma_step((pen.x, pen.y), to);
    assert(zigzag_value(g[i + 1] as int) == to.0 - pen.x);
    assert(zigzag_value(g[i + 2] as int) == to.1 - pen.y);
    let moved = pen.moved(to.0, to.1, true);
    assert(pen_moves(g, i + 3, 0, moved, true) == Some((moved, i + 3)));
    assert(pen_moves(g, i + 1, 1, pen, true) == Some((moved, i + 3)));
}

proof fn lemma_run(before: Seq<u32>, pen: Pen, pts: Seq<(i32, i32)>, rest: Seq<u32>)
    requires
        1 <= pts.len() <= 0x1000_0000,
        can_go((pen.x, pen.y), pts),
    ensures
        ({
            let run = seq![(8 * pts.len() + 2) as u32] + steps_through((pen.x, pen.y), pts);
            let g = before + run + rest;
            pen_from(g, before.len() as int, pen) == pen_from(
                g,
                (before.len() + run.len()) as int,
                Pen {
                    rings: pen.rings,
                    current: pen.current + pts,
                    x: pts.last().0,
                    y: pts.last().1,
                },
            )
        }),
{
    let count = seq![(8 * pts.len() + 2) as u32];
    let moves = steps_through((pen.x, pen.y), pts);
    let g = before + (count + moves) + rest;
    let i = before.len() as int;
    assert(g[i] == count[0]);
    assert(g[i] % 8 == 2 && g[i] / 8 == pts.len());
    lemma_draws(before + count, pen, pts, rest);
    assert((before + count) + moves + rest =~= g);
}

proof fn lemma_one_stroke(before: Seq<u32>, pen: Pen, s: Stroke, rest: Seq<u32>)
    requires
        2 <= s.pts.len() <= 0x1000_0000,
        can_go((pen.x, pen.y), s.pts),
    ensures
        ({
            let code = stroke_commands((pen.x, pen.y), s);
            let g = before + code + rest;
            pen_from(g, before.len() as int, pen) == pen_from(
                g,
                (before.len() + code.len()) as int,
                after_stroke(pen, s),
            )
        }),
{
    let from = (pen.x, pen.y);
    let first = s.pts[0];
    let others = s.pts.skip(1);
    let head = seq![9u32] + step(from, first);
    let run = seq![(8 * others.len() + 2) as u32] + steps_through(first, others);
    let close = if s.closed { seq![15u32] } else { Seq::<u32>::empty() };
    let g = before + stroke_commands(from, s) + rest;
    assert(stroke_commands(from, s) =~= head + run + close);
    let moved = pen.moved(first.0, first.1, true);
    lemma_lift(before, pen, first, run + close + rest);
    assert(before + head + (run + close + rest) =~= g);
    lemma_run(before + head, moved, others, close + rest);
    assert((before + head) + run + (close + rest) =~= g);
    assert(moved.current + others =~= s.pts);
    assert(others.last() == s.pts.last());
    if s.closed {
        let m = (before.len() + head.len() + run.len()) as int;
        assert(g[m] == 15);
    }
}

proof fn lemma_strokes(before: Seq<u32>, pen: Pen, strokes: Seq<Stroke>)
    requires
        can_draw((pen.x, pen.y), strokes),
    ensures
        ({
            let g = before + commands((pen.x, pen.y), strokes);
            &&& pen_from(g, before.len() as int, pen) is Some
            &&& pen_from(g, before.len() as int, pen)->Some_0.finished() == pen.finished()
                + strokes.map_values(|s: Stroke| ring_of_stroke(s))
        }),
    decreases strokes.len(),
{
    let from = (pen.x, pen.y);
    let g = before + commands(from, strokes);
    let rings = strokes.map_values(|s: Stroke| ring_of_stroke(s));
    if strokes.len() == 0 {
        assert(pen.finished() + rings =~= pen.finished());
    } else {
        let s = strokes[0];
        let later = strokes.skip(1);
        let rest = commands(s.pts.last(), later);
        let code = stroke_commands(from, s);
        let done = after_stroke(pen, s);
        assert(commands(from, strokes) =~= code + rest);
        lemma_one_stroke(before, pen, s, rest);
        assert(before + code + rest =~= g);
        lemma_strokes(before + code, done, later);
        assert((before + code) + rest =~= g);
        let more = later.map_values(|s: Stroke| ring_of_stroke(s));
        assert(done.finished() =~= pen.finished().push(ring_of_stroke(s)));
        assert(rings =~= seq![ring_of_stroke(s)] + more);
        assert(pen.finished().push(ring_of_stroke(s)) + more =~= pen.finished() + rings);
    }
}

/// The commands that draw lines and rings are read as those lines and rings, in order, point for
/// point; a closed one has its first point again at its end.
pub proof fn geometries_read_back(strokes: Seq<Stroke>)
    requires
        can_draw((0, 0), strokes),
    ensures
        rings_of(commands((0, 0), strokes)) == Some(
            strokes.map_values(|s: Stroke| ring_of_stroke(s)),
        ),
{
    let g = commands((0, 0), strokes);
    lemma_strokes(Seq::empty(), Pen::start(), strokes);
    assert(Seq::<u32>::empty() + g =~= g);
    let want = strokes.map_values(|s: Stroke| ring_of_stroke(s));
    assert(Pen::start().finished() + want =~= want);
}

// ---------- values and tags ----------

/// A signed number of 64 bits is read back from its two's complement and from its zigzag code.
pub proof fn signed_numbers_read_back(n: i64, v: u64)
    ensures
        i64::MIN <= signed_value(v) <= i64::MAX,
        signed_value(v) == v || signed_value(v) == v - 0x1_0000_0000_0000_0000,
        n >= 0 ==> signed_value(n as u64) == n,
        n < 0 ==> signed_value((n + 0x1_0000_0000_0000_0000) as u64) == n,
        0 <= zigzag_code(n as int) <= u64::MAX,
        zigzag_value(zigzag_code(n as int)) == n,
        i64::MIN <= zigzag_value(v as int) <= i64::MAX,
        zigzag_code(zigzag_value(v as int)) == v,
        zigzag_value(0) == 0 && zigzag_value(1) == -1 && zigzag_value(2) == 1,
{
}

/// Every pair of indexes stands for the key and the value at those places: all of them where they are
/// there, and each tag in its place.
pub proof fn tags_are_keys_and_values(
    idx: Seq<u32>,
    keys: Seq<Seq<char>>,
    values: Seq<TagValueView>,
    n: int,
)
    requires
        0 <= 2 * n <= idx.len(),
        forall|i: int| 0 <= i < n ==> #[trigger] idx[2 * i] < keys.len() && idx[2 * i + 1]
            < values.len(),
    ensures
        resolve_tags(idx, keys, values, n).len() == n,
        forall|i: int|
            0 <= i < n ==> (#[trigger] resolve_tags(idx, keys, values, n)[i]) == (
                keys[idx[2 * i] as int],
                values[idx[2 * i + 1] as int],
            ),
    decreases n,
{
    if n > 0 {
        tags_are_keys_and_values(idx, keys, values, n - 1);
        assert(idx[2 * (n - 1)] < keys.len() && idx[2 * (n - 1) + 1] < values.len());
    }
}

/// A pair whose key is not there adds no tag, and one whose value is not there adds the empty text.
pub proof fn missing_keys_and_values(
    idx: Seq<u32>,
    keys: Seq<Seq<char>>,
    values: Seq<TagValueView>,
    n: int,
)
    requires
        0 < 2 * n <= idx.len(),
    ensures
        idx[2 * n - 2] >= keys.len() ==> resolve_tags(idx, keys, values, n) == resolve_tags(
            idx,
            keys,
            values,
            n - 1,
        ),
        idx[2 * n - 2] < keys.len() && idx[2 * n - 1] >= values.len() ==> resolve_tags(
            idx,
            keys,
            values,
            n,
        ) == resolve_tags(idx, keys, values, n - 1).push(
            (keys[idx[2 * n - 2] as int], TagValueView::Text(Seq::empty())),
        ),
{
}

/// The text of a key is that of the first tag with it: tags before it have other keys.
pub proof fn the_first_tag_counts(tags: Seq<(Seq<char>, TagValueView)>, key: Seq<char>)
    ensures
        match prop_of(tags, key) {
            None => forall|i: int| 0 <= i < tags.len() ==> (#[trigger] tags[i]).0 != key,
            Some(t) => exists|k: int|
                0 <= k < tags.len() && (#[trigger] tags[k]).0 == key && tags[k].1.text() == t
                    && forall|i: int| 0 <= i < k ==> (#[trigger] tags[i]).0 != key,
        },
    decreases tags.len(),
{
    if tags.len() > 0 && tags[0].0 != key {
        let rest = tags.skip(1);
        the_first_tag_counts(rest, key);
        match prop_of(rest, key) {
            None => {
                assert forall|i: int| 0 <= i < tags.len() implies (#[trigger] tags[i]).0 != key by {
                    if i > 0 {
                        assert(rest[i - 1] == tags[i]);
                    }
                }
            },
            Some(t) => {
                let k = choose|k: int|
                    0 <= k < rest.len() && (#[trigger] rest[k]).0 == key && rest[k].1.text() == t
                        && forall|i: int| 0 <= i < k ==> (#[trigger] rest[i]).0 != key;
                assert(tags[k + 1] == rest[k]);
                assert forall|i: int| 0 <= i < k + 1 implies (#[trigger] tags[i]).0 != key by {
                    if i > 0 {
                        assert(rest[i - 1] == tags[i]);
                    }
                }
            },
        }
    }
}

// ---------- messages ----------

/// A layer of no fields has no name and an extent of 4096.
/// One more field adds its feature, key or value behind the others, or replaces the name or extent;
/// everything else stays.
pub proof fn layers_gather_their_fields(fields: Seq<Field>, f: Field)
    requires
        raw_layer(fields) is Some,
        raw_layer(fields.push(f)) is Some,
    ensures
        ({
            let old = raw_layer(fields)->Some_0;
            let new = raw_layer(fields.push(f))->Some_0;
            let bytes = match f.payload {
                Payload::Bytes(b) => Some(b),
                _ => None,
            };
            &&& new.name == if bytes is Some && f.number == 1 {
                text_of(bytes->Some_0)
            } else {
                old.name
            }
            &&& new.features == if bytes is Some && f.number == 2 {
                old.features + seq![bytes->Some_0]
            } else {
                old.features
            }
            &&& new.keys == if bytes is Some && f.number == 3 {
                old.keys + seq![text_of(bytes->Some_0)]
            } else {
                old.keys
            }
            &&& new.values == if bytes is Some && f.number == 4 {
                old.values + seq![value_from(bytes->Some_0, 0)->Some_0]
            } else {
                old.values
            }
            &&& new.extent == match f.payload {
                Payload::Varint(v) => if f.number == 5 {
                    (v % 0x1_0000_0000) as u32
                } else {
                    old.extent
                },
                _ => old.extent,
            }
        }),
        raw_layer(Seq::empty())->Some_0.extent == 4096,
        raw_layer(Seq::empty())->Some_0.name.len() == 0,
        raw_layer(Seq::empty())->Some_0.features.len() == 0,
        raw_layer(Seq::empty())->Some_0.keys.len() == 0,
        raw_layer(Seq::empty())->Some_0.values.len() == 0,
{
    assert(fields.push(f).drop_last() =~= fields);
    let old = raw_layer(fields)->Some_0;
    let new = raw_layer(fields.push(f))->Some_0;
    if let Payload::Bytes(b) = f.payload {
        if f.number == 2 {
            assert(new.features =~= old.features + seq![b]);
        }
        if f.number == 3 {
            assert(new.keys =~= old.keys + seq![text_of(b)]);
        }
        if f.number == 4 {
            assert(new.values =~= old.values + seq![value_from(b, 0)->Some_0]);
        }
    }
}

/// A feature of no fields has type 0. One more field adds its packed words behind those of the tags or
/// of the geometry, or replaces the type; everything else stays.
pub proof fn features_gather_their_fields(fields: Seq<Field>, f: Field)
    requires
        raw_feature(fields) is Some,
        raw_feature(fields.push(f)) is Some,
    ensures
        ({
            let old = raw_feature(fields)->Some_0;
            let new = raw_feature(fields.push(f))->Some_0;
            let words = match f.payload {
                Payload::Bytes(b) => packed_from(b, 0),
                _ => None,
            };
            &&& new.tag_idx == if f.payload is Bytes && f.number == 2 {
                old.tag_idx + words->Some_0
            } else {
                old.tag_idx
            }
            &&& new.geometry == if f.payload is Bytes && f.number == 4 {
                old.geometry + words->Some_0
            } else {
                old.geometry
            }
            &&& new.geom_type == match f.payload {
                Payload::Varint(v) => if f.number == 3 {
                    (v % 0x1_0000_0000) as u32
                } else {
                    old.geom_type
                },
                _ => old.geom_type,
            }
        }),
        raw_feature(Seq::empty())->Some_0.geom_type == 0,
        raw_feature(Seq::empty())->Some_0.geometry.len() == 0,
        raw_feature(Seq::empty())->Some_0.tag_idx.len() == 0,
{
    assert(fields.push(f).drop_last() =~= fields);
}

} // verus!
