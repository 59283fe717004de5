//! Laws of areas: how they are measured, which points they contain, and how holes and outlines
//! belong together.

use vstd::prelude::*;

use crate::extract::{
    areas, big_rings, cutout, hole_belongs_to_smallest_outline, holes_in, member_ids, outline,
    outlines, owner, PolyKind,
};
use crate::geo::{cross, crosses, crossings, doubled_area, edge_sum, inside, magnitude, Point};

verus! {

// ---------- measuring ----------

/// On which side of the line from `a` to `b` a point is: positive to the left, negative to the right.
pub open spec fn side_of(a: Point, b: Point, p: Point) -> int {
    (b.x - a.x) * (p.y - a.y) - (b.y - a.y) * (p.x - a.x)
}

proof fn lemma_prefix_sum(a: Seq<Point>, b: Seq<Point>, n: int)
    requires
        0 <= n < a.len(),
        n < b.len(),
        forall|i: int| 0 <= i <= n ==> #[trigger] a[i] == b[i],
    ensures
        edge_sum(a, n) == edge_sum(b, n),
    decreases n,
{
    if n > 0 {
        lemma_prefix_sum(a, b, n - 1);
        vstd::arithmetic::div_mod::lemma_small_mod(n as nat, a.len());
        vstd::arithmetic::div_mod::lemma_small_mod(n as nat, b.len());
        assert(a[n - 1] == b[n - 1] && a[n] == b[n]);
    }
}

proof fn lemma_three_crosses(l: Point, p: Point, f: Point)
    ensures
        cross(l, p) + cross(p, f) - cross(l, f) == side_of(l, p, f),
        cross(f, l) == -cross(l, f),
{
    let (lx, ly, px, py, fx, fy) = (
        l.x as int,
        l.y as int,
        p.x as int,
        p.y as int,
        f.x as int,
        f.y as int,
    );
    assert((lx * py - px * ly) + (px * fy - fx * py) - (lx * fy - fx * ly) == (px - lx) * (fy - ly)
        - (py - ly) * (fx - lx)) by (nonlinear_arith);
    assert(fx * ly - lx * fy == -(lx * fy - fx * ly)) by (nonlinear_arith);
}

/// A point put behind the last point of a ring adds the triangle that it makes with the last and the
/// first point: so does the area of a ring of any length follow from that of triangles.
pub proof fn areas_grow_by_triangles(ring: Seq<Point>, p: Point)
    requires
        ring.len() >= 2,
    ensures
        ring.len() == 2 ==> doubled_area(ring) == 0,
        doubled_area(ring.push(p)) == doubled_area(ring) + side_of(ring.last(), p, ring.first()),
{
    let n = ring.len() as int;
    let more = ring.push(p);
    vstd::arithmetic::div_mod::lemma_mod_self_0(n);
    vstd::arithmetic::div_mod::lemma_mod_self_0(n + 1);
    vstd::arithmetic::div_mod::lemma_small_mod(n as nat, (n + 1) as nat);
    lemma_prefix_sum(ring, more, n - 1);
    lemma_three_crosses(ring.last(), p, ring.first());
    assert(more[n] == p && more[n - 1] == ring.last() && more[0] == ring.first());
    assert(edge_sum(more, n) == edge_sum(more, n - 1) + cross(more[n - 1], more[n]));
    assert(edge_sum(more, n + 1) == edge_sum(more, n) + cross(more[n], more[0]));
    if n == 2 {
        vstd::arithmetic::div_mod::lemma_small_mod(1, 2);
        assert(edge_sum(ring, 1) == edge_sum(ring, 0) + cross(ring[0], ring[1]));
        assert(edge_sum(ring, 0) == 0);
    } else {
        assert(edge_sum(ring, n) == edge_sum(ring, n - 1) + cross(ring[n - 1], ring[0]));
    }
}

/// A rectangle that turns counter-clockwise has twice the product of its sides.
pub proof fn rectangles_have_their_area(x0: i32, y0: i32, x1: i32, y1: i32)
    ensures
        doubled_area(
            seq![
                Point { x: x0, y: y0 },
                Point { x: x1, y: y0 },
                Point { x: x1, y: y1 },
                Point { x: x0, y: y1 },
            ],
        ) == 2 * ((x1 - x0) * (y1 - y0)),
{
    let a = Point { x: x0, y: y0 };
    let b = Point { x: x1, y: y0 };
    let c = Point { x: x1, y: y1 };
    let d = Point { x: x0, y: y1 };
    areas_grow_by_triangles(seq![a, b], c);
    assert(seq![a, b].push(c) =~= seq![a, b, c]);
    areas_grow_by_triangles(seq![a, b, c], d);
    assert(seq![a, b, c].push(d) =~= seq![a, b, c, d]);
    let (w, h) = (x1 - x0, y1 - y0);
    assert(side_of(b, c, a) == w * h) by {
        assert((x1 - x1) * (y0 - y0) - (y1 - y0) * (x0 - x1) == (x1 - x0) * (y1 - y0))
            by (nonlinear_arith);
    }
    assert(side_of(c, d, a) == w * h) by {
        assert((x0 - x1) * (y0 - y1) - (y1 - y1) * (x0 - x1) == (x1 - x0) * (y1 - y0))
            by (nonlinear_arith);
    }
}

// ---------- containing ----------

/// An edge is met by the ray to the east where it rises past the height of the point with the point on
/// its left, or falls past it with the point on its right: from whichever end it is drawn.
pub proof fn rays_meet_edges(p: Point, a: Point, b: Point)
    ensures
        crosses(p, a, b) == crosses(p, b, a),
        crosses(p, a, b) <==> (a.y <= p.y < b.y && side_of(a, b, p) > 0) || (b.y <= p.y < a.y
            && side_of(a, b, p) < 0),
        side_of(b, a, p) == -side_of(a, b, p),
{
    let (ax, ay, bx, by, px, py) = (
        a.x as int,
        a.y as int,
        b.x as int,
        b.y as int,
        p.x as int,
        p.y as int,
    );
    assert((ax - bx) * (py - by) - (ay - by) * (px - bx) == -((bx - ax) * (py - ay) - (by - ay) * (px
        - ax))) by (nonlinear_arith);
    assert((px - ax) * (by - ay) == (by - ay) * (px - ax)) by (nonlinear_arith);
    assert((px - bx) * (ay - by) == (ay - by) * (px - bx)) by (nonlinear_arith);
}

proof fn lemma_prefix_crossings(p: Point, a: Seq<Point>, b: Seq<Point>, n: int)
    requires
        1 <= n <= a.len(),
        n <= b.len(),
        forall|i: int| 0 <= i < n ==> #[trigger] a[i] == b[i],
    ensures
        crossings(p, a, n) - crossings(p, a, 1) == crossings(p, b, n) - crossings(p, b, 1),
    decreases n,
{
    if n > 1 {
        lemma_prefix_crossings(p, a, b, n - 1);
        assert(a[n - 1] == b[n - 1] && a[n - 2] == b[n - 2]);
    }
}

spec fn hits(p: Point, a: Point, b: Point) -> int {
    if crosses(p, a, b) {
        1
    } else {
        0
    }
}

proof fn lemma_first_crossing(p: Point, ring: Seq<Point>)
    requires
        ring.len() >= 1,
    ensures
        crossings(p, ring, 1) == hits(p, ring[0], ring.last()),
{
    assert(crossings(p, ring, 0) == 0);
    assert(crossings(p, ring, 1) == crossings(p, ring, 0) + hits(p, ring[0], ring.last()));
}

/// A point put behind the last point of a ring adds or takes away the triangle that it makes with the
/// last and the first point: a place is inside the longer ring where it is inside exactly one of the two.
pub proof fn rings_grow_by_triangles(p: Point, ring: Seq<Point>, q: Point)
    requires
        ring.len() >= 2,
    ensures
        inside(p, ring.push(q)) == (inside(p, ring) != inside(p, seq![ring.last(), q, ring.first()])),
        ring.len() == 2 ==> !inside(p, ring),
{
    let n = ring.len() as int;
    let more = ring.push(q);
    let (l, f) = (ring.last(), ring.first());
    let t = seq![l, q, f];
    lemma_prefix_crossings(p, ring, more, n);
    lemma_first_crossing(p, ring);
    lemma_first_crossing(p, more);
    lemma_first_crossing(p, t);
    assert(more[n] == q && more[n - 1] == l && more[0] == f);
    assert(crossings(p, more, n + 1) == crossings(p, more, n) + hits(p, q, l));
    assert(crossings(p, t, 2) == crossings(p, t, 1) + hits(p, t[1], t[0]));
    assert(crossings(p, t, 3) == crossings(p, t, 2) + hits(p, t[2], t[1]));
    rays_meet_edges(p, f, q);
    rays_meet_edges(p, f, l);
    // The triangle has the edge from the last to the first point, and the two new ones.
    assert(crossings(p, t, 3) == hits(p, l, f) + hits(p, q, l) + hits(p, f, q));
    assert(crossings(p, more, n + 1) == crossings(p, ring, n) - hits(p, f, l) + hits(p, f, q) + hits(
        p,
        q,
        l,
    ));
    assert(inside(p, more) == (crossings(p, more, n + 1) % 2 == 1));
    assert(inside(p, t) == (crossings(p, t, 3) % 2 == 1));
    if n == 2 {
        assert(crossings(p, ring, 2) == crossings(p, ring, 1) + hits(p, ring[1], ring[0]));
    }
}

proof fn lemma_balance(p: Point, a: Point, b: Point, c: Point)
    ensures
        side_of(a, b, p) * (c.y - p.y) + side_of(b, c, p) * (a.y - p.y) + side_of(c, a, p) * (b.y - p.y)
            == 0,
{
    let (ax, ay) = (a.x - p.x, a.y - p.y);
    let (bx, by) = (b.x - p.x, b.y - p.y);
    let (cx, cy) = (c.x - p.x, c.y - p.y);
    let ab = ax * by - ay * bx;
    let bc = bx * cy - by * cx;
    let ca = cx * ay - cy * ax;
    assert(side_of(a, b, p) == ab) by {
        assert((bx - ax) * (-ay) - (by - ay) * (-ax) == ax * by - ay * bx) by (nonlinear_arith);
    }
    assert(side_of(b, c, p) == bc) by {
        assert((cx - bx) * (-by) - (cy - by) * (-bx) == bx * cy - by * cx) by (nonlinear_arith);
    }
    assert(side_of(c, a, p) == ca) by {
        assert((ax - cx) * (-cy) - (ay - cy) * (-cx) == cx * ay - cy * ax) by (nonlinear_arith);
    }
    assert(ab * cy + bc * ay + ca * by == 0) by (nonlinear_arith)
        requires
            ab == ax * by - ay * bx,
            bc == bx * cy - by * cx,
            ca == cx * ay - cy * ax,
    ;
}

/// What lies on the left of all three sides of a triangle is inside it.
pub proof fn triangles_hold_their_inside(p: Point, a: Point, b: Point, c: Point)
    requires
        side_of(a, b, p) > 0,
        side_of(b, c, p) > 0,
        side_of(c, a, p) > 0,
    ensures
        inside(p, seq![a, b, c]),
{
    let t = seq![a, b, c];
    lemma_first_crossing(p, t);
    assert(crossings(p, t, 2) == crossings(p, t, 1) + hits(p, t[1], t[0]));
    assert(crossings(p, t, 3) == crossings(p, t, 2) + hits(p, t[2], t[1]));
    rays_meet_edges(p, a, b);
    rays_meet_edges(p, b, c);
    rays_meet_edges(p, c, a);
    lemma_balance(p, a, b, c);
    let (x, y, z) = (side_of(a, b, p), side_of(b, c, p), side_of(c, a, p));
    let (u, v, w) = (c.y - p.y, a.y - p.y, b.y - p.y);
    // The corners cannot all be above the point, nor all at its height or below it.
    assert(!(u > 0 && v > 0 && w > 0)) by (nonlinear_arith)
        requires
            x > 0,
            y > 0,
            z > 0,
            x * u + y * v + z * w == 0,
    ;
    assert(!(u <= 0 && v <= 0 && w <= 0)) by {
        if u <= 0 && v <= 0 && w <= 0 {
            assert(u == 0 && v == 0 && w == 0) by (nonlinear_arith)
                requires
                    x > 0,
                    y > 0,
                    z > 0,
                    u <= 0,
                    v <= 0,
                    w <= 0,
                    x * u + y * v + z * w == 0,
            ;
            assert(x == 0) by {
                assert((b.x - a.x) * (p.y - a.y) == 0) by (nonlinear_arith)
                    requires
                        p.y - a.y == 0,
                ;
                assert((b.y - a.y) * (p.x - a.x) == 0) by (nonlinear_arith)
                    requires
                        b.y - a.y == 0,
                ;
            }
        }
    }
}

proof fn lemma_changes_of_side(p: Point, ring: Seq<Point>, n: int)
    requires
        1 <= n <= ring.len(),
        forall|i: int| 0 <= i < ring.len() ==> (#[trigger] ring[i]).x > p.x,
    ensures
        (crossings(p, ring, n) % 2 == 1) == ((ring[n - 1].y > p.y) != (ring.last().y > p.y)),
    decreases n,
{
    let before = if n == 1 {
        ring.last()
    } else {
        ring[n - 2]
    };
    let a = ring[n - 1];
    assert(ring.last() == ring[ring.len() - 1]);
    assert(a.x > p.x && before.x > p.x);
    assert(crosses(p, a, before) == ((a.y > p.y) != (before.y > p.y))) by {
        rays_meet_edges(p, a, before);
        let (s, t) = (before.x - a.x, before.y - a.y);
        let (u, v) = (p.y - a.y, p.x - a.x);
        if a.y <= p.y < before.y {
            assert(s * u - t * v > 0) by (nonlinear_arith)
                requires
                    0 <= u < t,
                    v < 0,
                    s > v,
            ;
        }
        if before.y <= p.y < a.y {
            assert(s * u - t * v < 0) by (nonlinear_arith)
                requires
                    t <= u < 0,
                    v < 0,
                    s > v,
            ;
        }
    }
    if n > 1 {
        lemma_changes_of_side(p, ring, n - 1);
    } else {
        assert(crossings(p, ring, 0) == 0);
    }
    assert(crossings(p, ring, n) == crossings(p, ring, n - 1) + hits(p, a, before));
}

proof fn lemma_no_crossing(p: Point, ring: Seq<Point>, n: int)
    requires
        0 <= n <= ring.len(),
        ({
            ||| forall|i: int| 0 <= i < ring.len() ==> (#[trigger] ring[i]).x <= p.x
            ||| forall|i: int| 0 <= i < ring.len() ==> (#[trigger] ring[i]).y <= p.y
            ||| forall|i: int| 0 <= i < ring.len() ==> (#[trigger] ring[i]).y > p.y
        }),
    ensures
        crossings(p, ring, n) == 0,
    decreases n,
{
    if n > 0 {
        lemma_no_crossing(p, ring, n - 1);
        let before = if n == 1 {
            ring.last()
        } else {
            ring[n - 2]
        };
        let a = ring[n - 1];
        assert(ring.last() == ring[ring.len() - 1]);
        assert(!crosses(p, a, before)) by {
            rays_meet_edges(p, a, before);
            let (s, t) = (before.x - a.x, before.y - a.y);
            let (u, v) = (p.y - a.y, p.x - a.x);
            if a.x <= p.x && before.x <= p.x {
                if a.y <= p.y < before.y {
                    assert(s * u - t * v <= 0) by (nonlinear_arith)
                        requires
                            0 <= u < t,
                            v >= 0,
                            s <= v,
                    ;
                }
                if before.y <= p.y < a.y {
                    assert(s * u - t * v >= 0) by (nonlinear_arith)
                        requires
                            t <= u < 0,
                            v >= 0,
                            s <= v,
                    ;
                }
            }
        }
    }
}

/// A ring holds nothing outside the box around it: a place inside has points of the ring to the east of
/// it, above it, not above it and not to the east of it.
pub proof fn rings_stay_in_their_box(p: Point, ring: Seq<Point>)
    requires
        ring.len() > 0,
        inside(p, ring),
    ensures
        exists|i: int| 0 <= i < ring.len() && (#[trigger] ring[i]).x > p.x,
        exists|i: int| 0 <= i < ring.len() && (#[trigger] ring[i]).x <= p.x,
        exists|i: int| 0 <= i < ring.len() && (#[trigger] ring[i]).y > p.y,
        exists|i: int| 0 <= i < ring.len() && (#[trigger] ring[i]).y <= p.y,
{
    let n = ring.len() as int;
    if !(exists|i: int| 0 <= i < ring.len() && (#[trigger] ring[i]).x > p.x) {
        assert forall|i: int| 0 <= i < ring.len() implies (#[trigger] ring[i]).x <= p.x by {}
        lemma_no_crossing(p, ring, n);
    }
    if !(exists|i: int| 0 <= i < ring.len() && (#[trigger] ring[i]).y > p.y) {
        assert forall|i: int| 0 <= i < ring.len() implies (#[trigger] ring[i]).y <= p.y by {}
        lemma_no_crossing(p, ring, n);
    }
    if !(exists|i: int| 0 <= i < ring.len() && (#[trigger] ring[i]).y <= p.y) {
        assert forall|i: int| 0 <= i < ring.len() implies (#[trigger] ring[i]).y > p.y by {}
        lemma_no_crossing(p, ring, n);
    }
    if !(exists|i: int| 0 <= i < ring.len() && (#[trigger] ring[i]).x <= p.x) {
        assert forall|i: int| 0 <= i < ring.len() implies (#[trigger] ring[i]).x > p.x by {}
        lemma_changes_of_side(p, ring, n);
        assert(ring.last() == ring[n - 1]);
    }
}

/// A rectangle holds its western and southern sides, and neither its eastern nor its northern one.
pub proof fn rectangles_hold_their_places(p: Point, x0: i32, y0: i32, x1: i32, y1: i32)
    requires
        x0 < x1,
        y0 < y1,
    ensures
        inside(
            p,
            seq![
                Point { x: x0, y: y0 },
                Point { x: x1, y: y0 },
                Point { x: x1, y: y1 },
                Point { x: x0, y: y1 },
            ],
        ) <==> x0 <= p.x < x1 && y0 <= p.y < y1,
{
    let a = Point { x: x0, y: y0 };
    let b = Point { x: x1, y: y0 };
    let c = Point { x: x1, y: y1 };
    let d = Point { x: x0, y: y1 };
    let r = seq![a, b, c, d];
    lemma_first_crossing(p, r);
    assert(crossings(p, r, 2) == crossings(p, r, 1) + hits(p, r[1], r[0]));
    assert(crossings(p, r, 3) == crossings(p, r, 2) + hits(p, r[2], r[1]));
    assert(crossings(p, r, 4) == crossings(p, r, 3) + hits(p, r[3], r[2]));
    rays_meet_edges(p, b, c);
    rays_meet_edges(p, d, a);
    assert(hits(p, b, a) == 0 && hits(p, d, c) == 0);
    let (h, east, west) = (y1 - y0, p.x - x1, p.x - x0);
    assert((side_of(b, c, p) > 0) == (east < 0)) by {
        assert((x1 - x1) * (p.y - y0) == 0) by (nonlinear_arith);
        assert((h * east < 0) == (east < 0)) by (nonlinear_arith)
            requires
                h > 0,
        ;
    }
    assert((side_of(d, a, p) < 0) == (west < 0)) by {
        assert((x0 - x0) * (p.y - y1) == 0) by (nonlinear_arith);
        assert((y0 - y1) * west == -(h * west)) by (nonlinear_arith)
            requires
                h == y1 - y0,
        ;
        assert((h * west < 0) == (west < 0)) by (nonlinear_arith)
            requires
                h > 0,
        ;
    }
}

// ---------- outlines and holes ----------

/// Whether outline `k` is the smallest that contains a place, the first of them where several are.
pub open spec fn is_smallest_around(outers: Seq<Seq<Point>>, p: Point, k: int) -> bool {
    &&& 0 <= k < outers.len()
    &&& inside(p, outers[k])
    &&& forall|i: int|
        0 <= i < outers.len() && i != k && inside(p, #[trigger] outers[i]) ==> {
            ||| magnitude(doubled_area(outers[k])) < magnitude(doubled_area(outers[i]))
            ||| magnitude(doubled_area(outers[k])) == magnitude(doubled_area(outers[i])) && k < i
        }
}

proof fn lemma_owner(p: Point, outers: Seq<Seq<Point>>, n: int)
    requires
        0 <= n <= outers.len(),
    ensures
        match owner(p, outers, n) {
            Some(k) => is_smallest_around(outers.take(n), p, k),
            None => forall|i: int| 0 <= i < n ==> !inside(p, #[trigger] outers[i]),
        },
    decreases n,
{
    if n > 0 {
        lemma_owner(p, outers, n - 1);
        hole_belongs_to_smallest_outline(p, outers, n);
        let (a, b) = (outers.take(n - 1), outers.take(n));
        assert forall|i: int| 0 <= i < n - 1 implies #[trigger] b[i] == a[i] && a[i] == outers[i] by {}
        assert(b[n - 1] == outers[n - 1]);
    }
}

proof fn lemma_holes(k: int, outers: Seq<Seq<Point>>, inners: Seq<Seq<Point>>, n: int)
    requires
        0 <= n <= inners.len(),
    ensures
        holes_in(k, outers, inners, n) == inners.take(n).filter(
            |r: Seq<Point>| is_smallest_around(outers, r[0], k),
        ).map_values(|r: Seq<Point>| cutout(r)),
    decreases n,
{
    reveal(Seq::filter);
    let mine = |r: Seq<Point>| is_smallest_around(outers, r[0], k);
    let cut = |r: Seq<Point>| cutout(r);
    if n > 0 {
        lemma_holes(k, outers, inners, n - 1);
        let r = inners[n - 1];
        assert(inners.take(n).drop_last() =~= inners.take(n - 1));
        assert(inners.take(n).last() == r);
        lemma_owner(r[0], outers, outers.len() as int);
        assert(outers.take(outers.len() as int) =~= outers);
        assert(mine(r) == (owner(r[0], outers, outers.len() as int) == Some(k))) by {
            match owner(r[0], outers, outers.len() as int) {
                Some(j) => {
                    if j != k && mine(r) {
                        assert(inside(r[0], outers[j]) && inside(r[0], outers[k]));
                    }
                },
                None => {
                    if mine(r) {
                        assert(!inside(r[0], outers[k]));
                    }
                },
            }
        }
        let before = inners.take(n - 1).filter(mine);
        if mine(r) {
            assert(inners.take(n).filter(mine) == before.push(r));
            assert(before.push(r).map_values(cut) =~= before.map_values(cut).push(cutout(r)));
        } else {
            assert(inners.take(n).filter(mine) == before);
        }
    } else {
        assert(inners.take(0) =~= Seq::empty());
        assert(inners.take(0).filter(mine) =~= Seq::empty());
        assert(holes_in(k, outers, inners, n) =~= inners.take(n).filter(mine).map_values(cut));
    }
}

/// Every outer ring becomes one area, in order and turned counter-clockwise. Its holes are those inner
/// rings, in order and turned clockwise, whose first point has this outline as the smallest around it.
pub proof fn areas_have_their_holes(
    kind: PolyKind,
    outers: Seq<Seq<Point>>,
    inners: Seq<Seq<Point>>,
    k: int,
)
    requires
        0 <= k < outers.len(),
    ensures
        areas(kind, outers, inners).len() == outers.len(),
        areas(kind, outers, inners)[k].kind == kind,
        areas(kind, outers, inners)[k].outer == outline(outers[k]),
        areas(kind, outers, inners)[k].holes == inners.filter(
            |r: Seq<Point>| is_smallest_around(outlines(outers), r[0], k),
        ).map_values(|r: Seq<Point>| cutout(r)),
        outlines(outers).len() == outers.len(),
        outlines(outers)[k] == outline(outers[k]),
{
    lemma_holes(k, outlines(outers), inners, inners.len() as int);
    assert(inners.take(inners.len() as int) =~= inners);
}

/// Whether a member bounds an area from outside: without a role, or in the role `outer`; or from
/// inside: in the role `inner`.
pub open spec fn in_role(m: (i64, Seq<char>), outer: bool) -> bool {
    if outer {
        m.1 == Seq::<char>::empty() || m.1 == seq!['o', 'u', 't', 'e', 'r']
    } else {
        m.1 == seq!['i', 'n', 'n', 'e', 'r']
    }
}

proof fn lemma_members(members: Seq<(i64, Seq<char>)>, outer: bool, n: int)
    requires
        0 <= n <= members.len(),
    ensures
        member_ids(members, outer, n) == members.take(n).filter(
            |m: (i64, Seq<char>)| in_role(m, outer),
        ).map_values(|m: (i64, Seq<char>)| m.0),
    decreases n,
{
    reveal(Seq::filter);
    let mine = |m: (i64, Seq<char>)| in_role(m, outer);
    let id = |m: (i64, Seq<char>)| m.0;
    reveal_strlit("outer");
    reveal_strlit("inner");
    assert("outer"@ =~= seq!['o', 'u', 't', 'e', 'r']);
    assert("inner"@ =~= seq!['i', 'n', 'n', 'e', 'r']);
    if n > 0 {
        lemma_members(members, outer, n - 1);
        let m = members[n - 1];
        assert(members.take(n).drop_last() =~= members.take(n - 1));
        assert(members.take(n).last() == m);
        let before = members.take(n - 1).filter(mine);
        if m.1.len() == 0 {
            assert(m.1 =~= Seq::empty());
        }
        if mine(m) {
            assert(members.take(n).filter(mine) == before.push(m));
            assert(before.push(m).map_values(id) =~= before.map_values(id).push(m.0));
        } else {
            assert(members.take(n).filter(mine) == before);
        }
    } else {
        assert(members.take(0) =~= Seq::empty());
        assert(members.take(0).filter(mine) =~= Seq::empty());
        assert(member_ids(members, outer, n) =~= members.take(n).filter(mine).map_values(id));
    }
}

/// The members without a role and those in the role `outer` bound an area from outside, those in the
/// role `inner` from inside, in the order of the list; no others do.
pub proof fn roles_tell_outer_from_inner(members: Seq<(i64, Seq<char>)>, outer: bool)
    ensures
        member_ids(members, outer, members.len() as int) == members.filter(
            |m: (i64, Seq<char>)| in_role(m, outer),
        ).map_values(|m: (i64, Seq<char>)| m.0),
{
    lemma_members(members, outer, members.len() as int);
    assert(members.take(members.len() as int) =~= members);
}

proof fn lemma_big(rings: Seq<Seq<Point>>, n: int)
    requires
        0 <= n <= rings.len(),
    ensures
        big_rings(rings, n) == rings.take(n).filter(
            |r: Seq<Point>| magnitude(doubled_area(r)) > 2 * (500 * (100 * 100)),
        ),
    decreases n,
{
    reveal(Seq::filter);
    let big = |r: Seq<Point>| magnitude(doubled_area(r)) > 2 * (500 * (100 * 100));
    if n > 0 {
        lemma_big(rings, n - 1);
        assert(rings.take(n).drop_last() =~= rings.take(n - 1));
        assert(rings.take(n).last() == rings[n - 1]);
    } else {
        assert(rings.take(0) =~= Seq::empty());
    }
}

/// Rings of up to 500 square metres are left out, larger ones kept in order.
pub proof fn scraps_are_left_out(rings: Seq<Seq<Point>>)
    ensures
        big_rings(rings, rings.len() as int) == rings.filter(
            |r: Seq<Point>| magnitude(doubled_area(r)) > 2 * (500 * (100 * 100)),
        ),
{
    lemma_big(rings, rings.len() as int);
    assert(rings.take(rings.len() as int) =~= rings);
}

} // verus!
