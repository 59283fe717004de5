//! Plane geometry on integer coordinates.
//!
//! A point of the map plane is held in centimetres, x to the east and y to the north; a point
//! of a vector tile in tile units, y downwards. All predicates are exact.

use vstd::prelude::*;

verus! {

/// A point of an integer plane.
#[derive(Debug, Clone, Copy, PartialEq, Eq, Structural, Hash)]
pub struct Point {
    pub x: i32,
    pub y: i32,
}

/// Twice the signed area of the triangle from the origin to `a` and `b`.
pub open spec fn cross(a: Point, b: Point) -> int {
    a.x * b.y - b.x * a.y
}

/// The sum of `cross` over the first `n` edges of the closed ring.
pub open spec fn edge_sum(ring: Seq<Point>, n: int) -> int
    decreases n,
{
    if n <= 0 {
        0
    } else {
        edge_sum(ring, n - 1) + cross(ring[n - 1], ring[n % ring.len() as int])
    }
}

/// Twice the signed area of a ring, positive where it turns counter-clockwise (y upwards).
pub open spec fn doubled_area(ring: Seq<Point>) -> int {
    if ring.len() < 3 {
        0
    } else {
        edge_sum(ring, ring.len() as int)
    }
}

/// The absolute value.
pub open spec fn magnitude(i: int) -> int {
    if i < 0 {
        -i
    } else {
        i
    }
}

proof fn lemma_product_bound(a: int, b: int)
    requires
        -0x8000_0000 <= a <= 0x8000_0000,
        -0x8000_0000 <= b <= 0x8000_0000,
    ensures
        -0x4000_0000_0000_0000 <= a * b <= 0x4000_0000_0000_0000,
{
    assert(-0x4000_0000_0000_0000 <= a * b <= 0x4000_0000_0000_0000) by (nonlinear_arith)
        requires
            -0x8000_0000 <= a <= 0x8000_0000,
            -0x8000_0000 <= b <= 0x8000_0000,
    ;
}

/// The area of any ring fits in 127 bits.
pub proof fn lemma_area_bound(ring: Seq<Point>, n: int)
    requires
        0 <= n,
    ensures
        -0x8000_0000_0000_0000 * n <= edge_sum(ring, n) <= 0x8000_0000_0000_0000 * n,
    decreases n,
{
    if n > 0 {
        lemma_area_bound(ring, n - 1);
        let a = ring[n - 1];
        let b = ring[n % ring.len() as int];
        lemma_product_bound(a.x as int, b.y as int);
        lemma_product_bound(b.x as int, a.y as int);
    }
}

/// Twice the signed area of a ring (shoelace formula): positive where the ring turns
/// counter-clockwise, zero where it has fewer than three points.
pub fn ring_area(ring: &[Point]) -> (r: i128)
    ensures
        r == doubled_area(ring@),
{
    let n: usize = ring.len();
    if n < 3 {
        return 0;
    }
    let mut sum: i128 = 0;
    let mut i: usize = 0;
    while i < n
        invariant
            n == ring@.len(),
            n >= 3,
            i <= n,
            sum == edge_sum(ring@, i as int),
        decreases n - i,
    {
        let a = ring[i];
        let j: usize = if i + 1 < n { i + 1 } else { 0 };
        let b = ring[j];
        proof {
            lemma_product_bound(a.x as int, b.y as int);
            lemma_product_bound(b.x as int, a.y as int);
            lemma_area_bound(ring@, i as int);
            if i + 1 < n {
                vstd::arithmetic::div_mod::lemma_small_mod((i + 1) as nat, n as nat);
            } else {
                vstd::arithmetic::div_mod::lemma_mod_self_0(n as int);
            }
            assert(j as int == (i + 1) % (ring@.len() as int));
        }
        sum = sum + (a.x as i128 * b.y as i128 - b.x as i128 * a.y as i128);
        i = i + 1;
    }
    sum
}

/// The cross products of the edges of a line from point `i` to point `j`.
spec fn path_sum(s: Seq<Point>, i: int, j: int) -> int
    decreases j - i,
{
    if j <= i {
        0
    } else {
        path_sum(s, i, j - 1) + cross(s[j - 1], s[j])
    }
}

proof fn lemma_path_first(s: Seq<Point>, i: int, j: int)
    requires
        i < j,
    ensures
        path_sum(s, i, j) == cross(s[i], s[i + 1]) + path_sum(s, i + 1, j),
    decreases j - i,
{
    if i + 1 < j {
        lemma_path_first(s, i, j - 1);
    } else {
        assert(path_sum(s, i, i) == 0);
        assert(path_sum(s, i + 1, j) == 0);
        assert(path_sum(s, i, j) == path_sum(s, i, j - 1) + cross(s[j - 1], s[j]));
    }
}

proof fn lemma_path_reverse(s: Seq<Point>, k: int)
    requires
        0 <= k < s.len(),
    ensures
        path_sum(s.reverse(), 0, k) == -path_sum(s, s.len() - 1 - k, s.len() - 1),
    decreases k,
{
    if k > 0 {
        lemma_path_reverse(s, k - 1);
        let i = s.len() - 1 - k;
        lemma_path_first(s, i, s.len() - 1);
        let r = s.reverse();
        assert(r[k - 1] == s[i + 1]);
        assert(r[k] == s[i]);
        assert(cross(s[i + 1], s[i]) == -cross(s[i], s[i + 1])) by {
            let a = s[i];
            let b = s[i + 1];
            assert(a.x * b.y == b.y * a.x) by (nonlinear_arith);
            assert(b.x * a.y == a.y * b.x) by (nonlinear_arith);
        }
    }
}

proof fn lemma_edges_as_path(s: Seq<Point>, n: int)
    requires
        0 <= n < s.len(),
    ensures
        edge_sum(s, n) == path_sum(s, 0, n),
    decreases n,
{
    if n > 0 {
        lemma_edges_as_path(s, n - 1);
        vstd::arithmetic::div_mod::lemma_small_mod(n as nat, s.len());
    }
}

/// Turning a ring round changes the sign of its area.
pub proof fn lemma_area_reverse(ring: Seq<Point>)
    ensures
        doubled_area(ring.reverse()) == -doubled_area(ring),
{
    if ring.len() >= 3 {
        let n = ring.len() as int;
        let r = ring.reverse();
        lemma_edges_as_path(ring, n - 1);
        lemma_edges_as_path(r, n - 1);
        lemma_path_reverse(ring, n - 1);
        vstd::arithmetic::div_mod::lemma_mod_self_0(n);
        let a = ring[0];
        let b = ring[n - 1];
        assert(r[n - 1] == a && r[0] == b);
        assert(edge_sum(ring, n) == edge_sum(ring, n - 1) + cross(b, a));
        assert(edge_sum(r, n) == edge_sum(r, n - 1) + cross(a, b));
        assert(cross(a, b) == -cross(b, a)) by {
            assert(a.x * b.y == b.y * a.x) by (nonlinear_arith);
            assert(b.x * a.y == a.y * b.x) by (nonlinear_arith);
        }
    }
}

/// Whether the ray from `p` to the east crosses the edge from `a` to `b`: the edge spans the
/// height of `p` and meets that height to the right of `p`.
pub open spec fn crosses(p: Point, a: Point, b: Point) -> bool {
    &&& (a.y > p.y) != (b.y > p.y)
    &&& if b.y > a.y {
        (p.x - a.x) * (b.y - a.y) < (b.x - a.x) * (p.y - a.y)
    } else {
        (p.x - a.x) * (b.y - a.y) > (b.x - a.x) * (p.y - a.y)
    }
}

/// How many of the first `n` edges the ray from `p` crosses; edge `i` joins point `i` to the
/// point before it, the first point to the last.
pub open spec fn crossings(p: Point, ring: Seq<Point>, n: int) -> nat
    decreases n,
{
    if n <= 0 {
        0
    } else {
        let i = n - 1;
        let before = if i == 0 { ring.last() } else { ring[i - 1] };
        crossings(p, ring, i) + if crosses(p, ring[i], before) { 1nat } else { 0nat }
    }
}

/// Whether `p` lies inside the ring by the even-odd rule.
pub open spec fn inside(p: Point, ring: Seq<Point>) -> bool {
    crossings(p, ring, ring.len() as int) % 2 == 1
}

/// Whether `p` lies inside the ring (ray casting; holes are the caller's concern).
pub fn point_in_ring(p: Point, ring: &[Point]) -> (r: bool)
    requires
        ring@.len() >= 1,
    ensures
        r == inside(p, ring@),
{
    let mut inside: bool = false;
    let mut j: usize = ring.len() - 1;
    let mut i: usize = 0;
    while i < ring.len()
        invariant
            i <= ring@.len(),
            ring@.len() >= 1,
            j == if i == 0 { ring@.len() - 1 } else { i - 1 },
            inside == (crossings(p, ring@, i as int) % 2 == 1),
        decreases ring@.len() - i,
    {
        let a = ring[i];
        let b = ring[j];
        if (a.y > p.y) != (b.y > p.y) {
            let dx: i64 = p.x as i64 - a.x as i64;
            let ey: i64 = b.y as i64 - a.y as i64;
            let ex: i64 = b.x as i64 - a.x as i64;
            let dy: i64 = p.y as i64 - a.y as i64;
            proof {
                lemma_span_bound(dx as int, ey as int);
                lemma_span_bound(ex as int, dy as int);
            }
            let left: i128 = dx as i128 * ey as i128;
            let right: i128 = ex as i128 * dy as i128;
            let hit: bool = if b.y > a.y { left < right } else { left > right };
            if hit {
                inside = !inside;
            }
        }
        j = i;
        i = i + 1;
    }
    inside
}

proof fn lemma_span_bound(a: int, b: int)
    requires
        -0x1_0000_0000 <= a <= 0x1_0000_0000,
        -0x1_0000_0000 <= b <= 0x1_0000_0000,
    ensures
        -0x1_0000_0000_0000_0000 <= a * b <= 0x1_0000_0000_0000_0000,
{
    assert(-0x1_0000_0000_0000_0000 <= a * b <= 0x1_0000_0000_0000_0000) by (nonlinear_arith)
        requires
            -0x1_0000_0000 <= a <= 0x1_0000_0000,
            -0x1_0000_0000 <= b <= 0x1_0000_0000,
    ;
}

/// The square of the distance of two points.
pub open spec fn distance2(a: Point, b: Point) -> int {
    (a.x - b.x) * (a.x - b.x) + (a.y - b.y) * (a.y - b.y)
}

/// The square of the distance of two points.
pub fn distance_squared(a: Point, b: Point) -> (r: i128)
    ensures
        r == distance2(a, b),
        0 <= r <= 0x2_0000_0000_0000_0000,
{
    let dx: i64 = a.x as i64 - b.x as i64;
    let dy: i64 = a.y as i64 - b.y as i64;
    proof {
        lemma_span_bound(dx as int, dx as int);
        lemma_span_bound(dy as int, dy as int);
        assert(dx * dx >= 0 && dy * dy >= 0) by (nonlinear_arith);
    }
    dx as i128 * dx as i128 + dy as i128 * dy as i128
}

/// A copy of a list of points.
pub fn copy_points(ring: &Vec<Point>) -> (r: Vec<Point>)
    ensures
        r@ == ring@,
{
    let mut out: Vec<Point> = Vec::new();
    let mut i: usize = 0;
    while i < ring.len()
        invariant
            i <= ring@.len(),
            out@ =~= ring@.take(i as int),
        decreases ring@.len() - i,
    {
        out.push(ring[i]);
        i = i + 1;
    }
    out
}

} // verus!
