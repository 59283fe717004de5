//! Laws of meshes: which vertices each triangle joins.

use vstd::prelude::*;

use crate::extract::PolyView;
use crate::mesh::{
    beside, grid, grid_row, hole_points, hole_starts, poly_points, quad, quad_back, shifted, strip,
    strip_quads,
};

verus! {

/// A quad is two triangles that share the diagonal from its first to its third corner; seen from behind,
/// each of them goes round the other way.
pub proof fn quads_are_two_triangles(a: int, b: int, c: int, d: int)
    requires
        0 <= a <= u32::MAX,
        0 <= b <= u32::MAX,
        0 <= c <= u32::MAX,
        0 <= d <= u32::MAX,
    ensures
        quad(a, b, c, d).len() == 6 && quad_back(a, b, c, d).len() == 6,
        quad(a, b, c, d)[0] == a && quad(a, b, c, d)[1] == b && quad(a, b, c, d)[2] == c,
        quad(a, b, c, d)[3] == a && quad(a, b, c, d)[4] == c && quad(a, b, c, d)[5] == d,
        forall|t: int|
            0 <= t < 2 ==> quad_back(a, b, c, d)[3 * t] == quad(a, b, c, d)[3 * t] && #[trigger] quad_back(
                a,
                b,
                c,
                d,
            )[3 * t + 1] == quad(a, b, c, d)[3 * t + 2] && quad_back(a, b, c, d)[3 * t + 2] == quad(
                a,
                b,
                c,
                d,
            )[3 * t + 1],
{
}

proof fn lemma_strip_quad(base: int, n: int, i: int)
    requires
        0 <= base,
        0 <= i < n,
    ensures
        strip_quads(base, n).len() == 6 * n,
        strip_quads(base, n).subrange(6 * i, 6 * i + 6) == quad(
            base + 2 * i,
            base + 2 * i + 1,
            base + 2 * i + 3,
            base + 2 * i + 2,
        ),
    decreases n,
{
    let before = strip_quads(base, n - 1);
    let l = base + 2 * (n - 1);
    let last = quad(l, l + 1, l + 3, l + 2);
    if i < n - 1 {
        lemma_strip_quad(base, n - 1, i);
        assert((before + last).subrange(6 * i, 6 * i + 6) =~= before.subrange(6 * i, 6 * i + 6));
    } else {
        if n > 1 {
            lemma_strip_quad(base, n - 1, 0);
        }
        assert(before.len() == 6 * (n - 1));
        assert((before + last).subrange(6 * i, 6 * i + 6) =~= last);
    }
}

/// Each quad of a strip joins a pair of vertices to the next pair, left to left and right to right; the quad
/// that closes a strip of three or more pairs joins the last pair to the first.
pub proof fn strips_join_neighbours(base: int, n: int, closed: bool, i: int)
    requires
        0 <= base,
        2 <= n,
        0 <= i < n - 1,
    ensures
        strip(base, n, closed).subrange(6 * i, 6 * i + 6) == quad(
            base + 2 * i,
            base + 2 * i + 1,
            base + 2 * i + 3,
            base + 2 * i + 2,
        ),
        closed && n >= 3 ==> strip(base, n, closed).skip(6 * (n - 1)) == quad(
            base + 2 * (n - 1),
            base + 2 * (n - 1) + 1,
            base + 1,
            base,
        ),
        !(closed && n >= 3) ==> strip(base, n, closed).len() == 6 * (n - 1),
{
    lemma_strip_quad(base, n - 1, i);
    let quads = strip_quads(base, n - 1);
    if closed && n >= 3 {
        let last = base + 2 * (n - 1);
        let end = quad(last, last + 1, base + 1, base);
        assert((quads + end).subrange(6 * i, 6 * i + 6) =~= quads.subrange(6 * i, 6 * i + 6));
        assert((quads + end).skip(6 * (n - 1)) =~= end);
    }
}

/// The points beside a point are the ones before and after it; at the ends of a closed line they are those of
/// the other end, and at the ends of an open line the point itself.
pub proof fn points_beside_are_neighbours(i: int, n: int, closed: bool)
    requires
        0 <= i < n,
    ensures
        0 < i ==> beside(i, n, closed).0 == i - 1,
        i < n - 1 ==> beside(i, n, closed).1 == i + 1,
        i == 0 ==> beside(i, n, closed).0 == if closed {
            n - 1
        } else {
            0
        },
        i == n - 1 ==> beside(i, n, closed).1 == if closed {
            0
        } else {
            n - 1
        },
{
}

/// The indexes of one cell of a grid.
pub open spec fn cell(a: int, w: int) -> Seq<u32> {
    seq![
        a as u32,
        (a + w) as u32,
        (a + 1) as u32,
        (a + 1) as u32,
        (a + w) as u32,
        (a + w + 1) as u32,
    ]
}

proof fn lemma_row_cell(row: int, w: int, n: int, c: int)
    requires
        0 <= c < n,
    ensures
        grid_row(row, w, n).len() == 6 * n,
        grid_row(row, w, n).subrange(6 * c, 6 * c + 6) == cell(row + c, w),
    decreases n,
{
    let before = grid_row(row, w, n - 1);
    let last = cell(row + n - 1, w);
    assert(grid_row(row, w, n) == before + last);
    if c < n - 1 {
        lemma_row_cell(row, w, n - 1, c);
        assert((before + last).subrange(6 * c, 6 * c + 6) =~= before.subrange(6 * c, 6 * c + 6));
    } else {
        if n > 1 {
            lemma_row_cell(row, w, n - 1, 0);
        }
        assert(before.len() == 6 * (n - 1));
        assert((before + last).subrange(6 * c, 6 * c + 6) =~= last);
    }
}

/// The cell in some row and column of a grid has two triangles over its four corners: the one in its own row
/// and column of vertices, its neighbour, and the two below. A row of vertices has one more than a row of
/// cells.
pub proof fn grids_join_corners(cols: int, rows: int, r: int, c: int)
    requires
        0 <= c < cols,
        0 <= r < rows,
    ensures
        grid(cols, rows).len() == 6 * (cols * rows),
        grid(cols, rows).subrange(6 * (r * cols + c), 6 * (r * cols + c) + 6) == cell(
            r * (cols + 1) + c,
            cols + 1,
        ),
    decreases rows,
{
    let before = grid(cols, rows - 1);
    let last = grid_row((rows - 1) * (cols + 1), cols + 1, cols);
    let k = 6 * (r * cols + c);
    lemma_row_cell((rows - 1) * (cols + 1), cols + 1, cols, c);
    assert(cols * rows == cols * (rows - 1) + cols) by (nonlinear_arith);
    if rows == 1 {
        assert(before =~= Seq::empty());
        assert(cols * (rows - 1) == 0) by (nonlinear_arith)
            requires
                rows == 1,
        ;
    }
    if r < rows - 1 {
        grids_join_corners(cols, rows - 1, r, c);
        assert(k + 6 <= 6 * (cols * (rows - 1))) by (nonlinear_arith)
            requires
                k == 6 * (r * cols + c),
                c + 1 <= cols,
                r + 1 <= rows - 1,
                0 <= cols,
        ;
        assert(k >= 0) by (nonlinear_arith)
            requires
                k == 6 * (r * cols + c),
                c >= 0,
                r >= 0,
                cols >= 0,
        ;
        assert((before + last).subrange(k, k + 6) =~= before.subrange(k, k + 6));
    } else {
        if rows > 1 {
            grids_join_corners(cols, rows - 1, 0, 0);
        }
        assert(before.len() == 6 * (cols * (rows - 1)));
        assert(k == before.len() + 6 * c) by (nonlinear_arith)
            requires
                k == 6 * (r * cols + c),
                r == rows - 1,
                before.len() == 6 * (cols * (rows - 1)),
        ;
        assert((before + last).subrange(k, k + 6) =~= last.subrange(6 * c, 6 * c + 6));
    }
}

/// Each index of a mesh that follows others points as many vertices farther as there are others.
pub proof fn indexes_move_behind_the_others(idx: Seq<u32>, base: int, i: int)
    requires
        0 <= i < idx.len(),
        0 <= base,
        base + idx[i] <= u32::MAX,
    ensures
        shifted(idx, base).len() == idx.len(),
        shifted(idx, base)[i] == base + idx[i],
{
}

proof fn lemma_hole_at(holes: Seq<Seq<crate::geo::Point>>, n: int, i: int)
    requires
        0 <= i < n <= holes.len(),
    ensures
        hole_points(holes, i).len() + holes[i].len() <= hole_points(holes, n).len(),
        hole_points(holes, n).subrange(
            hole_points(holes, i).len() as int,
            (hole_points(holes, i).len() + holes[i].len()) as int,
        ) == holes[i],
    decreases n,
{
    let before = hole_points(holes, n - 1);
    let s = hole_points(holes, i).len() as int;
    let e = s + holes[i].len();
    if i < n - 1 {
        lemma_hole_at(holes, n - 1, i);
        assert((before + holes[n - 1]).subrange(s, e) =~= before.subrange(s, e));
    } else {
        assert((before + holes[n - 1]).subrange(s, e) =~= holes[i]);
    }
}

/// The points of an area are those of its outline, and then those of each hole at the place that is noted for
/// it, one hole behind the other.
pub proof fn holes_start_where_they_are_noted(p: PolyView, i: int)
    requires
        0 <= i < p.holes.len(),
    ensures
        poly_points(p).take(p.outer.len() as int) == p.outer,
        hole_starts(p).len() == p.holes.len(),
        poly_points(p).subrange(hole_starts(p)[i], hole_starts(p)[i] + p.holes[i].len()) == p.holes[i],
        hole_starts(p)[0] == p.outer.len(),
        i + 1 < p.holes.len() ==> hole_starts(p)[i + 1] == hole_starts(p)[i] + p.holes[i].len(),
        i + 1 == p.holes.len() ==> poly_points(p).len() == hole_starts(p)[i] + p.holes[i].len(),
{
    let n = p.holes.len() as int;
    let all = hole_points(p.holes, n);
    lemma_hole_at(p.holes, n, i);
    let s = hole_points(p.holes, i).len() as int;
    let e = s + p.holes[i].len();
    assert(poly_points(p).take(p.outer.len() as int) =~= p.outer);
    assert(poly_points(p).subrange(p.outer.len() + s, p.outer.len() + e) =~= all.subrange(s, e));
    assert(hole_points(p.holes, 0) =~= Seq::empty());
    assert(hole_points(p.holes, i + 1) == hole_points(p.holes, i) + p.holes[i]);
}

/// An area without holes has the points of its outline.
pub proof fn areas_without_holes_are_their_outline(p: PolyView)
    requires
        p.holes.len() == 0,
    ensures
        poly_points(p) == p.outer,
        hole_starts(p).len() == 0,
{
    assert(poly_points(p) =~= p.outer);
}

} // verus!
