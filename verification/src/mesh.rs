//! Vertex indexes of triangle meshes.

use vstd::prelude::*;

use crate::extract::{Poly, PolyView};
use crate::geo::Point;

verus! {

/// The six indexes of the two triangles of a quad with corners `a`, `b`, `c` and `d`, where the
/// diagonal joins `a` and `c`.
pub open spec fn quad(a: int, b: int, c: int, d: int) -> Seq<u32> {
    seq![a as u32, b as u32, c as u32, a as u32, c as u32, d as u32]
}

/// The six indexes of the same two triangles, seen from the other side.
pub open spec fn quad_back(a: int, b: int, c: int, d: int) -> Seq<u32> {
    seq![a as u32, c as u32, b as u32, a as u32, d as u32, c as u32]
}

/// Appends the indexes of the quad whose four corners start at vertex `base`, where wanted with
/// its other side.
pub fn push_face(idx: &mut Vec<u32>, base: u32, both_sides: bool)
    requires
        base + 3 <= u32::MAX,
    ensures
        final(idx)@ == old(idx)@ + quad(base as int, base + 1, base + 2, base + 3) + (if both_sides {
            quad_back(base as int, base + 1, base + 2, base + 3)
        } else {
            Seq::empty()
        }),
{
    let ghost start = idx@;
    push_quad(idx, base, base + 1, base + 2, base + 3);
    if both_sides {
        idx.push(base);
        idx.push(base + 2);
        idx.push(base + 1);
        idx.push(base);
        idx.push(base + 3);
        idx.push(base + 2);
    }
    assert(idx@ =~= start + quad(base as int, base + 1, base + 2, base + 3) + (if both_sides {
        quad_back(base as int, base + 1, base + 2, base + 3)
    } else {
        Seq::empty()
    }));
}

// ---------- strips ----------

/// The indexes of the first `n` quads of a strip of vertex pairs: quad `i` joins pair `i` to the
/// next one.
pub open spec fn strip_quads(base: int, n: int) -> Seq<u32>
    decreases n,
{
    if n <= 0 {
        Seq::empty()
    } else {
        let l = base + 2 * (n - 1);
        strip_quads(base, n - 1) + quad(l, l + 1, l + 3, l + 2)
    }
}

/// The indexes of a strip of `n` vertex pairs that starts at a vertex; a closed strip of three or
/// more pairs is joined to its start.
pub open spec fn strip(base: int, n: int, closed: bool) -> Seq<u32> {
    if n < 2 {
        Seq::empty()
    } else if closed && n >= 3 {
        let last = base + 2 * (n - 1);
        strip_quads(base, n - 1) + quad(last, last + 1, base + 1, base)
    } else {
        strip_quads(base, n - 1)
    }
}

fn push_quad(idx: &mut Vec<u32>, a: u32, b: u32, c: u32, d: u32)
    ensures
        final(idx)@ == old(idx)@ + quad(a as int, b as int, c as int, d as int),
{
    let ghost start = idx@;
    idx.push(a);
    idx.push(b);
    idx.push(c);
    idx.push(a);
    idx.push(c);
    idx.push(d);
    assert(idx@ =~= start + quad(a as int, b as int, c as int, d as int));
}

/// Appends the indexes of a strip of `n` vertex pairs that starts at vertex `base`.
pub fn push_strip(idx: &mut Vec<u32>, base: u32, n: u32, closed: bool)
    requires
        base + 2 * n <= u32::MAX,
    ensures
        final(idx)@ == old(idx)@ + strip(base as int, n as int, closed),
{
    let ghost start = idx@;
    if n < 2 {
        assert(idx@ =~= start + Seq::<u32>::empty());
        return;
    }
    let mut i: u32 = 0;
    assert(idx@ =~= start + strip_quads(base as int, 0));
    while i < n - 1
        invariant
            i <= n - 1,
            n >= 2,
            base + 2 * n <= u32::MAX,
            idx@ == start + strip_quads(base as int, i as int),
        decreases n - 1 - i,
    {
        let l: u32 = base + i * 2;
        let ghost before = idx@;
        push_quad(idx, l, l + 1, l + 3, l + 2);
        i = i + 1;
        assert(idx@ =~= start + strip_quads(base as int, i as int));
    }
    if closed && n >= 3 {
        let last: u32 = base + (n - 1) * 2;
        push_quad(idx, last, last + 1, base + 1, base);
        assert(idx@ =~= start + strip(base as int, n as int, closed));
    }
}

/// The points before and after a point of a line of `n` points. The ends of a closed line follow each
/// other; at an end of an open one the point itself takes the place of the missing one.
pub open spec fn beside(i: int, n: int, closed: bool) -> (int, int) {
    let before = if i > 0 {
        i - 1
    } else if closed {
        n - 1
    } else {
        i
    };
    let after = if i < n - 1 {
        i + 1
    } else if closed {
        0
    } else {
        i
    };
    (before, after)
}

/// The points before and after a point of a line.
pub fn neighbours(i: usize, n: usize, closed: bool) -> (r: (usize, usize))
    requires
        i < n,
    ensures
        r.0 == beside(i as int, n as int, closed).0,
        r.1 == beside(i as int, n as int, closed).1,
        r.0 < n,
        r.1 < n,
{
    let before: usize = if i > 0 {
        i - 1
    } else if closed {
        n - 1
    } else {
        i
    };
    let after: usize = if i < n - 1 {
        i + 1
    } else if closed {
        0
    } else {
        i
    };
    (before, after)
}

/// A closed line has no ends: the point before the one that follows a point is the point itself,
/// and so is the point after the one that comes before it.
pub proof fn closed_lines_have_no_ends(i: int, n: int)
    requires
        0 <= i < n,
    ensures
        beside(beside(i, n, true).1, n, true).0 == i,
        beside(beside(i, n, true).0, n, true).1 == i,
{
}

/// A strip has six indexes for each of its quads, and all of them are vertices of the strip.
pub proof fn strip_stays_on_its_vertices(base: int, n: int, closed: bool)
    requires
        0 <= base,
        2 <= n,
        base + 2 * n <= u32::MAX,
    ensures
        strip(base, n, closed).len() == 6 * (if closed && n >= 3 { n } else { n - 1 }),
        forall|i: int|
            0 <= i < strip(base, n, closed).len() ==> base <= #[trigger] strip(base, n, closed)[i]
                < base + 2 * n,
{
    lemma_strip_quads(base, n - 1);
    let s = strip(base, n, closed);
    let q = strip_quads(base, n - 1);
    assert forall|i: int| 0 <= i < s.len() implies base <= #[trigger] s[i] < base + 2 * n by {
        if i < q.len() {
            assert(s[i] == q[i]);
        }
    }
}

proof fn lemma_strip_quads(base: int, n: int)
    requires
        0 <= base,
        0 <= n,
        base + 2 * n + 2 <= u32::MAX,
    ensures
        strip_quads(base, n).len() == 6 * n,
        forall|i: int|
            0 <= i < strip_quads(base, n).len() ==> base <= #[trigger] strip_quads(base, n)[i] < base
                + 2 * n + 2,
    decreases n,
{
    if n > 0 {
        lemma_strip_quads(base, n - 1);
        let before = strip_quads(base, n - 1);
        let all = strip_quads(base, n);
        assert forall|i: int| 0 <= i < all.len() implies base <= #[trigger] all[i] < base + 2 * n
            + 2 by {
            if i < before.len() {
                assert(all[i] == before[i]);
            }
        }
    }
}

// ---------- grids ----------

/// The indexes of the first `n` cells of a row of a grid, where `w` vertices make a row and the
/// row starts at vertex `row`.
pub open spec fn grid_row(row: int, w: int, n: int) -> Seq<u32>
    decreases n,
{
    if n <= 0 {
        Seq::empty()
    } else {
        let a = row + n - 1;
        grid_row(row, w, n - 1) + seq![
            a as u32,
            (a + w) as u32,
            (a + 1) as u32,
            (a + 1) as u32,
            (a + w) as u32,
            (a + w + 1) as u32,
        ]
    }
}

/// The indexes of the first `n` rows of cells of a grid that is `cols` cells wide.
pub open spec fn grid(cols: int, n: int) -> Seq<u32>
    decreases n,
{
    if n <= 0 {
        Seq::empty()
    } else {
        grid(cols, n - 1) + grid_row((n - 1) * (cols + 1), cols + 1, cols)
    }
}

/// The indexes of a grid of cells over rows of vertices: two triangles for each cell.
pub fn grid_indices(cols: u32, rows: u32) -> (idx: Vec<u32>)
    requires
        (cols + 1) * (rows + 1) <= u32::MAX,
    ensures
        idx@ == grid(cols as int, rows as int),
{
    let mut idx: Vec<u32> = Vec::new();
    let mut j: u32 = 0;
    let w: u64 = cols as u64 + 1;
    while j < rows
        invariant
            j <= rows,
            w == cols + 1,
            (cols + 1) * (rows + 1) <= u32::MAX,
            idx@ == grid(cols as int, j as int),
        decreases rows - j,
    {
        proof {
            assert((j + 2) * (cols + 1) <= (rows + 1) * (cols + 1)) by (nonlinear_arith)
                requires
                    j < rows,
                    0 <= cols,
            ;
            assert((rows + 1) * (cols + 1) == (cols + 1) * (rows + 1)) by (nonlinear_arith);
            assert((j + 2) * (cols + 1) == j * (cols + 1) + 2 * (cols + 1)) by (nonlinear_arith);
            assert(0 <= j * (cols + 1)) by (nonlinear_arith)
                requires
                    0 <= j,
                    0 <= cols,
            ;
        }
        let row: u32 = (j as u64 * w) as u32;
        let ghost start = idx@;
        let mut i: u32 = 0;
        assert(idx@ =~= start + grid_row(row as int, w as int, 0));
        while i < cols
            invariant
                i <= cols,
                w == cols + 1,
                row == j * (cols + 1),
                row + 2 * (cols + 1) <= u32::MAX,
                idx@ == start + grid_row(row as int, w as int, i as int),
            decreases cols - i,
        {
            let a: u32 = row + i;
            let b: u32 = a + w as u32;
            let ghost before = idx@;
            idx.push(a);
            idx.push(b);
            idx.push(a + 1);
            idx.push(a + 1);
            idx.push(b);
            idx.push(b + 1);
            i = i + 1;
            assert(idx@ =~= start + grid_row(row as int, w as int, i as int));
        }
        j = j + 1;
    }
    idx
}

proof fn lemma_grid_row(row: int, w: int, n: int)
    requires
        0 <= row,
        0 <= n < w,
        row + 2 * w <= u32::MAX,
    ensures
        grid_row(row, w, n).len() == 6 * n,
        forall|i: int|
            0 <= i < grid_row(row, w, n).len() ==> row <= #[trigger] grid_row(row, w, n)[i] < row + 2
                * w,
    decreases n,
{
    if n > 0 {
        lemma_grid_row(row, w, n - 1);
        let before = grid_row(row, w, n - 1);
        let all = grid_row(row, w, n);
        assert forall|i: int| 0 <= i < all.len() implies row <= #[trigger] all[i] < row + 2 * w by {
            if i < before.len() {
                assert(all[i] == before[i]);
            }
        }
    }
}

/// A grid has six indexes for each of its cells, and all of them are vertices of the grid.
pub proof fn grid_stays_on_its_vertices(cols: int, rows: int)
    requires
        0 <= cols,
        0 <= rows,
        (cols + 1) * (rows + 1) <= u32::MAX,
    ensures
        grid(cols, rows).len() == 6 * cols * rows,
        forall|i: int|
            0 <= i < grid(cols, rows).len() ==> 0 <= #[trigger] grid(cols, rows)[i] < (cols + 1) * (
            rows + 1),
    decreases rows,
{
    if rows > 0 {
        let w = cols + 1;
        let row = (rows - 1) * w;
        assert(w * rows == row + w) by (nonlinear_arith)
            requires
                row == (rows - 1) * w,
        ;
        assert(w * (rows + 1) == row + 2 * w) by (nonlinear_arith)
            requires
                row == (rows - 1) * w,
        ;
        assert(0 <= row) by (nonlinear_arith)
            requires
                row == (rows - 1) * w,
                rows >= 1,
                w >= 1,
        ;
        grid_stays_on_its_vertices(cols, rows - 1);
        lemma_grid_row(row, w, cols);
        assert(6 * cols * rows == 6 * cols * (rows - 1) + 6 * cols) by (nonlinear_arith);
        let before = grid(cols, rows - 1);
        let all = grid(cols, rows);
        assert forall|i: int| 0 <= i < all.len() implies 0 <= #[trigger] all[i] < w * (rows + 1) by {
            if i < before.len() {
                assert(all[i] == before[i]);
            } else {
                assert(all[i] == grid_row(row, w, cols)[i - before.len()]);
            }
        }
    }
}

// ---------- joining meshes ----------

/// Indexes moved up by a number of vertices.
pub open spec fn shifted(idx: Seq<u32>, base: int) -> Seq<u32> {
    idx.map_values(|i: u32| (base + i) as u32)
}

/// Appends the indexes of a mesh whose vertices follow `base` others.
pub fn append_indices(out: &mut Vec<u32>, idx: &[u32], base: u32)
    requires
        forall|i: int| 0 <= i < idx@.len() ==> base + #[trigger] idx@[i] <= u32::MAX,
    ensures
        final(out)@ == old(out)@ + shifted(idx@, base as int),
{
    let ghost start = out@;
    let mut i: usize = 0;
    while i < idx.len()
        invariant
            i <= idx@.len(),
            forall|j: int| 0 <= j < idx@.len() ==> base + #[trigger] idx@[j] <= u32::MAX,
            out@ =~= start + shifted(idx@, base as int).take(i as int),
        decreases idx@.len() - i,
    {
        out.push(base + idx[i]);
        i = i + 1;
    }
    assert(shifted(idx@, base as int).take(idx@.len() as int) =~= shifted(idx@, base as int));
}

/// Two meshes joined: every index of the second points behind the vertices of the first.
pub proof fn joined_meshes_do_not_share_vertices(a: Seq<u32>, na: int, b: Seq<u32>, nb: int)
    requires
        0 <= na,
        0 <= nb,
        na + nb <= u32::MAX,
        forall|i: int| 0 <= i < a.len() ==> #[trigger] a[i] < na,
        forall|i: int| 0 <= i < b.len() ==> #[trigger] b[i] < nb,
    ensures
        forall|i: int|
            0 <= i < (a + shifted(b, na)).len() ==> #[trigger] (a + shifted(b, na))[i] < na + nb,
        forall|i: int| 0 <= i < b.len() ==> na <= #[trigger] shifted(b, na)[i],
{
}

// ---------- polygons ----------

/// The points of the first `n` holes.
pub open spec fn hole_points(holes: Seq<Seq<Point>>, n: int) -> Seq<Point>
    decreases n,
{
    if n <= 0 {
        Seq::empty()
    } else {
        hole_points(holes, n - 1) + holes[n - 1]
    }
}

/// All points of an area: its outline, then its holes.
pub open spec fn poly_points(p: PolyView) -> Seq<Point> {
    p.outer + hole_points(p.holes, p.holes.len() as int)
}

/// The index at which each hole starts among all points of an area.
pub open spec fn hole_starts(p: PolyView) -> Seq<int> {
    Seq::new(p.holes.len(), |i: int| (p.outer.len() + hole_points(p.holes, i).len()) as int)
}

/// Indexes as numbers.
pub open spec fn numbers(s: Seq<usize>) -> Seq<int> {
    s.map_values(|i: usize| i as int)
}

/// The points of an area in one list, and the index at which each hole starts.
pub fn flatten(poly: &Poly) -> (r: (Vec<Point>, Vec<usize>))
    ensures
        r.0@ == poly_points(poly@),
        numbers(r.1@) == hole_starts(poly@),
{
    let mut points: Vec<Point> = crate::geo::copy_points(&poly.outer);
    let mut starts: Vec<usize> = Vec::new();
    let ghost view = poly@;
    let mut h: usize = 0;
    assert(points@ =~= view.outer + hole_points(view.holes, 0));
    while h < poly.holes.len()
        invariant
            h <= poly.holes@.len(),
            view == poly@,
            view.holes.len() == poly.holes@.len(),
            points@ == view.outer + hole_points(view.holes, h as int),
            numbers(starts@) =~= hole_starts(view).take(h as int),
        decreases poly.holes@.len() - h,
    {
        assert(view.holes[h as int] == poly.holes@[h as int]@);
        let ghost start = points@;
        let ghost before = starts@;
        starts.push(points.len());
        assert(numbers(starts@) =~= numbers(before).push(start.len() as int));
        assert(hole_starts(view)[h as int] == start.len());
        let hole: &Vec<Point> = &poly.holes[h];
        let mut i: usize = 0;
        while i < hole.len()
            invariant
                i <= hole@.len(),
                points@ =~= start + hole@.take(i as int),
            decreases hole@.len() - i,
        {
            points.push(hole[i]);
            i = i + 1;
        }
        assert(hole@.take(hole@.len() as int) =~= hole@);
        h = h + 1;
        assert(points@ =~= view.outer + hole_points(view.holes, h as int));
    }
    assert(hole_starts(view).take(view.holes.len() as int) =~= hole_starts(view));
    (points, starts)
}

/// Appends the triangles of an area whose `count` points follow `base` others, and says whether
/// there were any: fewer than three indexes make no triangle, and the area is left out.
pub fn push_triangles(out: &mut Vec<u32>, triangles: &[usize], base: u32, count: u32) -> (used: bool)
    requires
        base + count <= u32::MAX,
        forall|i: int| 0 <= i < triangles@.len() ==> #[trigger] triangles@[i] < count,
    ensures
        used == (triangles@.len() >= 3),
        final(out)@ == if used {
            old(out)@ + triangles@.map_values(|i: usize| (base + i) as u32)
        } else {
            old(out)@
        },
{
    if triangles.len() < 3 {
        return false;
    }
    let ghost start = out@;
    let ghost all = triangles@.map_values(|i: usize| (base + i) as u32);
    let mut i: usize = 0;
    while i < triangles.len()
        invariant
            i <= triangles@.len(),
            base + count <= u32::MAX,
            all == triangles@.map_values(|i: usize| (base + i) as u32),
            forall|j: int| 0 <= j < triangles@.len() ==> #[trigger] triangles@[j] < count,
            out@ =~= start + all.take(i as int),
        decreases triangles@.len() - i,
    {
        out.push(base + triangles[i] as u32);
        i = i + 1;
    }
    assert(all.take(all.len() as int) =~= all);
    true
}

} // verus!
