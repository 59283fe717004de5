//! Laws of lines and rings: how nodes become lines, how lines are joined to rings, and how areas are
//! measured.

use vstd::prelude::*;

use crate::extract::{
    assembled, chains_of, grown, is_closed, joined, near, next_link, node_points, path_of, ring_of,
    rings_from, MAX_JOINS,
};
use crate::geo::Point;
use crate::osm::WayView;

verus! {

// ---------- lines ----------

/// The positions of nodes, one for one.
pub open spec fn positions(ids: Seq<i64>, xy: Map<i64, Point>) -> Seq<Point> {
    Seq::new(ids.len(), |i: int| xy[ids[i]])
}

/// Whether every node has a position.
pub open spec fn all_placed(ids: Seq<i64>, xy: Map<i64, Point>) -> bool {
    forall|i: int| 0 <= i < ids.len() ==> xy.contains_key(#[trigger] ids[i])
}

/// Whether no point is followed by itself.
pub open spec fn no_standstill(pts: Seq<Point>) -> bool {
    forall|i: int| 0 < i < pts.len() ==> pts[i - 1] != #[trigger] pts[i]
}

/// Nodes become a line exactly where all of them have positions. The line never stands still, has the
/// points of the nodes and no others, starts and ends where they do, and is their positions one for
/// one where those do not stand still.
pub proof fn lines_follow_their_nodes(ids: Seq<i64>, xy: Map<i64, Point>)
    ensures
        node_points(ids, xy) is Some <==> all_placed(ids, xy),
        all_placed(ids, xy) ==> {
            let pts = node_points(ids, xy)->Some_0;
            let all = positions(ids, xy);
            &&& no_standstill(pts)
            &&& forall|p: Point| pts.contains(p) <==> all.contains(p)
            &&& pts.len() <= ids.len()
            &&& ids.len() > 0 ==> pts.len() > 0 && pts.first() == all.first() && pts.last()
                == all.last()
            &&& no_standstill(all) ==> pts == all
        },
    decreases ids.len(),
{
    let all = positions(ids, xy);
    if ids.len() == 0 {
        assert(all =~= Seq::empty());
    } else {
        let rest = ids.drop_last();
        let before = positions(rest, xy);
        lines_follow_their_nodes(rest, xy);
        assert(before =~= all.drop_last());
        assert(ids[ids.len() - 1] == ids.last());
        if all_placed(ids, xy) {
            assert forall|i: int| 0 <= i < rest.len() implies xy.contains_key(#[trigger] rest[i]) by {
                assert(rest[i] == ids[i]);
            }
            let p = xy[ids.last()];
            let old = node_points(rest, xy)->Some_0;
            let pts = node_points(ids, xy)->Some_0;
            assert(all.last() == p);
            assert forall|q: Point| pts.contains(q) <==> all.contains(q) by {
                if all.contains(q) {
                    let i = choose|i: int| 0 <= i < all.len() && all[i] == q;
                    if i < before.len() {
                        assert(before[i] == q);
                        assert(old.contains(q));
                        let j = choose|j: int| 0 <= j < old.len() && old[j] == q;
                        assert(pts[j] == q);
                    } else {
                        assert(pts[pts.len() - 1] == q);
                    }
                }
                if pts.contains(q) {
                    let j = choose|j: int| 0 <= j < pts.len() && pts[j] == q;
                    if j < old.len() {
                        assert(old[j] == q);
                        assert(before.contains(q));
                        let i = choose|i: int| 0 <= i < before.len() && before[i] == q;
                        assert(all[i] == q);
                    } else {
                        assert(all[all.len() - 1] == q);
                    }
                }
            }
            if no_standstill(all) {
                assert forall|i: int| 0 < i < before.len() implies before[i - 1]
                    != #[trigger] before[i] by {
                    assert(all[i - 1] != all[i]);
                }
                if before.len() > 0 {
                    assert(all[before.len() - 1] != all[before.len() as int]);
                }
                assert(pts =~= all);
            }
        } else {
            if all_placed(rest, xy) && xy.contains_key(ids.last()) {
                assert forall|i: int| 0 <= i < ids.len() implies xy.contains_key(#[trigger] ids[i]) by {
                    if i < rest.len() {
                        assert(rest[i] == ids[i]);
                    }
                }
            }
        }
    }
}

/// A way is a line where its nodes have positions that give two or more points, and a ring where it
/// has at least four nodes, the last one being the first again, and three or more points are left.
pub proof fn ways_are_lines_and_rings(ids: Seq<i64>, xy: Map<i64, Point>)
    ensures
        path_of(ids, xy) is Some <==> all_placed(ids, xy) && node_points(ids, xy)->Some_0.len() >= 2,
        path_of(ids, xy) is Some ==> path_of(ids, xy) == node_points(ids, xy),
        ring_of(ids, xy) is Some <==> ids.len() >= 4 && ids[0] == ids[ids.len() - 1] && all_placed(
            ids.take(ids.len() - 1),
            xy,
        ) && node_points(ids.take(ids.len() - 1), xy)->Some_0.len() >= 3,
        ring_of(ids, xy) is Some ==> ring_of(ids, xy) == node_points(ids.take(ids.len() - 1), xy),
{
    lines_follow_their_nodes(ids, xy);
    if ids.len() > 0 {
        lines_follow_their_nodes(ids.take(ids.len() - 1), xy);
        assert(ids.drop_last() =~= ids.take(ids.len() - 1));
    }
}

// ---------- joining lines to rings ----------

/// Whether two points are at least ten centimetres apart.
pub open spec fn apart(a: Point, b: Point) -> bool {
    (a.x - b.x) * (a.x - b.x) + (a.y - b.y) * (a.y - b.y) >= 100
}

/// One end of a line.
pub open spec fn end_of(lines: Seq<Seq<Point>>, e: (int, bool)) -> Point {
    if e.1 {
        lines[e.0].last()
    } else {
        lines[e.0].first()
    }
}

/// Whether an end is one of some lines.
pub open spec fn is_end(lines: Seq<Seq<Point>>, e: (int, bool)) -> bool {
    0 <= e.0 < lines.len()
}

/// Whether lines close up: every end lies on exactly one other end, and apart from all others.
pub open spec fn closes_up(lines: Seq<Seq<Point>>) -> bool {
    &&& forall|d: (int, bool), e: (int, bool)|
        is_end(lines, d) && is_end(lines, e) && d != e ==> #[trigger] end_of(lines, d)
            == #[trigger] end_of(lines, e) || apart(end_of(lines, d), end_of(lines, e))
    &&& forall|d: (int, bool)| #[trigger]
        is_end(lines, d) ==> exists|e: (int, bool)|
            is_end(lines, e) && e != d && #[trigger] end_of(lines, e) == end_of(lines, d)
    &&& forall|d: (int, bool), e: (int, bool), f: (int, bool)|
        is_end(lines, d) && is_end(lines, e) && is_end(lines, f) && d != e && d != f && e != f
            && #[trigger] end_of(lines, d) == #[trigger] end_of(lines, e) ==> #[trigger] end_of(
            lines,
            f,
        ) != end_of(lines, d)
}

/// Whether every line has two or more points, and every loop of one or two lines three or more
/// different places.
pub open spec fn encloses(lines: Seq<Seq<Point>>) -> bool {
    &&& forall|i: int| 0 <= i < lines.len() ==> (#[trigger] lines[i]).len() >= 2
    &&& forall|i: int|
        0 <= i < lines.len() && (#[trigger] lines[i]).first() == lines[i].last() ==> lines[i].len()
            >= 4
    &&& forall|i: int, j: int|
        0 <= i < lines.len() && 0 <= j < lines.len() && i != j && same_ends(
            #[trigger] lines[i],
            #[trigger] lines[j],
        ) ==> lines[i].len() + lines[j].len() >= 5
}

/// Whether two lines have the same two ends, either way round.
pub open spec fn same_ends(a: Seq<Point>, b: Seq<Point>) -> bool {
    (a.first() == b.first() && a.last() == b.last()) || (a.first() == b.last() && a.last()
        == b.first())
}

/// The number of points of lines, the last one of each not counted.
pub open spec fn total(lines: Seq<Seq<Point>>) -> int
    decreases lines.len(),
{
    if lines.len() == 0 {
        0
    } else {
        total(lines.drop_last()) + lines.last().len() - 1
    }
}

/// The number of points of rings.
pub open spec fn ring_total(rings: Seq<Seq<Point>>) -> int
    decreases rings.len(),
{
    if rings.len() == 0 {
        0
    } else {
        ring_total(rings.drop_last()) + rings.last().len()
    }
}

/// Whether a point is on one of some lines.
pub open spec fn on_some(lines: Seq<Seq<Point>>, p: Point) -> bool {
    exists|i: int| 0 <= i < lines.len() && (#[trigger] lines[i]).contains(p)
}

proof fn lemma_near(a: Point, b: Point)
    ensures
        near(a, b) <==> !apart(a, b),
        near(a, a),
{
    assert((a.x - a.x) * (a.x - a.x) == 0 && (a.y - a.y) * (a.y - a.y) == 0) by (nonlinear_arith);
}

proof fn lemma_total_remove(lines: Seq<Seq<Point>>, i: int)
    requires
        0 <= i < lines.len(),
    ensures
        total(lines.remove(i)) == total(lines) - (lines[i].len() - 1),
    decreases lines.len(),
{
    let left = lines.remove(i);
    if i == lines.len() - 1 {
        assert(left =~= lines.drop_last());
    } else {
        lemma_total_remove(lines.drop_last(), i);
        assert(left.drop_last() =~= lines.drop_last().remove(i));
        assert(left.last() == lines.last());
    }
}

/// Where an end of the lines stood before line `i` was joined to the last one.
spec fn stood(e: (int, bool), i: int, s: bool, n: int) -> (int, bool) {
    if e.0 == n - 1 {
        if e.1 {
            (i, !s)
        } else {
            (n, false)
        }
    } else if e.0 < i {
        e
    } else {
        (e.0 + 1, e.1)
    }
}

/// The lines after line `i` was joined to the last one.
spec fn after_join(lines: Seq<Seq<Point>>, i: int) -> Seq<Seq<Point>> {
    lines.drop_last().remove(i).push(joined(lines.last(), lines[i]))
}

/// Whether line `i` can be joined to the last one by its end `s`.
spec fn joinable(lines: Seq<Seq<Point>>, i: int, s: bool) -> bool {
    &&& closes_up(lines)
    &&& encloses(lines)
    &&& 0 <= i < lines.len() - 1
    &&& end_of(lines, (i, s)) == lines.last().last()
    &&& lines.last().first() != lines.last().last()
}

proof fn lemma_way_round(lines: Seq<Seq<Point>>, i: int, s: bool)
    requires
        joinable(lines, i, s),
    ensures
        lines.last().len() >= 2,
        lines[i].len() >= 2,
        near(lines.last().last(), lines[i].first()) <==> !s,
{
    let n = lines.len() - 1;
    assert(lines[n] == lines.last());
    let tail = lines.last().last();
    lemma_near(tail, lines[i].first());
    assert(is_end(lines, (i, false)) && is_end(lines, (i, true)) && is_end(lines, (n, true)));
    assert(end_of(lines, (n, true)) == tail);
    assert(end_of(lines, (i, false)) == lines[i].first());
    assert(end_of(lines, (i, !s)) != tail);
    if s {
        assert(apart(end_of(lines, (n, true)), end_of(lines, (i, false))));
    }
}

proof fn lemma_link(lines: Seq<Seq<Point>>, i: int, s: bool)
    requires
        joinable(lines, i, s),
    ensures
        joined(lines.last(), lines[i]).len() == lines.last().len() + lines[i].len() - 1,
        joined(lines.last(), lines[i]).first() == lines.last().first(),
        joined(lines.last(), lines[i]).last() == end_of(lines, (i, !s)),
        forall|p: Point|
            joined(lines.last(), lines[i]).contains(p) <==> lines.last().contains(p)
                || lines[i].contains(p),
{
    let chain = lines.last();
    let other = lines[i];
    let link = joined(chain, other);
    lemma_way_round(lines, i, s);
    if s {
        assert(link == chain + other.drop_last().reverse());
    } else {
        assert(link == chain + other.skip(1));
    }
    assert forall|p: Point| link.contains(p) <==> chain.contains(p) || other.contains(p) by {
        if chain.contains(p) {
            let k = choose|k: int| 0 <= k < chain.len() && chain[k] == p;
            assert(link[k] == p);
        }
        if other.contains(p) {
            let k = choose|k: int| 0 <= k < other.len() && other[k] == p;
            if s {
                if k == other.len() - 1 {
                    assert(link[chain.len() - 1] == p);
                } else {
                    assert(link[chain.len() + (other.len() - 2 - k)] == p);
                }
            } else {
                if k == 0 {
                    assert(link[chain.len() - 1] == p);
                } else {
                    assert(link[chain.len() + k - 1] == p);
                }
            }
        }
        if link.contains(p) {
            let k = choose|k: int| 0 <= k < link.len() && link[k] == p;
            if k < chain.len() {
                assert(chain[k] == p);
            } else if s {
                assert(other[other.len() - 2 - (k - chain.len())] == p);
            } else {
                assert(other[k - chain.len() + 1] == p);
            }
        }
    }
}

/// Every end stands where it stood, and is none of the two that were joined.
proof fn lemma_stood(lines: Seq<Seq<Point>>, i: int, s: bool, e: (int, bool))
    requires
        joinable(lines, i, s),
        is_end(after_join(lines, i), e),
    ensures
        is_end(lines, stood(e, i, s, lines.len() - 1)),
        end_of(after_join(lines, i), e) == end_of(lines, stood(e, i, s, lines.len() - 1)),
        stood(e, i, s, lines.len() - 1) != (lines.len() - 1, true),
        stood(e, i, s, lines.len() - 1) != (i, s),
{
    let n = lines.len() - 1;
    let new = after_join(lines, i);
    lemma_link(lines, i, s);
    assert(new.len() == n);
    assert(lines[n] == lines.last());
    if e.0 == n - 1 {
        assert(new[e.0] == joined(lines.last(), lines[i]));
    } else if e.0 < i {
        assert(new[e.0] == lines[e.0]);
    } else {
        assert(new[e.0] == lines[e.0 + 1]);
    }
}

proof fn lemma_join_partner(lines: Seq<Seq<Point>>, i: int, s: bool, d: (int, bool))
    requires
        joinable(lines, i, s),
        is_end(after_join(lines, i), d),
    ensures
        exists|e: (int, bool)|
            is_end(after_join(lines, i), e) && e != d && #[trigger] end_of(after_join(lines, i), e)
                == end_of(after_join(lines, i), d),
{
    let n = lines.len() - 1;
    let new = after_join(lines, i);
    assert(new.len() == n);
    assert(lines[n] == lines.last());
    lemma_stood(lines, i, s, d);
    let a = stood(d, i, s, n);
    let b = choose|b: (int, bool)|
        is_end(lines, b) && b != a && #[trigger] end_of(lines, b) == end_of(lines, a);
    assert(is_end(lines, (n, true)) && is_end(lines, (i, s)));
    assert(end_of(lines, (n, true)) == end_of(lines, (i, s)));
    // Its partner is neither of the two ends that were joined, which have each other.
    assert(b != (n, true) && b != (i, s));
    let e: (int, bool) = if b == (i, !s) {
        (n - 1, true)
    } else if b == (n, false) {
        (n - 1, false)
    } else if b.0 < i {
        b
    } else {
        (b.0 - 1, b.1)
    };
    assert(b.0 != i || b == (i, !s));
    assert(b.0 != n || b == (n, false));
    assert(is_end(new, e));
    assert(stood(e, i, s, n) == b);
    lemma_stood(lines, i, s, e);
    assert(end_of(new, e) == end_of(new, d));
}

proof fn lemma_join_closes(lines: Seq<Seq<Point>>, i: int, s: bool)
    requires
        joinable(lines, i, s),
    ensures
        closes_up(after_join(lines, i)),
{
    let n = lines.len() - 1;
    let new = after_join(lines, i);
    assert(new.len() == n);
    assert forall|d: (int, bool), e: (int, bool)|
        is_end(new, d) && is_end(new, e) && d != e implies #[trigger] end_of(new, d)
        == #[trigger] end_of(new, e) || apart(end_of(new, d), end_of(new, e)) by {
        lemma_stood(lines, i, s, d);
        lemma_stood(lines, i, s, e);
        assert(stood(d, i, s, n) != stood(e, i, s, n));
    }
    assert forall|d: (int, bool), e: (int, bool), f: (int, bool)|
        is_end(new, d) && is_end(new, e) && is_end(new, f) && d != e && d != f && e != f
            && #[trigger] end_of(new, d) == #[trigger] end_of(new, e) implies #[trigger] end_of(
        new,
        f,
    ) != end_of(new, d) by {
        lemma_stood(lines, i, s, d);
        lemma_stood(lines, i, s, e);
        lemma_stood(lines, i, s, f);
        assert(stood(d, i, s, n) != stood(e, i, s, n));
        assert(stood(d, i, s, n) != stood(f, i, s, n));
        assert(stood(e, i, s, n) != stood(f, i, s, n));
    }
    assert forall|d: (int, bool)| #[trigger] is_end(new, d) implies exists|e: (int, bool)|
        is_end(new, e) && e != d && #[trigger] end_of(new, e) == end_of(new, d) by {
        lemma_join_partner(lines, i, s, d);
    }
}

proof fn lemma_join_encloses(lines: Seq<Seq<Point>>, i: int, s: bool)
    requires
        joinable(lines, i, s),
    ensures
        encloses(after_join(lines, i)),
{
    let n = lines.len() - 1;
    let new = after_join(lines, i);
    let link = joined(lines.last(), lines[i]);
    lemma_way_round(lines, i, s);
    lemma_link(lines, i, s);
    assert(lines[n] == lines.last());
    assert(new.len() == n);
    assert forall|k: int| 0 <= k < new.len() implies (#[trigger] new[k]).len() >= 2 && (new[k].first()
        == new[k].last() ==> new[k].len() >= 4) by {
        if k == n - 1 {
            assert(new[k] == link);
            if link.first() == link.last() {
                assert(same_ends(lines[n], lines[i]));
            }
        } else if k < i {
            assert(new[k] == lines[k]);
        } else {
            assert(new[k] == lines[k + 1]);
        }
    }
    assert forall|k: int, m: int|
        0 <= k < new.len() && 0 <= m < new.len() && k != m && same_ends(
            #[trigger] new[k],
            #[trigger] new[m],
        ) implies new[k].len() + new[m].len() >= 5 by {
        if k != n - 1 && m != n - 1 {
            let a = if k < i { k } else { k + 1 };
            let b = if m < i { m } else { m + 1 };
            assert(new[k] == lines[a] && new[m] == lines[b]);
            assert(same_ends(lines[a], lines[b]));
        }
    }
}

proof fn lemma_next_link_is(tail: Point, chains: Seq<Seq<Point>>, from: int, i: int)
    requires
        0 <= from <= i < chains.len(),
        near(tail, chains[i].first()) || near(tail, chains[i].last()),
        forall|j: int|
            from <= j < i ==> !near(tail, (#[trigger] chains[j]).first()) && !near(
                tail,
                chains[j].last(),
            ),
    ensures
        next_link(tail, chains, from) == Some(i),
    decreases i - from,
{
    if from < i {
        assert(!near(tail, chains[from].first()) && !near(tail, chains[from].last()));
        lemma_next_link_is(tail, chains, from + 1, i);
    }
}

proof fn lemma_without_last(lines: Seq<Seq<Point>>)
    requires
        closes_up(lines),
        encloses(lines),
        lines.len() > 0,
        lines.last().first() == lines.last().last(),
    ensures
        closes_up(lines.drop_last()),
        encloses(lines.drop_last()),
{
    let n = lines.len() - 1;
    let left = lines.drop_last();
    assert(is_end(lines, (n, true)) && is_end(lines, (n, false)));
    assert(end_of(lines, (n, true)) == end_of(lines, (n, false)));
    assert forall|e: (int, bool)| #[trigger] is_end(left, e) implies is_end(lines, e) && end_of(
        left,
        e,
    ) == end_of(lines, e) && e != (n, true) && e != (n, false) by {
        assert(left[e.0] == lines[e.0]);
    }
    assert forall|d: (int, bool)| #[trigger] is_end(left, d) implies exists|e: (int, bool)|
        is_end(left, e) && e != d && #[trigger] end_of(left, e) == end_of(left, d) by {
        let b = choose|b: (int, bool)|
            is_end(lines, b) && b != d && #[trigger] end_of(lines, b) == end_of(lines, d);
        if b == (n, true) {
            assert(end_of(lines, (n, false)) == end_of(lines, d));
            assert(false);
        }
        if b == (n, false) {
            assert(end_of(lines, (n, true)) == end_of(lines, d));
            assert(false);
        }
        assert(is_end(left, b));
        assert(end_of(left, b) == end_of(left, d));
    }
    assert forall|d: (int, bool), e: (int, bool)|
        is_end(left, d) && is_end(left, e) && d != e implies #[trigger] end_of(left, d)
        == #[trigger] end_of(left, e) || apart(end_of(left, d), end_of(left, e)) by {
        assert(end_of(left, d) == end_of(lines, d) && end_of(left, e) == end_of(lines, e));
    }
    assert forall|d: (int, bool), e: (int, bool), f: (int, bool)|
        is_end(left, d) && is_end(left, e) && is_end(left, f) && d != e && d != f && e != f
            && #[trigger] end_of(left, d) == #[trigger] end_of(left, e) implies #[trigger] end_of(
        left,
        f,
    ) != end_of(left, d) by {
        assert(end_of(left, d) == end_of(lines, d) && end_of(left, e) == end_of(lines, e) && end_of(
            left,
            f,
        ) == end_of(lines, f));
    }
    assert forall|k: int| 0 <= k < left.len() implies #[trigger] left[k] == lines[k] by {}
    assert forall|k: int, m: int|
        0 <= k < left.len() && 0 <= m < left.len() && k != m && same_ends(
            #[trigger] left[k],
            #[trigger] left[m],
        ) implies left[k].len() + left[m].len() >= 5 by {
        assert(same_ends(lines[k], lines[m]));
    }
}

/// The last of lines that close up grows to a ring, and what is left closes up.
proof fn lemma_grows(lines: Seq<Seq<Point>>, fuel: nat)
    requires
        closes_up(lines),
        encloses(lines),
        lines.len() > 0,
        fuel > lines.len(),
    ensures
        ({
            let (ring, left) = grown(lines.last(), lines.drop_last(), fuel);
            &&& ring is Some
            &&& closes_up(left)
            &&& encloses(left)
            &&& left.len() < lines.len()
            &&& ring->Some_0.len() + total(left) == total(lines)
            &&& ring->Some_0.len() >= 3
            &&& forall|p: Point|
                on_some(lines, p) <==> ring->Some_0.contains(p) || on_some(left, p)
        }),
    decreases lines.len(),
{
    let n = lines.len() - 1;
    let chain = lines.last();
    let chains = lines.drop_last();
    assert(lines[n] == chain);
    if chain.first() == chain.last() {
        lemma_without_last(lines);
        let ring = chain.drop_last();
        assert(is_closed(chain));
        assert forall|p: Point| on_some(lines, p) <==> ring.contains(p) || on_some(chains, p) by {
            if on_some(lines, p) {
                let i = choose|i: int| 0 <= i < lines.len() && (#[trigger] lines[i]).contains(p);
                if i < n {
                    assert(chains[i].contains(p));
                } else {
                    let k = choose|k: int| 0 <= k < chain.len() && chain[k] == p;
                    if k == chain.len() - 1 {
                        assert(ring[0] == p);
                    } else {
                        assert(ring[k] == p);
                    }
                }
            }
            if ring.contains(p) {
                let k = choose|k: int| 0 <= k < ring.len() && ring[k] == p;
                assert(chain[k] == p);
                assert(lines[n].contains(p));
            }
            if on_some(chains, p) {
                let i = choose|i: int| 0 <= i < chains.len() && (#[trigger] chains[i]).contains(p);
                assert(lines[i].contains(p));
            }
        }
    } else {
        let tail = chain.last();
        assert(is_end(lines, (n, true)));
        assert(end_of(lines, (n, true)) == tail);
        let b = choose|b: (int, bool)|
            is_end(lines, b) && b != (n, true) && #[trigger] end_of(lines, b) == end_of(
                lines,
                (n, true),
            );
        assert(b != (n, false)) by {
            assert(end_of(lines, (n, false)) == chain.first());
        }
        let i = b.0;
        let s = b.1;
        assert(0 <= i < n);
        lemma_near(tail, chains[i].first());
        lemma_near(tail, chains[i].last());
        lemma_near(tail, tail);
        assert(chains[i] == lines[i]);
        assert(near(tail, chains[i].first()) || near(tail, chains[i].last()));
        assert forall|j: int| 0 <= j < i implies !near(tail, (#[trigger] chains[j]).first()) && !near(
            tail,
            chains[j].last(),
        ) by {
            assert(chains[j] == lines[j]);
            assert(is_end(lines, (j, false)) && is_end(lines, (j, true)));
            assert(end_of(lines, (j, false)) == lines[j].first());
            assert(end_of(lines, (j, true)) == lines[j].last());
            lemma_near(tail, lines[j].first());
            lemma_near(tail, lines[j].last());
            assert(end_of(lines, (j, false)) != tail);
            assert(end_of(lines, (j, true)) != tail);
        }
        lemma_next_link_is(tail, chains, 0, i);
        lemma_link(lines, i, s);
        lemma_join_closes(lines, i, s);
        lemma_join_encloses(lines, i, s);
        let link = joined(chain, lines[i]);
        let next = after_join(lines, i);
        assert(next.drop_last() =~= chains.remove(i));
        assert(next.last() == link);
        lemma_grows(next, (fuel - 1) as nat);
        lemma_total_remove(chains, i);
        assert(total(next) == total(lines));
        assert forall|p: Point| on_some(lines, p) <==> on_some(next, p) by {
            if on_some(lines, p) {
                let k = choose|k: int| 0 <= k < lines.len() && (#[trigger] lines[k]).contains(p);
                if k == n || k == i {
                    assert(next[n - 1].contains(p));
                } else {
                    let m = if k < i { k } else { k - 1 };
                    assert(next[m] == lines[k]);
                    assert(next[m].contains(p));
                }
            }
            if on_some(next, p) {
                let m = choose|m: int| 0 <= m < next.len() && (#[trigger] next[m]).contains(p);
                if m == n - 1 {
                    assert(lines[n].contains(p) || lines[i].contains(p));
                } else {
                    let k = if m < i { m } else { m + 1 };
                    assert(next[m] == lines[k]);
                    assert(lines[k].contains(p));
                }
            }
        }
    }
}

proof fn lemma_ring_total_first(r: Seq<Point>, rings: Seq<Seq<Point>>)
    ensures
        ring_total(seq![r] + rings) == r.len() + ring_total(rings),
    decreases rings.len(),
{
    let all = seq![r] + rings;
    if rings.len() == 0 {
        assert(all =~= seq![r]);
        assert(all.drop_last() =~= Seq::empty());
        assert(ring_total(all.drop_last()) == 0);
    } else {
        lemma_ring_total_first(r, rings.drop_last());
        assert(all.drop_last() =~= seq![r] + rings.drop_last());
        assert(all.last() == rings.last());
    }
}

/// Lines that close up are all used: the rings have as many points as the lines, the last of each not
/// counted, and exactly their points. The lines may come in any order and run in any direction.
proof fn lemma_all_lines_are_used(lines: Seq<Seq<Point>>)
    requires
        closes_up(lines),
        encloses(lines),
        lines.len() < 10_000,
    ensures
        ring_total(rings_from(lines)) == total(lines),
        forall|p: Point| on_some(rings_from(lines), p) <==> on_some(lines, p),
        lines.len() > 0 ==> rings_from(lines).len() > 0,
        forall|i: int| 0 <= i < rings_from(lines).len() ==> (#[trigger] rings_from(lines)[i]).len() >= 3,
    decreases lines.len(),
{
    if lines.len() == 0 {
        assert(rings_from(lines) =~= Seq::empty());
    } else {
        lemma_grows(lines, MAX_JOINS as nat);
        let (ring, left) = grown(lines.last(), lines.drop_last(), MAX_JOINS as nat);
        let r = ring->Some_0;
        lemma_all_lines_are_used(left);
        lemma_ring_total_first(r, rings_from(left));
        let all = rings_from(lines);
        assert(all == seq![r] + rings_from(left));
        assert forall|i: int| 0 <= i < all.len() implies (#[trigger] all[i]).len() >= 3 by {
            if i > 0 {
                assert(all[i] == rings_from(left)[i - 1]);
            }
        }
        assert forall|p: Point| on_some(all, p) <==> on_some(lines, p) by {
            if on_some(all, p) {
                let i = choose|i: int| 0 <= i < all.len() && (#[trigger] all[i]).contains(p);
                if i > 0 {
                    assert(rings_from(left)[i - 1].contains(p));
                    assert(on_some(rings_from(left), p));
                }
            }
            if on_some(lines, p) {
                if r.contains(p) {
                    assert(all[0].contains(p));
                } else {
                    assert(on_some(left, p));
                    let i = choose|i: int|
                        0 <= i < rings_from(left).len() && (#[trigger] rings_from(
                            left,
                        )[i]).contains(p);
                    assert(all[i + 1].contains(p));
                }
            }
        }
    }
}

/// The lines of ways, point for point.
pub open spec fn lines_of(ids: Seq<i64>, ways: Map<i64, WayView>, xy: Map<i64, Point>) -> Seq<
    Seq<Point>,
> {
    Seq::new(ids.len(), |i: int| positions(ways[ids[i]].node_ids, xy))
}

/// Whether ways are known, with nodes that have positions and do not stand still.
pub open spec fn all_known(ids: Seq<i64>, ways: Map<i64, WayView>, xy: Map<i64, Point>) -> bool {
    forall|i: int|
        0 <= i < ids.len() ==> {
            &&& ways.contains_key(#[trigger] ids[i])
            &&& all_placed(ways[ids[i]].node_ids, xy)
            &&& no_standstill(positions(ways[ids[i]].node_ids, xy))
            &&& ways[ids[i]].node_ids.len() >= 2
        }
}

proof fn lemma_chains(ids: Seq<i64>, ways: Map<i64, WayView>, xy: Map<i64, Point>, n: int)
    requires
        0 <= n <= ids.len(),
        all_known(ids, ways, xy),
    ensures
        chains_of(ids, ways, xy, n) == lines_of(ids, ways, xy).take(n),
    decreases n,
{
    let all = lines_of(ids, ways, xy);
    if n > 0 {
        lemma_chains(ids, ways, xy, n - 1);
        let id = ids[n - 1];
        assert(ways.contains_key(ids[n - 1]));
        lines_follow_their_nodes(ways[id].node_ids, xy);
        ways_are_lines_and_rings(ways[id].node_ids, xy);
        assert(all.take(n) =~= all.take(n - 1).push(all[n - 1]));
    }
    assert(chains_of(ids, ways, xy, n) =~= all.take(n));
}

/// Ways whose lines close up are all assembled to rings, in whatever order they are listed and in
/// whatever direction they run: the rings have as many points as the lines, the last of each not
/// counted, and exactly their points.
pub proof fn closed_outlines_are_assembled(
    ids: Seq<i64>,
    ways: Map<i64, WayView>,
    xy: Map<i64, Point>,
)
    requires
        all_known(ids, ways, xy),
        closes_up(lines_of(ids, ways, xy)),
        encloses(lines_of(ids, ways, xy)),
        ids.len() < 10_000,
    ensures
        ring_total(assembled(ids, ways, xy)) == total(lines_of(ids, ways, xy)),
        forall|p: Point|
            on_some(assembled(ids, ways, xy), p) <==> on_some(lines_of(ids, ways, xy), p),
        ids.len() > 0 ==> assembled(ids, ways, xy).len() > 0,
        forall|i: int|
            0 <= i < assembled(ids, ways, xy).len() ==> (#[trigger] assembled(ids, ways, xy)[i]).len()
                >= 3,
{
    let lines = lines_of(ids, ways, xy);
    lemma_chains(ids, ways, xy, ids.len() as int);
    assert(lines.take(ids.len() as int) =~= lines);
    lemma_all_lines_are_used(lines);
}

/// Turning ways round does not keep lines from closing up, nor lines that close up from being
/// assembled: the rings have the same number of points and the same points.
pub proof fn directions_of_ways_do_not_matter(
    ids: Seq<i64>,
    a: Map<i64, WayView>,
    b: Map<i64, WayView>,
    xy: Map<i64, Point>,
)
    requires
        all_known(ids, a, xy),
        forall|i: int|
            0 <= i < ids.len() ==> b.contains_key(#[trigger] ids[i]) && (b[ids[i]].node_ids
                == a[ids[i]].node_ids || b[ids[i]].node_ids == a[ids[i]].node_ids.reverse()),
        closes_up(lines_of(ids, a, xy)),
        encloses(lines_of(ids, a, xy)),
        ids.len() < 10_000,
    ensures
        ring_total(assembled(ids, b, xy)) == ring_total(assembled(ids, a, xy)),
        forall|p: Point| on_some(assembled(ids, b, xy), p) <==> on_some(assembled(ids, a, xy), p),
{
    let x = lines_of(ids, a, xy);
    let y = lines_of(ids, b, xy);
    assert forall|i: int| 0 <= i < ids.len() implies #[trigger] y[i] == x[i] || y[i]
        == x[i].reverse() by {
        assert(b.contains_key(ids[i]));
        if b[ids[i]].node_ids == a[ids[i]].node_ids.reverse() {
            assert(y[i] =~= x[i].reverse());
        }
    }
    assert forall|i: int| 0 <= i < ids.len() implies {
        &&& b.contains_key(#[trigger] ids[i])
        &&& all_placed(b[ids[i]].node_ids, xy)
        &&& no_standstill(positions(b[ids[i]].node_ids, xy))
        &&& b[ids[i]].node_ids.len() >= 2
    } by {
        assert(a.contains_key(ids[i]));
        let p = a[ids[i]].node_ids;
        let q = b[ids[i]].node_ids;
        if q == p.reverse() {
            assert forall|k: int| 0 <= k < q.len() implies xy.contains_key(#[trigger] q[k]) by {
                assert(q[k] == p[p.len() - 1 - k]);
            }
            let s = positions(p, xy);
            let t = positions(q, xy);
            assert forall|k: int| 0 < k < t.len() implies t[k - 1] != #[trigger] t[k] by {
                assert(t[k] == s[s.len() - 1 - k]);
                assert(t[k - 1] == s[s.len() - k]);
                assert(s[s.len() - k - 1] != s[s.len() - k]);
            }
        }
    }
    lemma_turned(x, y);
    closed_outlines_are_assembled(ids, a, xy);
    closed_outlines_are_assembled(ids, b, xy);
}

spec fn turned_end(x: Seq<Seq<Point>>, y: Seq<Seq<Point>>, e: (int, bool)) -> (int, bool) {
    if y[e.0] == x[e.0] {
        e
    } else {
        (e.0, !e.1)
    }
}

proof fn lemma_turned(x: Seq<Seq<Point>>, y: Seq<Seq<Point>>)
    requires
        x.len() == y.len(),
        forall|i: int| 0 <= i < x.len() ==> #[trigger] y[i] == x[i] || y[i] == x[i].reverse(),
        closes_up(x),
        encloses(x),
    ensures
        closes_up(y),
        encloses(y),
        total(y) == total(x),
        forall|p: Point| on_some(x, p) <==> on_some(y, p),
{
    assert forall|i: int| 0 <= i < x.len() implies (#[trigger] y[i]).len() == x[i].len() && y[i].len()
        >= 2 && ((y[i].first() == x[i].first() && y[i].last() == x[i].last()) || (y[i].first()
        == x[i].last() && y[i].last() == x[i].first())) by {
        assert(x[i].len() >= 2);
    }
    assert forall|e: (int, bool)| #[trigger] is_end(y, e) implies is_end(x, turned_end(x, y, e))
        && end_of(y, e) == end_of(x, turned_end(x, y, e)) by {
        assert(y[e.0] == x[e.0] || y[e.0] == x[e.0].reverse());
        assert(x[e.0].len() >= 2);
    }
    assert forall|d: (int, bool), e: (int, bool)|
        is_end(y, d) && is_end(y, e) && d != e implies #[trigger] end_of(y, d) == #[trigger] end_of(
        y,
        e,
    ) || apart(end_of(y, d), end_of(y, e)) by {
        let a = turned_end(x, y, d);
        let b = turned_end(x, y, e);
        assert(a != b);
        assert(end_of(x, a) == end_of(y, d) && end_of(x, b) == end_of(y, e));
    }
    assert forall|d: (int, bool), e: (int, bool), f: (int, bool)|
        is_end(y, d) && is_end(y, e) && is_end(y, f) && d != e && d != f && e != f
            && #[trigger] end_of(y, d) == #[trigger] end_of(y, e) implies #[trigger] end_of(y, f)
        != end_of(y, d) by {
        let a = turned_end(x, y, d);
        let b = turned_end(x, y, e);
        let c = turned_end(x, y, f);
        assert(a != b && a != c && b != c);
        assert(end_of(x, a) == end_of(y, d) && end_of(x, b) == end_of(y, e) && end_of(x, c)
            == end_of(y, f));
    }
    assert forall|d: (int, bool)| #[trigger] is_end(y, d) implies exists|e: (int, bool)|
        is_end(y, e) && e != d && #[trigger] end_of(y, e) == end_of(y, d) by {
        let a = turned_end(x, y, d);
        assert(is_end(x, a));
        let b = choose|b: (int, bool)|
            is_end(x, b) && b != a && #[trigger] end_of(x, b) == end_of(x, a);
        let e = turned_end(x, y, b);
        assert(is_end(y, e));
        assert(turned_end(x, y, e) == b);
        assert(e != d);
        assert(end_of(y, e) == end_of(y, d));
    }
    assert forall|i: int, j: int|
        0 <= i < y.len() && 0 <= j < y.len() && i != j && same_ends(
            #[trigger] y[i],
            #[trigger] y[j],
        ) implies y[i].len() + y[j].len() >= 5 by {
        assert(same_ends(x[i], x[j]));
    }
    lemma_same_total(x, y);
    assert forall|p: Point| on_some(x, p) <==> on_some(y, p) by {
        if on_some(x, p) {
            let i = choose|i: int| 0 <= i < x.len() && (#[trigger] x[i]).contains(p);
            let k = choose|k: int| 0 <= k < x[i].len() && x[i][k] == p;
            if y[i] == x[i] {
                assert(y[i].contains(p));
            } else {
                assert(y[i][x[i].len() - 1 - k] == p);
                assert(y[i].contains(p));
            }
        }
        if on_some(y, p) {
            let i = choose|i: int| 0 <= i < y.len() && (#[trigger] y[i]).contains(p);
            let k = choose|k: int| 0 <= k < y[i].len() && y[i][k] == p;
            if y[i] == x[i] {
                assert(x[i].contains(p));
            } else {
                assert(x[i][x[i].len() - 1 - k] == p);
                assert(x[i].contains(p));
            }
        }
    }
}

proof fn lemma_same_total(x: Seq<Seq<Point>>, y: Seq<Seq<Point>>)
    requires
        x.len() == y.len(),
        forall|i: int| 0 <= i < x.len() ==> (#[trigger] y[i]).len() == x[i].len(),
    ensures
        total(y) == total(x),
    decreases x.len(),
{
    if x.len() > 0 {
        let a = x.drop_last();
        let b = y.drop_last();
        assert forall|i: int| 0 <= i < a.len() implies (#[trigger] b[i]).len() == a[i].len() by {
            assert(y[i].len() == x[i].len());
        }
        lemma_same_total(a, b);
        assert(y[x.len() - 1].len() == x[x.len() - 1].len());
    }
}

/// Two lines that share both of their ends, either way round, and have three or more places together
/// make exactly one ring, which holds all of their points.
pub proof fn two_lines_make_a_ring(i: i64, j: i64, ways: Map<i64, WayView>, xy: Map<i64, Point>)
    requires
        all_known(seq![i, j], ways, xy),
        ({
            let a = positions(ways[i].node_ids, xy);
            let b = positions(ways[j].node_ids, xy);
            &&& same_ends(a, b)
            &&& apart(a.first(), a.last())
            &&& a.len() + b.len() >= 5
        }),
    ensures
        ({
            let a = positions(ways[i].node_ids, xy);
            let b = positions(ways[j].node_ids, xy);
            let rings = assembled(seq![i, j], ways, xy);
            &&& rings.len() == 1
            &&& rings[0].len() == a.len() + b.len() - 2
            &&& forall|p: Point| rings[0].contains(p) <==> a.contains(p) || b.contains(p)
        }),
{
    let ids = seq![i, j];
    let a = positions(ways[i].node_ids, xy);
    let b = positions(ways[j].node_ids, xy);
    let lines = lines_of(ids, ways, xy);
    lemma_chains(ids, ways, xy, 2);
    assert(lines.take(2) =~= lines);
    assert(ways.contains_key(ids[0]) && ways.contains_key(ids[1]));
    assert(lines[0] == a && lines[1] == b);
    assert(lines.drop_last() =~= seq![a]);
    lemma_near(b.last(), a.first());
    lemma_near(b.last(), a.last());
    lemma_near(b.last(), b.last());
    lemma_near(a.first(), a.last());
    assert((a.first().x - a.last().x) * (a.first().x - a.last().x) == (a.last().x - a.first().x) * (
    a.last().x - a.first().x)) by (nonlinear_arith);
    assert((a.first().y - a.last().y) * (a.first().y - a.last().y) == (a.last().y - a.first().y) * (
    a.last().y - a.first().y)) by (nonlinear_arith);
    assert(a.first() != a.last());
    assert(b.first() != b.last());
    let chains = seq![a];
    lemma_next_link_is(b.last(), chains, 0, 0);
    let link = joined(b, a);
    let turned = b.last() == a.last();
    if turned {
        assert(!near(b.last(), a.first()));
        assert(link =~= b + a.drop_last().reverse());
    } else {
        assert(link =~= b + a.skip(1));
    }
    assert(link.first() == link.last());
    assert(is_closed(link));
    assert(chains.remove(0) =~= Seq::empty());
    assert(grown(link, Seq::empty(), (MAX_JOINS - 1) as nat) == (
        Some(link.drop_last()),
        Seq::<Seq<Point>>::empty(),
    ));
    assert(grown(b, chains, MAX_JOINS as nat) == (
        Some(link.drop_last()),
        Seq::<Seq<Point>>::empty(),
    ));
    let ring = link.drop_last();
    assert(rings_from(Seq::<Seq<Point>>::empty()) =~= Seq::empty());
    assert(rings_from(lines) =~= seq![ring]);
    assert forall|p: Point| ring.contains(p) <==> a.contains(p) || b.contains(p) by {
        if b.contains(p) {
            let k = choose|k: int| 0 <= k < b.len() && b[k] == p;
            assert(ring[k] == p);
        }
        if a.contains(p) {
            let k = choose|k: int| 0 <= k < a.len() && a[k] == p;
            if turned {
                if k == a.len() - 1 {
                    assert(ring[b.len() - 1] == p);
                } else if k == 0 {
                    assert(ring[0] == p);
                } else {
                    assert(ring[b.len() + (a.len() - 2 - k)] == p);
                }
            } else {
                if k == 0 {
                    assert(ring[b.len() - 1] == p);
                } else if k == a.len() - 1 {
                    assert(ring[0] == p);
                } else {
                    assert(ring[b.len() + k - 1] == p);
                }
            }
        }
        if ring.contains(p) {
            let k = choose|k: int| 0 <= k < ring.len() && ring[k] == p;
            if k < b.len() {
                assert(b[k] == p);
            } else if turned {
                assert(a[a.len() - 2 - (k - b.len())] == p);
            } else {
                assert(a[k - b.len() + 1] == p);
            }
        }
    }
}

} // verus!
