//! Laws of maps: what each way and each relation of a data set adds to its map.

use vstd::prelude::*;

use crate::extract::{
    all_points, areas, assembled, big_rings, bounds_are_tight, map_of, map_parts, member_ids,
    member_rings, outline, path_of, relation_kind, relation_list, relation_parts, relations_parts,
    ring_of, way_list, way_parts, way_shape, ways_parts, LineKind, PolyKind, WayShape,
};
use crate::geo::Point;
use crate::osm::{OsmData, RelationView, WayView};

verus! {

/// A way that bounds an area is drawn as one area without holes where it is a ring, and a way that is a
/// path as one line where it is a line. The bank of a river is a water area where it is a ring and a
/// waterway where it is not. Nothing else is drawn of a way, and the box counts exactly what is drawn.
pub proof fn ways_are_drawn_once(way: WayView, xy: Map<i64, Point>)
    ensures
        ({
            let parts = way_parts(way, xy);
            let ring = ring_of(way.node_ids, xy);
            let path = path_of(way.node_ids, xy);
            match way_shape(way.tags) {
                WayShape::Area(kind) => {
                    &&& parts.lines.len() == 0
                    &&& parts.polys.len() == if ring is Some {
                        1int
                    } else {
                        0
                    }
                    &&& ring is Some ==> parts.polys[0].kind == kind && parts.polys[0].outer
                        == outline(ring->Some_0) && parts.polys[0].holes.len() == 0
                },
                WayShape::Path(kind, width) => {
                    &&& parts.polys.len() == 0
                    &&& parts.lines.len() == if path is Some {
                        1int
                    } else {
                        0
                    }
                    &&& path is Some ==> parts.lines[0].kind == kind && parts.lines[0].pts
                        == path->Some_0 && parts.lines[0].width == width
                },
                WayShape::Bank(width) => {
                    &&& parts.polys.len() == if ring is Some {
                        1int
                    } else {
                        0
                    }
                    &&& parts.lines.len() == if ring is None && path is Some {
                        1int
                    } else {
                        0
                    }
                    &&& ring is Some ==> parts.polys[0].kind == PolyKind::Water && parts.polys[0].outer
                        == outline(ring->Some_0) && parts.polys[0].holes.len() == 0
                    &&& ring is None && path is Some ==> parts.lines[0].kind == LineKind::Waterway
                        && parts.lines[0].pts == path->Some_0 && parts.lines[0].width == width
                },
                WayShape::Hidden => parts.polys.len() == 0 && parts.lines.len() == 0,
            }
        }),
        ({
            let parts = way_parts(way, xy);
            parts.touched == if parts.polys.len() > 0 {
                parts.polys[0].outer
            } else if parts.lines.len() > 0 {
                parts.lines[0].pts
            } else {
                Seq::empty()
            }
        }),
{
}

/// A relation of a kind that is drawn gives the areas of its outer rings with those of its inner rings as
/// holes, each without scraps; a relation of no such kind, or without outer rings, gives none. A relation
/// gives no lines.
pub proof fn relations_are_drawn_as_areas(
    rel: RelationView,
    ways: Map<i64, WayView>,
    xy: Map<i64, Point>,
)
    ensures
        ({
            let parts = relation_parts(rel, ways, xy);
            let from_outside = assembled(
                member_ids(rel.members, true, rel.members.len() as int),
                ways,
                xy,
            );
            let from_inside = assembled(
                member_ids(rel.members, false, rel.members.len() as int),
                ways,
                xy,
            );
            let outers = big_rings(from_outside, from_outside.len() as int);
            let inners = big_rings(from_inside, from_inside.len() as int);
            &&& parts.lines.len() == 0
            &&& relation_kind(rel.tags) is None ==> parts.polys.len() == 0
            &&& relation_kind(rel.tags) is Some ==> parts.polys == areas(
                relation_kind(rel.tags)->Some_0,
                outers,
                inners,
            )
        }),
{
    let outers = member_rings(rel, ways, xy, true);
    let inners = member_rings(rel, ways, xy, false);
    if relation_kind(rel.tags) is Some && outers.len() == 0 {
        assert(areas(relation_kind(rel.tags)->Some_0, outers, inners) =~= Seq::empty());
    }
}

proof fn lemma_ways(ways: Seq<WayView>, xy: Map<i64, Point>, n: int)
    requires
        0 <= n <= ways.len(),
    ensures
        ways_parts(ways, xy, n).polys == Seq::new(n as nat, |i: int| way_parts(ways[i], xy).polys)
            .flatten_alt(),
        ways_parts(ways, xy, n).lines == Seq::new(n as nat, |i: int| way_parts(ways[i], xy).lines)
            .flatten_alt(),
        ways_parts(ways, xy, n).touched == Seq::new(
            n as nat,
            |i: int| way_parts(ways[i], xy).touched,
        ).flatten_alt(),
    decreases n,
{
    let p = Seq::new(n as nat, |i: int| way_parts(ways[i], xy).polys);
    let l = Seq::new(n as nat, |i: int| way_parts(ways[i], xy).lines);
    let t = Seq::new(n as nat, |i: int| way_parts(ways[i], xy).touched);
    if n > 0 {
        lemma_ways(ways, xy, n - 1);
        assert(p.drop_last() =~= Seq::new((n - 1) as nat, |i: int| way_parts(ways[i], xy).polys));
        assert(l.drop_last() =~= Seq::new((n - 1) as nat, |i: int| way_parts(ways[i], xy).lines));
        assert(t.drop_last() =~= Seq::new((n - 1) as nat, |i: int| way_parts(ways[i], xy).touched));
    }
}

proof fn lemma_relations(
    rels: Seq<RelationView>,
    ways: Map<i64, WayView>,
    xy: Map<i64, Point>,
    n: int,
)
    requires
        0 <= n <= rels.len(),
    ensures
        relations_parts(rels, ways, xy, n).polys == Seq::new(
            n as nat,
            |i: int| relation_parts(rels[i], ways, xy).polys,
        ).flatten_alt(),
        relations_parts(rels, ways, xy, n).lines.len() == 0,
        relations_parts(rels, ways, xy, n).touched == Seq::new(
            n as nat,
            |i: int| relation_parts(rels[i], ways, xy).touched,
        ).flatten_alt(),
    decreases n,
{
    let p = Seq::new(n as nat, |i: int| relation_parts(rels[i], ways, xy).polys);
    let t = Seq::new(n as nat, |i: int| relation_parts(rels[i], ways, xy).touched);
    if n > 0 {
        lemma_relations(rels, ways, xy, n - 1);
        assert(p.drop_last() =~= Seq::new(
            (n - 1) as nat,
            |i: int| relation_parts(rels[i], ways, xy).polys,
        ));
        assert(t.drop_last() =~= Seq::new(
            (n - 1) as nat,
            |i: int| relation_parts(rels[i], ways, xy).touched,
        ));
    }
}

/// A map has the areas of all ways and then those of all relations, and the lines of all ways, each in
/// the order of the elements, and nothing else.
pub proof fn maps_hold_every_element(data: OsmData, xy: Map<i64, Point>)
    ensures
        ({
            let (ways, rels) = (way_list(data), relation_list(data));
            let map = map_of(data, xy);
            &&& map.polys == Seq::new(ways.len(), |i: int| way_parts(ways[i], xy).polys).flatten_alt()
                + Seq::new(
                rels.len(),
                |i: int| relation_parts(rels[i], data@.ways, xy).polys,
            ).flatten_alt()
            &&& map.lines == Seq::new(ways.len(), |i: int| way_parts(ways[i], xy).lines).flatten_alt()
            &&& map_parts(data, xy).touched == Seq::new(
                ways.len(),
                |i: int| way_parts(ways[i], xy).touched,
            ).flatten_alt() + Seq::new(
                rels.len(),
                |i: int| relation_parts(rels[i], data@.ways, xy).touched,
            ).flatten_alt()
        }),
{
    let (ways, rels) = (way_list(data), relation_list(data));
    lemma_ways(ways, xy, ways.len() as int);
    lemma_relations(rels, data@.ways, xy, rels.len() as int);
    let r = relations_parts(rels, data@.ways, xy, rels.len() as int);
    assert(r.lines =~= Seq::empty());
    assert(map_of(data, xy).lines =~= ways_parts(ways, xy, ways.len() as int).lines);
}

proof fn lemma_all_points(rings: Seq<Seq<Point>>, n: int, p: Point)
    requires
        0 <= n <= rings.len(),
    ensures
        all_points(rings, n).contains(p) <==> exists|i: int|
            0 <= i < n && (#[trigger] rings[i]).contains(p),
    decreases n,
{
    if n > 0 {
        lemma_all_points(rings, n - 1, p);
        let (a, b) = (all_points(rings, n - 1), rings[n - 1]);
        let all = a + b;
        if a.contains(p) {
            let j = choose|j: int| 0 <= j < a.len() && a[j] == p;
            assert(all[j] == p);
        }
        if b.contains(p) {
            let j = choose|j: int| 0 <= j < b.len() && b[j] == p;
            assert(all[a.len() + j] == p);
            assert(rings[n - 1].contains(p));
        }
        if all.contains(p) {
            let j = choose|j: int| 0 <= j < all.len() && all[j] == p;
            if j < a.len() {
                assert(a[j] == p);
            } else {
                assert(b[j - a.len()] == p);
                assert(rings[n - 1].contains(p));
            }
        }
        if exists|i: int| 0 <= i < n && (#[trigger] rings[i]).contains(p) {
            let i = choose|i: int| 0 <= i < n && (#[trigger] rings[i]).contains(p);
            if i < n - 1 {
                assert(a.contains(p));
            } else {
                assert(b.contains(p));
            }
        }
    }
}

/// The box counts every point of the outer and inner rings of a relation that is drawn, and no others.
pub proof fn boxes_count_the_rings_of_relations(
    rel: RelationView,
    ways: Map<i64, WayView>,
    xy: Map<i64, Point>,
    p: Point,
)
    ensures
        ({
            let outers = member_rings(rel, ways, xy, true);
            let inners = member_rings(rel, ways, xy, false);
            relation_parts(rel, ways, xy).touched.contains(p) <==> relation_kind(rel.tags) is Some
                && outers.len() > 0 && ((exists|i: int|
                0 <= i < outers.len() && (#[trigger] outers[i]).contains(p)) || (exists|i: int|
                0 <= i < inners.len() && (#[trigger] inners[i]).contains(p)))
        }),
{
    let outers = member_rings(rel, ways, xy, true);
    let inners = member_rings(rel, ways, xy, false);
    lemma_all_points(outers, outers.len() as int, p);
    lemma_all_points(inners, inners.len() as int, p);
    if relation_kind(rel.tags) is Some && outers.len() > 0 {
        let a = all_points(outers, outers.len() as int);
        let b = all_points(inners, inners.len() as int);
        let all = relation_parts(rel, ways, xy).touched;
        assert(all == a + b);
        if a.contains(p) {
            let j = choose|j: int| 0 <= j < a.len() && a[j] == p;
            assert(all[j] == p);
        }
        if b.contains(p) {
            let j = choose|j: int| 0 <= j < b.len() && b[j] == p;
            assert(all[a.len() + j] == p);
        }
        if all.contains(p) {
            let j = choose|j: int| 0 <= j < all.len() && all[j] == p;
            if j < a.len() {
                assert(a[j] == p);
            } else {
                assert(b[j - a.len()] == p);
            }
        }
    }
}

/// Each side of the box of a map touches one of the points that it counts; without any, the box is the
/// origin.
pub proof fn boxes_of_maps_are_tight(data: OsmData, xy: Map<i64, Point>)
    ensures
        ({
            let (map, pts) = (map_of(data, xy), map_parts(data, xy).touched);
            &&& pts.len() == 0 ==> map.min == (Point { x: 0, y: 0 }) && map.max == (Point {
                x: 0,
                y: 0,
            })
            &&& pts.len() > 0 ==> {
                &&& exists|i: int| 0 <= i < pts.len() && (#[trigger] pts[i]).x == map.min.x
                &&& exists|i: int| 0 <= i < pts.len() && (#[trigger] pts[i]).y == map.min.y
                &&& exists|i: int| 0 <= i < pts.len() && (#[trigger] pts[i]).x == map.max.x
                &&& exists|i: int| 0 <= i < pts.len() && (#[trigger] pts[i]).y == map.max.y
            }
        }),
{
    let pts = map_parts(data, xy).touched;
    if pts.len() > 0 {
        bounds_are_tight(pts);
    }
}

} // verus!
