//! Map layers from OpenStreetMap elements: areas and lines by their tags, and the assembly of
//! multipolygon rings.

use vstd::prelude::*;

use crate::geo::{
    copy_points, distance2, distance_squared, doubled_area, inside, lemma_area_reverse, magnitude, point_in_ring,
    ring_area, Point,
};
use crate::idmap::{IdMap, Tags};
use crate::osm::{members_view, OsmData, Relation, RelationView, Way, WayView};
use crate::text::same;

verus! {

// ---------- extracted layers ----------

#[derive(Debug, Clone, Copy, PartialEq, Eq, Structural, Hash)]
pub enum PolyKind {
    Water,
    Green,
    Landuse,
    Building,
    Apron,
}

/// An area with its holes.
#[derive(Debug, Clone)]
pub struct Poly {
    pub kind: PolyKind,
    pub outer: Vec<Point>,
    pub holes: Vec<Vec<Point>>,
}

#[derive(Debug, Clone, Copy, PartialEq, Eq, Structural, Hash)]
pub enum RoadClass {
    Major,
    Mid,
    Minor,
}

#[derive(Debug, Clone, Copy, PartialEq, Eq, Structural, Hash)]
pub enum LineKind {
    Road(RoadClass),
    Rail,
    Waterway,
    Runway,
    Taxiway,
}

/// A line with its width in metres.
#[derive(Debug, Clone)]
pub struct Line {
    pub kind: LineKind,
    pub pts: Vec<Point>,
    pub width: u32,
}

/// The areas and lines of a map, with their bounding box.
#[derive(Debug)]
pub struct MapData {
    pub polys: Vec<Poly>,
    pub lines: Vec<Line>,
    pub min: Point,
    pub max: Point,
}

/// What a `Poly` stands for.
pub struct PolyView {
    pub kind: PolyKind,
    pub outer: Seq<Point>,
    pub holes: Seq<Seq<Point>>,
}

/// What a `Line` stands for.
pub struct LineView {
    pub kind: LineKind,
    pub pts: Seq<Point>,
    pub width: u32,
}

/// What a `MapData` stands for.
pub struct MapView {
    pub polys: Seq<PolyView>,
    pub lines: Seq<LineView>,
    pub min: Point,
    pub max: Point,
}

/// The points of each ring.
pub open spec fn rings_view(rings: Seq<Vec<Point>>) -> Seq<Seq<Point>> {
    rings.map_values(|r: Vec<Point>| r@)
}

impl View for Poly {
    type V = PolyView;

    open spec fn view(&self) -> PolyView {
        PolyView { kind: self.kind, outer: self.outer@, holes: rings_view(self.holes@) }
    }
}

impl View for Line {
    type V = LineView;

    open spec fn view(&self) -> LineView {
        LineView { kind: self.kind, pts: self.pts@, width: self.width }
    }
}

/// The areas of a list.
pub open spec fn polys_view(polys: Seq<Poly>) -> Seq<PolyView> {
    polys.map_values(|p: Poly| p@)
}

/// The lines of a list.
pub open spec fn lines_view(lines: Seq<Line>) -> Seq<LineView> {
    lines.map_values(|l: Line| l@)
}

impl View for MapData {
    type V = MapView;

    open spec fn view(&self) -> MapView {
        MapView {
            polys: polys_view(self.polys@),
            lines: lines_view(self.lines@),
            min: self.min,
            max: self.max,
        }
    }
}

// ---------- extraction ----------

/// Whether a tag has one of the listed values.
pub open spec fn tag_in(
    tags: Map<Seq<char>, Seq<char>>,
    key: Seq<char>,
    list: Seq<Seq<char>>,
) -> bool {
    tags.contains_key(key) && list.contains(tags[key])
}

/// The texts of a list.
pub open spec fn listed(values: Seq<&str>) -> Seq<Seq<char>> {
    values.map_values(|v: &str| v@)
}

/// The value of a tag, where it is one of those listed.
pub fn tag_matches<'a>(tags: &'a Tags, key: &str, values: &[&'a str]) -> (r: Option<&'a str>)
    requires
        tags.wf(),
    ensures
        r is Some == tag_in(tags@, key@, listed(values@)),
        r is Some ==> r->Some_0@ == tags@[key@],
{
    let value: &str = match tags.get(key) {
        None => { return None; },
        Some(v) => v,
    };
    let ghost list = listed(values@);
    let mut i: usize = 0;
    while i < values.len()
        invariant
            i <= values@.len(),
            list == listed(values@),
            list.len() == values@.len(),
            tags@.contains_key(key@),
            value@ == tags@[key@],
            forall|j: int| 0 <= j < i ==> list[j] != value@,
        decreases values@.len() - i,
    {
        assert(list[i as int] == values@[i as int]@);
        if same(value, values[i]) {
            assert(list.contains(value@));
            return Some(values[i]);
        }
        i = i + 1;
    }
    None
}

/// Whether a tag has a value.
pub open spec fn tag_is(
    tags: Map<Seq<char>, Seq<char>>,
    key: Seq<char>,
    value: Seq<char>,
) -> bool {
    tags.contains_key(key) && tags[key] == value
}

fn has_value(tags: &Tags, key: &str, value: &str) -> (r: bool)
    requires
        tags.wf(),
    ensures
        r == tag_is(tags@, key@, value@),
{
    match tags.get(key) {
        None => false,
        Some(v) => same(v, value),
    }
}

/// The values of the key "natural" that are drawn green.
pub open spec fn green_natural() -> Seq<Seq<char>> {
    seq!["wood"@, "scrub"@, "wetland"@, "beach"@, "sand"@]
}

/// The values of the key "landuse" that are drawn green.
pub open spec fn green_landuse() -> Seq<Seq<char>> {
    seq![
        "forest"@,
        "grass"@,
        "meadow"@,
        "village_green"@,
        "recreation_ground"@,
        "cemetery"@,
    ]
}

/// The values of the key "leisure" that are drawn green.
pub open spec fn green_leisure() -> Seq<Seq<char>> {
    seq!["park"@, "golf_course"@, "pitch"@, "stadium"@, "playground"@]
}

/// The values of the key "landuse" that are drawn as used land.
pub open spec fn used_landuse() -> Seq<Seq<char>> {
    seq![
        "residential"@,
        "military"@,
        "industrial"@,
        "commercial"@,
        "farmland"@,
        "quarry"@,
        "education"@,
    ]
}

/// The values of the key "railway" that are drawn.
pub open spec fn drawn_railway() -> Seq<Seq<char>> {
    seq!["rail"@, "light_rail"@, "tram"@, "subway"@]
}

/// Whether tags describe a green area.
pub open spec fn tagged_green(tags: Map<Seq<char>, Seq<char>>) -> bool {
    tag_in(tags, "natural"@, green_natural()) || tag_in(tags, "landuse"@, green_landuse())
        || tag_in(tags, "leisure"@, green_leisure())
}

fn is_tagged_green(tags: &Tags) -> (r: bool)
    requires
        tags.wf(),
    ensures
        r == tagged_green(tags@),
{
    let natural = ["wood", "scrub", "wetland", "beach", "sand"];
    let landuse = ["forest", "grass", "meadow", "village_green", "recreation_ground", "cemetery"];
    let leisure = ["park", "golf_course", "pitch", "stadium", "playground"];
    proof {
        assert(listed(natural@) =~= green_natural());
        assert(listed(landuse@) =~= green_landuse());
        assert(listed(leisure@) =~= green_leisure());
    }
    tag_matches(tags, "natural", &natural).is_some() || tag_matches(
        tags,
        "landuse",
        &landuse,
    ).is_some() || tag_matches(tags, "leisure", &leisure).is_some()
}

/// Whether tags describe used land.
pub open spec fn tagged_used(tags: Map<Seq<char>, Seq<char>>) -> bool {
    tag_in(tags, "landuse"@, used_landuse())
}

fn is_tagged_used(tags: &Tags) -> (r: bool)
    requires
        tags.wf(),
    ensures
        r == tagged_used(tags@),
{
    let landuse = [
        "residential",
        "military",
        "industrial",
        "commercial",
        "farmland",
        "quarry",
        "education",
    ];
    assert(listed(landuse@) =~= used_landuse());
    tag_matches(tags, "landuse", &landuse).is_some()
}

/// How a way is drawn.
#[derive(Debug, Clone, Copy, PartialEq, Eq, Structural)]
pub enum WayShape {
    /// An area, where the way is a closed ring.
    Area(PolyKind),
    /// A line with its width in metres.
    Path(LineKind, u32),
    /// A water area where the way is a closed ring, a waterway of that width where it is not.
    Bank(u32),
    /// Not at all.
    Hidden,
}

/// The class of a road and its drawn width in metres.
pub open spec fn highway_class(value: Seq<char>) -> Option<(RoadClass, u32)> {
    if value == "motorway"@ || value == "trunk"@ || value == "primary"@ || value
        == "motorway_link"@ || value == "trunk_link"@ || value == "primary_link"@ {
        Some((RoadClass::Major, 20))
    } else if value == "secondary"@ || value == "tertiary"@ || value == "secondary_link"@ || value
        == "tertiary_link"@ {
        Some((RoadClass::Mid, 14))
    } else if value == "residential"@ || value == "unclassified"@ || value == "living_street"@
        || value == "service"@ || value == "road"@ {
        Some((RoadClass::Minor, 10))
    } else {
        None
    }
}

fn highway_of(value: &str) -> (r: Option<(RoadClass, u32)>)
    ensures
        r == highway_class(value@),
{
    if same(value, "motorway") || same(value, "trunk") || same(value, "primary") || same(
        value,
        "motorway_link",
    ) || same(value, "trunk_link") || same(value, "primary_link") {
        Some((RoadClass::Major, 20))
    } else if same(value, "secondary") || same(value, "tertiary") || same(value, "secondary_link")
        || same(value, "tertiary_link") {
        Some((RoadClass::Mid, 14))
    } else if same(value, "residential") || same(value, "unclassified") || same(
        value,
        "living_street",
    ) || same(value, "service") || same(value, "road") {
        Some((RoadClass::Minor, 10))
    } else {
        None
    }
}

/// How a waterway is drawn.
pub open spec fn waterway_shape(value: Seq<char>) -> WayShape {
    if value == "riverbank"@ || value == "dock"@ {
        WayShape::Bank(40)
    } else if value == "river"@ {
        WayShape::Path(LineKind::Waterway, 40)
    } else if value == "canal"@ {
        WayShape::Path(LineKind::Waterway, 24)
    } else if value == "stream"@ {
        WayShape::Path(LineKind::Waterway, 10)
    } else {
        WayShape::Hidden
    }
}

/// How a part of an airfield is drawn.
pub open spec fn aeroway_shape(value: Seq<char>) -> WayShape {
    if value == "runway"@ {
        WayShape::Path(LineKind::Runway, 55)
    } else if value == "taxiway"@ {
        WayShape::Path(LineKind::Taxiway, 22)
    } else if value == "apron"@ {
        WayShape::Area(PolyKind::Apron)
    } else {
        WayShape::Hidden
    }
}

/// How a way with the given tags is drawn: by the first rule that applies.
pub open spec fn way_shape(tags: Map<Seq<char>, Seq<char>>) -> WayShape {
    if tags.contains_key("building"@) {
        WayShape::Area(PolyKind::Building)
    } else if tag_is(tags, "natural"@, "water"@) {
        WayShape::Area(PolyKind::Water)
    } else if tags.contains_key("waterway"@) {
        waterway_shape(tags["waterway"@])
    } else if tagged_green(tags) {
        WayShape::Area(PolyKind::Green)
    } else if tagged_used(tags) {
        WayShape::Area(PolyKind::Landuse)
    } else if tags.contains_key("aeroway"@) {
        aeroway_shape(tags["aeroway"@])
    } else if tag_in(tags, "railway"@, drawn_railway()) {
        WayShape::Path(LineKind::Rail, 5)
    } else if tags.contains_key("highway"@) {
        match highway_class(tags["highway"@]) {
            Some((class, width)) => WayShape::Path(LineKind::Road(class), width),
            None => WayShape::Hidden,
        }
    } else {
        WayShape::Hidden
    }
}

/// How a way with the given tags is drawn.
pub fn shape_of_way(tags: &Tags) -> (r: WayShape)
    requires
        tags.wf(),
    ensures
        r == way_shape(tags@),
{
    if tags.get("building").is_some() {
        return WayShape::Area(PolyKind::Building);
    }
    if has_value(tags, "natural", "water") {
        return WayShape::Area(PolyKind::Water);
    }
    if let Some(v) = tags.get("waterway") {
        return if same(v, "riverbank") || same(v, "dock") {
            WayShape::Bank(40)
        } else if same(v, "river") {
            WayShape::Path(LineKind::Waterway, 40)
        } else if same(v, "canal") {
            WayShape::Path(LineKind::Waterway, 24)
        } else if same(v, "stream") {
            WayShape::Path(LineKind::Waterway, 10)
        } else {
            WayShape::Hidden
        };
    }
    if is_tagged_green(tags) {
        return WayShape::Area(PolyKind::Green);
    }
    if is_tagged_used(tags) {
        return WayShape::Area(PolyKind::Landuse);
    }
    if let Some(v) = tags.get("aeroway") {
        return if same(v, "runway") {
            WayShape::Path(LineKind::Runway, 55)
        } else if same(v, "taxiway") {
            WayShape::Path(LineKind::Taxiway, 22)
        } else if same(v, "apron") {
            WayShape::Area(PolyKind::Apron)
        } else {
            WayShape::Hidden
        };
    }
    let railway = ["rail", "light_rail", "tram", "subway"];
    assert(listed(railway@) =~= drawn_railway());
    if tag_matches(tags, "railway", &railway).is_some() {
        return WayShape::Path(LineKind::Rail, 5);
    }
    match tags.get("highway") {
        Some(v) => match highway_of(v) {
            Some((class, width)) => WayShape::Path(LineKind::Road(class), width),
            None => WayShape::Hidden,
        },
        None => WayShape::Hidden,
    }
}

/// The kind of area that a multipolygon relation with the given tags bounds.
pub open spec fn relation_kind(tags: Map<Seq<char>, Seq<char>>) -> Option<PolyKind> {
    if !tag_is(tags, "type"@, "multipolygon"@) {
        None
    } else if tag_is(tags, "natural"@, "water"@) {
        Some(PolyKind::Water)
    } else if tagged_green(tags) {
        Some(PolyKind::Green)
    } else if tagged_used(tags) {
        Some(PolyKind::Landuse)
    } else {
        None
    }
}

/// The kind of area that a multipolygon relation with the given tags bounds.
pub fn kind_of_relation(tags: &Tags) -> (r: Option<PolyKind>)
    requires
        tags.wf(),
    ensures
        r == relation_kind(tags@),
{
    if !has_value(tags, "type", "multipolygon") {
        None
    } else if has_value(tags, "natural", "water") {
        Some(PolyKind::Water)
    } else if is_tagged_green(tags) {
        Some(PolyKind::Green)
    } else if is_tagged_used(tags) {
        Some(PolyKind::Landuse)
    } else {
        None
    }
}

/// The positions of nodes in order, without immediate repetitions; `None` where a node has no
/// position.
pub open spec fn node_points(ids: Seq<i64>, xy: Map<i64, Point>) -> Option<Seq<Point>>
    decreases ids.len(),
{
    if ids.len() == 0 {
        Some(Seq::empty())
    } else {
        match node_points(ids.drop_last(), xy) {
            None => None,
            Some(before) => if !xy.contains_key(ids.last()) {
                None
            } else if before.len() > 0 && before.last() == xy[ids.last()] {
                Some(before)
            } else {
                Some(before.push(xy[ids.last()]))
            },
        }
    }
}

/// The ring of a closed way, without the repetition of its first point.
pub open spec fn ring_of(ids: Seq<i64>, xy: Map<i64, Point>) -> Option<Seq<Point>> {
    if ids.len() < 4 || ids.first() != ids.last() {
        None
    } else {
        match node_points(ids.drop_last(), xy) {
            Some(pts) => if pts.len() >= 3 {
                Some(pts)
            } else {
                None
            },
            None => None,
        }
    }
}

/// The points of a way as a line: at least two.
pub open spec fn path_of(ids: Seq<i64>, xy: Map<i64, Point>) -> Option<Seq<Point>> {
    match node_points(ids, xy) {
        Some(pts) => if pts.len() >= 2 {
            Some(pts)
        } else {
            None
        },
        None => None,
    }
}

proof fn lemma_node_points_prefix(ids: Seq<i64>, xy: Map<i64, Point>, n: int)
    requires
        0 <= n <= ids.len(),
        node_points(ids.take(n), xy) is None,
    ensures
        node_points(ids, xy) is None,
    decreases ids.len() - n,
{
    if n < ids.len() {
        assert(ids.take(n + 1).drop_last() =~= ids.take(n));
        lemma_node_points_prefix(ids, xy, n + 1);
    } else {
        assert(ids.take(n) =~= ids);
    }
}

/// The positions of the first `n` nodes in order, without immediate repetitions.
fn points_of(ids: &Vec<i64>, n: usize, xy: &IdMap<Point>) -> (r: Option<Vec<Point>>)
    requires
        n <= ids@.len(),
        xy.wf(),
    ensures
        match node_points(ids@.take(n as int), xy@) {
            None => r is None,
            Some(pts) => r is Some && r->Some_0@ == pts,
        },
{
    let mut pts: Vec<Point> = Vec::new();
    let mut i: usize = 0;
    let ghost all = ids@.take(n as int);
    assert(all.take(0) =~= Seq::empty());
    while i < n
        invariant
            i <= n <= ids@.len(),
            xy.wf(),
            all == ids@.take(n as int),
            node_points(all.take(i as int), xy@) == Some(pts@),
        decreases n - i,
    {
        assert(all.take(i + 1).drop_last() =~= all.take(i as int));
        assert(all.take(i + 1).last() == ids@[i as int]);
        match xy.get(ids[i]) {
            None => {
                proof {
                    lemma_node_points_prefix(all, xy@, i + 1);
                }
                return None;
            },
            Some(p) => {
                let again: bool = pts.len() > 0 && pts[pts.len() - 1] == *p;
                if !again {
                    pts.push(*p);
                }
            },
        }
        i = i + 1;
    }
    assert(all.take(n as int) =~= all);
    Some(pts)
}

/// The ring of a closed way, without the repetition of its first point; `None` where the way is
/// not closed, a node has no position, or fewer than three points are left.
pub fn closed_ring(way: &Way, xy: &IdMap<Point>) -> (r: Option<Vec<Point>>)
    requires
        xy.wf(),
    ensures
        match ring_of(way@.node_ids, xy@) {
            None => r is None,
            Some(pts) => r is Some && r->Some_0@ == pts,
        },
{
    let n: usize = way.node_ids.len();
    if n < 4 || way.node_ids[0] != way.node_ids[n - 1] {
        return None;
    }
    assert(way.node_ids@.take(n - 1) =~= way.node_ids@.drop_last());
    match points_of(&way.node_ids, n - 1, xy) {
        Some(pts) => if pts.len() >= 3 {
            Some(pts)
        } else {
            None
        },
        None => None,
    }
}

/// The points of a way as a line; `None` where a node has no position or fewer than two points
/// are left.
pub fn open_points(way: &Way, xy: &IdMap<Point>) -> (r: Option<Vec<Point>>)
    requires
        xy.wf(),
    ensures
        match path_of(way@.node_ids, xy@) {
            None => r is None,
            Some(pts) => r is Some && r->Some_0@ == pts,
        },
{
    assert(way.node_ids@.take(way.node_ids@.len() as int) =~= way.node_ids@);
    match points_of(&way.node_ids, way.node_ids.len(), xy) {
        Some(pts) => if pts.len() >= 2 {
            Some(pts)
        } else {
            None
        },
        None => None,
    }
}

// ---------- multipolygon rings ----------

/// Whether two line ends are taken for one point: less than ten centimetres apart.
pub open spec fn near(a: Point, b: Point) -> bool {
    distance2(a, b) < 100
}

/// The lines of the first `n` listed ways: those that exist and have one.
pub open spec fn chains_of(
    ids: Seq<i64>,
    ways: Map<i64, WayView>,
    xy: Map<i64, Point>,
    n: int,
) -> Seq<Seq<Point>>
    decreases n,
{
    if n <= 0 {
        Seq::empty()
    } else {
        let before = chains_of(ids, ways, xy, n - 1);
        let id = ids[n - 1];
        if ways.contains_key(id) {
            match path_of(ways[id].node_ids, xy) {
                Some(pts) => before.push(pts),
                None => before,
            }
        } else {
            before
        }
    }
}

/// The first line, from index `i` on, that starts or ends near `tail`.
pub open spec fn next_link(tail: Point, chains: Seq<Seq<Point>>, i: int) -> Option<int>
    decreases chains.len() - i,
{
    if i < 0 || i >= chains.len() {
        None
    } else if near(tail, chains[i].first()) || near(tail, chains[i].last()) {
        Some(i)
    } else {
        next_link(tail, chains, i + 1)
    }
}

/// A line continued by another one, which is turned round where its end is what fits.
pub open spec fn joined(chain: Seq<Point>, other: Seq<Point>) -> Seq<Point> {
    if near(chain.last(), other.first()) {
        chain + other.skip(1)
    } else {
        chain + other.drop_last().reverse()
    }
}

/// Whether a line ends where it starts.
pub open spec fn is_closed(chain: Seq<Point>) -> bool {
    chain.len() >= 4 && chain.first() == chain.last()
}

/// A line continued, at most `fuel` times, by the first line that fits until it is closed: the
/// ring, where it closes, and the lines that are left.
pub open spec fn grown(chain: Seq<Point>, chains: Seq<Seq<Point>>, fuel: nat) -> (
    Option<Seq<Point>>,
    Seq<Seq<Point>>,
)
    decreases fuel,
{
    if fuel == 0 {
        (None, chains)
    } else if is_closed(chain) {
        (Some(chain.drop_last()), chains)
    } else {
        match next_link(chain.last(), chains, 0) {
            None => (None, chains),
            Some(i) => grown(joined(chain, chains[i]), chains.remove(i), (fuel - 1) as nat),
        }
    }
}

proof fn lemma_next_link(tail: Point, chains: Seq<Seq<Point>>, i: int)
    requires
        0 <= i,
        next_link(tail, chains, i) is Some,
    ensures
        i <= next_link(tail, chains, i)->Some_0 < chains.len(),
    decreases chains.len() - i,
{
    if i < chains.len() && !(near(tail, chains[i].first()) || near(tail, chains[i].last())) {
        lemma_next_link(tail, chains, i + 1);
    }
}

/// No lines are gained while one is continued.
pub proof fn lemma_grown_shrinks(chain: Seq<Point>, chains: Seq<Seq<Point>>, fuel: nat)
    ensures
        grown(chain, chains, fuel).1.len() <= chains.len(),
    decreases fuel,
{
    if fuel > 0 && !is_closed(chain) {
        match next_link(chain.last(), chains, 0) {
            None => {},
            Some(i) => {
                lemma_next_link(chain.last(), chains, 0);
                lemma_grown_shrinks(joined(chain, chains[i]), chains.remove(i), (fuel - 1) as nat);
            },
        }
    }
}

/// How often a line is continued at most.
pub const MAX_JOINS: u32 = 10_000;

/// The rings that lines can be joined to, starting from the last line; lines that cannot be
/// closed are dropped.
pub open spec fn rings_from(chains: Seq<Seq<Point>>) -> Seq<Seq<Point>>
    decreases chains.len(),
{
    if chains.len() == 0 {
        Seq::empty()
    } else {
        let (ring, left) = grown(chains.last(), chains.drop_last(), MAX_JOINS as nat);
        proof {
            lemma_grown_shrinks(chains.last(), chains.drop_last(), MAX_JOINS as nat);
        }
        match ring {
            Some(r) => seq![r] + rings_from(left),
            None => rings_from(left),
        }
    }
}

/// The rings that the listed ways can be joined to.
pub open spec fn assembled(
    ids: Seq<i64>,
    ways: Map<i64, WayView>,
    xy: Map<i64, Point>,
) -> Seq<Seq<Point>> {
    rings_from(chains_of(ids, ways, xy, ids.len() as int))
}

fn link_index(tail: Point, chains: &Vec<Vec<Point>>) -> (r: Option<usize>)
    requires
        forall|i: int| 0 <= i < chains@.len() ==> (#[trigger] chains@[i])@.len() >= 2,
    ensures
        match next_link(tail, rings_view(chains@), 0) {
            None => r is None,
            Some(i) => r is Some && r->Some_0 == i && 0 <= i < chains@.len(),
        },
{
    let ghost all = rings_view(chains@);
    let mut i: usize = 0;
    while i < chains.len()
        invariant
            i <= chains@.len(),
            all == rings_view(chains@),
            forall|j: int| 0 <= j < chains@.len() ==> (#[trigger] chains@[j])@.len() >= 2,
            next_link(tail, all, 0) == next_link(tail, all, i as int),
        decreases chains@.len() - i,
    {
        assert(all[i as int] == chains@[i as int]@);
        let c = &chains[i];
        if distance_squared(tail, c[0]) < 100 || distance_squared(tail, c[c.len() - 1]) < 100 {
            return Some(i);
        }
        i = i + 1;
    }
    None
}

fn join(chain: &mut Vec<Point>, other: &Vec<Point>)
    requires
        old(chain)@.len() >= 1,
        other@.len() >= 2,
    ensures
        final(chain)@ == joined(old(chain)@, other@),
{
    let ghost start = chain@;
    let n: usize = other.len();
    if distance_squared(chain[chain.len() - 1], other[0]) < 100 {
        let mut i: usize = 1;
        while i < n
            invariant
                1 <= i <= n,
                n == other@.len(),
                chain@ =~= start + other@.take(i as int).skip(1),
            decreases n - i,
        {
            chain.push(other[i]);
            i = i + 1;
        }
        assert(other@.take(n as int) =~= other@);
    } else {
        let mut i: usize = n - 1;
        while i > 0
            invariant
                i < n,
                n == other@.len(),
                chain@ =~= start + other@.drop_last().skip(i as int).reverse(),
            decreases i,
        {
            i = i - 1;
            chain.push(other[i]);
            assert(other@.drop_last().skip(i as int).reverse() =~= other@.drop_last().skip(
                i + 1,
            ).reverse().push(other@[i as int]));
        }
        assert(other@.drop_last().skip(0) =~= other@.drop_last());
    }
}

/// Continues a line until it is closed; returns the ring, and leaves the lines not used.
fn grow(chain: Vec<Point>, chains: &mut Vec<Vec<Point>>) -> (r: Option<Vec<Point>>)
    requires
        chain@.len() >= 2,
        forall|i: int| 0 <= i < old(chains)@.len() ==> (#[trigger] old(chains)@[i])@.len() >= 2,
    ensures
        ({
            let (ring, left) = grown(chain@, rings_view(old(chains)@), MAX_JOINS as nat);
            &&& rings_view(final(chains)@) == left
            &&& match ring {
                None => r is None,
                Some(pts) => r is Some && r->Some_0@ == pts,
            }
        }),
        forall|i: int| 0 <= i < final(chains)@.len() ==> (#[trigger] final(chains)@[i])@.len() >= 2,
{
    let ghost first = chain@;
    let ghost all = rings_view(chains@);
    let mut line = chain;
    let mut fuel: u32 = MAX_JOINS;
    while fuel > 0
        invariant
            line@.len() >= 2,
            first == chain@,
            all == rings_view(old(chains)@),
            forall|i: int| 0 <= i < chains@.len() ==> (#[trigger] chains@[i])@.len() >= 2,
            grown(first, all, MAX_JOINS as nat) == grown(
                line@,
                rings_view(chains@),
                fuel as nat,
            ),
        decreases fuel,
    {
        let n: usize = line.len();
        if n >= 4 && line[0] == line[n - 1] {
            let ghost closed = line@;
            let _ = line.pop();
            assert(line@ =~= closed.drop_last());
            return Some(line);
        }
        match link_index(line[n - 1], chains) {
            None => { return None; },
            Some(i) => {
                let ghost before = chains@;
                let other: Vec<Point> = chains.remove(i);
                assert(rings_view(chains@) =~= rings_view(before).remove(i as int));
                assert(rings_view(before)[i as int] == other@);
                assert forall|j: int| 0 <= j < chains@.len() implies (#[trigger] chains@[j])@.len()
                    >= 2 by {
                    let k = if j < i { j } else { j + 1 };
                    assert(before[k]@.len() >= 2);
                }
                assert(before[i as int]@.len() >= 2);
                join(&mut line, &other);
            },
        }
        fuel = fuel - 1;
    }
    None
}

/// Joins the listed ways to closed rings: each line is continued by the first other line that
/// starts or ends where it ends.
pub fn assemble_rings(way_ids: &[i64], data: &OsmData, xy: &IdMap<Point>) -> (r: Vec<Vec<Point>>)
    requires
        data.wf(),
        xy.wf(),
    ensures
        rings_view(r@) == assembled(way_ids@, data@.ways, xy@),
{
    let ghost ways = data@.ways;
    let mut chains: Vec<Vec<Point>> = Vec::new();
    let mut i: usize = 0;
    while i < way_ids.len()
        invariant
            i <= way_ids@.len(),
            data.wf(),
            xy.wf(),
            ways == data@.ways,
            rings_view(chains@) =~= chains_of(way_ids@, ways, xy@, i as int),
            forall|j: int| 0 <= j < chains@.len() ==> (#[trigger] chains@[j])@.len() >= 2,
        decreases way_ids@.len() - i,
    {
        match data.ways.get(way_ids[i]) {
            None => {},
            Some(way) => {
                assert(ways[way_ids@[i as int]] == way@);
                match open_points(way, xy) {
                    None => {},
                    Some(pts) => chains.push(pts),
                }
            },
        }
        i = i + 1;
    }
    let mut rings: Vec<Vec<Point>> = Vec::new();
    let ghost start = rings_view(chains@);
    while chains.len() > 0
        invariant
            forall|j: int| 0 <= j < chains@.len() ==> (#[trigger] chains@[j])@.len() >= 2,
            rings_from(start) =~= rings_view(rings@) + rings_from(rings_view(chains@)),
        decreases chains@.len(),
    {
        let ghost before = chains@;
        let ghost done = rings_view(rings@);
        match chains.pop() {
            None => {},
            Some(chain) => {
                proof {
                    assert(rings_view(chains@) =~= rings_view(before).drop_last());
                    assert(rings_view(before).last() == chain@);
                    assert(before.last()@.len() >= 2);
                    lemma_grown_shrinks(chain@, rings_view(chains@), MAX_JOINS as nat);
                }
                match grow(chain, &mut chains) {
                    None => {},
                    Some(ring) => {
                        let ghost pts = ring@;
                        rings.push(ring);
                        assert(rings_view(rings@) =~= done + seq![pts]);
                    },
                }
            },
        }
    }
    assert(rings_from(rings_view(chains@)) =~= Seq::empty());
    rings
}

/// Whether a line has points, all of them positions of nodes.
pub open spec fn on_nodes(line: Seq<Point>, xy: Map<i64, Point>) -> bool {
    &&& line.len() >= 1
    &&& forall|j: int| 0 <= j < line.len() ==> xy.values().contains(#[trigger] line[j])
}

/// Whether every line has points, all of them positions of nodes.
pub open spec fn all_on_nodes(lines: Seq<Seq<Point>>, xy: Map<i64, Point>) -> bool {
    forall|i: int| 0 <= i < lines.len() ==> on_nodes(#[trigger] lines[i], xy)
}

proof fn lemma_node_points_on_nodes(ids: Seq<i64>, xy: Map<i64, Point>)
    requires
        node_points(ids, xy) is Some,
        ids.len() > 0,
    ensures
        on_nodes(node_points(ids, xy)->Some_0, xy),
    decreases ids.len(),
{
    let before = ids.drop_last();
    if before.len() > 0 {
        lemma_node_points_on_nodes(before, xy);
    } else {
        assert(node_points(before, xy)->Some_0.len() == 0);
    }
    assert(xy.values().contains(xy[ids.last()]));
}

proof fn lemma_chains_on_nodes(
    ids: Seq<i64>,
    ways: Map<i64, WayView>,
    xy: Map<i64, Point>,
    n: int,
)
    requires
        0 <= n <= ids.len(),
    ensures
        all_on_nodes(chains_of(ids, ways, xy, n), xy),
        forall|i: int|
            0 <= i < chains_of(ids, ways, xy, n).len() ==> (#[trigger] chains_of(
                ids,
                ways,
                xy,
                n,
            )[i]).len() >= 2,
    decreases n,
{
    if n > 0 {
        lemma_chains_on_nodes(ids, ways, xy, n - 1);
        let id = ids[n - 1];
        if ways.contains_key(id) && path_of(ways[id].node_ids, xy) is Some {
            lemma_node_points_on_nodes(ways[id].node_ids, xy);
        }
    }
}

proof fn lemma_grown_on_nodes(
    chain: Seq<Point>,
    chains: Seq<Seq<Point>>,
    fuel: nat,
    xy: Map<i64, Point>,
)
    requires
        on_nodes(chain, xy),
        all_on_nodes(chains, xy),
    ensures
        all_on_nodes(grown(chain, chains, fuel).1, xy),
        grown(chain, chains, fuel).0 is Some ==> on_nodes(
            grown(chain, chains, fuel).0->Some_0,
            xy,
        ) && grown(chain, chains, fuel).0->Some_0.len() >= 3,
    decreases fuel,
{
    if fuel > 0 {
        if is_closed(chain) {
            assert(on_nodes(chain.drop_last(), xy));
        } else {
            match next_link(chain.last(), chains, 0) {
                None => {},
                Some(i) => {
                    lemma_next_link(chain.last(), chains, 0);
                    let other = chains[i];
                    assert(on_nodes(other, xy));
                    let next = joined(chain, other);
                    assert forall|j: int| 0 <= j < next.len() implies xy.values().contains(
                        #[trigger] next[j],
                    ) by {
                        if j < chain.len() {
                            assert(next[j] == chain[j]);
                        } else if near(chain.last(), other.first()) {
                            assert(next[j] == other[j - chain.len() + 1]);
                        } else {
                            assert(next[j] == other[other.len() - 2 - (j - chain.len())]);
                        }
                    }
                    let left = chains.remove(i);
                    assert forall|k: int| 0 <= k < left.len() implies on_nodes(
                        #[trigger] left[k],
                        xy,
                    ) by {
                        let m = if k < i { k } else { k + 1 };
                        assert(left[k] == chains[m]);
                    }
                    lemma_grown_on_nodes(next, left, (fuel - 1) as nat, xy);
                },
            }
        }
    }
}

proof fn lemma_rings_on_nodes(chains: Seq<Seq<Point>>, xy: Map<i64, Point>)
    requires
        all_on_nodes(chains, xy),
    ensures
        all_on_nodes(rings_from(chains), xy),
        forall|i: int| 0 <= i < rings_from(chains).len() ==> (#[trigger] rings_from(chains)[i]).len() >= 3,
        rings_from(chains).len() <= chains.len(),
    decreases chains.len(),
{
    if chains.len() > 0 {
        let rest = chains.drop_last();
        assert(on_nodes(chains.last(), xy));
        assert(all_on_nodes(rest, xy));
        let (ring, left) = grown(chains.last(), rest, MAX_JOINS as nat);
        lemma_grown_shrinks(chains.last(), rest, MAX_JOINS as nat);
        lemma_grown_on_nodes(chains.last(), rest, MAX_JOINS as nat, xy);
        lemma_rings_on_nodes(left, xy);
        if ring is Some {
            let all = rings_from(chains);
            assert forall|i: int| 0 <= i < all.len() implies on_nodes(#[trigger] all[i], xy)
                && all[i].len() >= 3 by {
                if i > 0 {
                    assert(all[i] == rings_from(left)[i - 1]);
                }
            }
        }
    }
}

/// Assembled rings have at least three points, all of them positions of nodes, and there are no
/// more rings than ways.
pub proof fn assembled_rings_are_made_of_nodes(
    ids: Seq<i64>,
    ways: Map<i64, WayView>,
    xy: Map<i64, Point>,
)
    ensures
        all_on_nodes(assembled(ids, ways, xy), xy),
        forall|i: int|
            0 <= i < assembled(ids, ways, xy).len() ==> (#[trigger] assembled(ids, ways, xy)[i]).len()
                >= 3,
        assembled(ids, ways, xy).len() <= ids.len(),
{
    let n = ids.len() as int;
    lemma_chains_on_nodes(ids, ways, xy, n);
    lemma_rings_on_nodes(chains_of(ids, ways, xy, n), xy);
    lemma_chains_count(ids, ways, xy, n);
}

proof fn lemma_chains_count(ids: Seq<i64>, ways: Map<i64, WayView>, xy: Map<i64, Point>, n: int)
    requires
        0 <= n,
    ensures
        chains_of(ids, ways, xy, n).len() <= n,
    decreases n,
{
    if n > 0 {
        lemma_chains_count(ids, ways, xy, n - 1);
    }
}

// ---------- areas ----------

/// A ring turned counter-clockwise.
pub open spec fn outline(ring: Seq<Point>) -> Seq<Point> {
    if doubled_area(ring) < 0 {
        ring.reverse()
    } else {
        ring
    }
}

/// A ring turned clockwise.
pub open spec fn cutout(ring: Seq<Point>) -> Seq<Point> {
    if doubled_area(ring) > 0 {
        ring.reverse()
    } else {
        ring
    }
}

/// Outlines turn counter-clockwise and holes clockwise, and neither gains or loses a point.
pub proof fn normalized_rings_have_a_direction(ring: Seq<Point>)
    ensures
        doubled_area(outline(ring)) == magnitude(doubled_area(ring)),
        doubled_area(cutout(ring)) == -magnitude(doubled_area(ring)),
        forall|p: Point| outline(ring).contains(p) <==> ring.contains(p),
        forall|p: Point| cutout(ring).contains(p) <==> ring.contains(p),
        outline(ring).len() == ring.len(),
        cutout(ring).len() == ring.len(),
{
    lemma_area_reverse(ring);
    assert forall|p: Point| ring.reverse().contains(p) <==> ring.contains(p) by {
        let n = ring.len();
        if ring.contains(p) {
            let i = choose|i: int| 0 <= i < n && ring[i] == p;
            assert(ring.reverse()[n - 1 - i] == p);
        }
        if ring.reverse().contains(p) {
            let i = choose|i: int| 0 <= i < n && ring.reverse()[i] == p;
            assert(ring[n - 1 - i] == p);
        }
    }
}

fn reverse(ring: &mut Vec<Point>)
    ensures
        final(ring)@ == old(ring)@.reverse(),
{
    let ghost start = ring@;
    let n: usize = ring.len();
    let mut out: Vec<Point> = Vec::new();
    let mut i: usize = n;
    while i > 0
        invariant
            i <= n,
            n == ring@.len(),
            ring@ == start,
            out@ =~= start.skip(i as int).reverse(),
        decreases i,
    {
        i = i - 1;
        out.push(ring[i]);
        assert(start.skip(i as int).reverse() =~= start.skip(i + 1).reverse().push(
            start[i as int],
        ));
    }
    assert(start.skip(0) =~= start);
    *ring = out;
}

/// Turns a ring counter-clockwise.
pub fn normalize_ring(ring: &mut Vec<Point>)
    ensures
        final(ring)@ == outline(old(ring)@),
{
    if ring_area(ring) < 0 {
        reverse(ring);
    }
}

/// Turns a ring clockwise.
pub fn normalize_hole(ring: &mut Vec<Point>)
    ensures
        final(ring)@ == cutout(old(ring)@),
{
    if ring_area(ring) > 0 {
        reverse(ring);
    }
}

/// The index of the smallest of the first `n` outlines that contain a point, the first of them
/// where several are as small.
pub open spec fn owner(p: Point, outers: Seq<Seq<Point>>, n: int) -> Option<int>
    decreases n,
{
    if n <= 0 {
        None
    } else {
        match owner(p, outers, n - 1) {
            None => if inside(p, outers[n - 1]) {
                Some(n - 1)
            } else {
                None
            },
            Some(i) => if inside(p, outers[n - 1]) && magnitude(doubled_area(outers[n - 1]))
                < magnitude(doubled_area(outers[i])) {
                Some(n - 1)
            } else {
                Some(i)
            },
        }
    }
}

/// A hole belongs to a smallest outline that contains it, and to none only where none does.
pub proof fn hole_belongs_to_smallest_outline(p: Point, outers: Seq<Seq<Point>>, n: int)
    requires
        0 <= n <= outers.len(),
    ensures
        match owner(p, outers, n) {
            None => forall|i: int| 0 <= i < n ==> !inside(p, #[trigger] outers[i]),
            Some(k) => {
                &&& 0 <= k < n
                &&& inside(p, outers[k])
                &&& forall|i: int|
                    0 <= i < n && inside(p, #[trigger] outers[i]) ==> magnitude(
                        doubled_area(outers[k]),
                    ) <= magnitude(doubled_area(outers[i]))
            },
        },
    decreases n,
{
    if n > 0 {
        hole_belongs_to_smallest_outline(p, outers, n - 1);
    }
}

/// The holes among the first `n` inner rings that belong to outline `k`.
pub open spec fn holes_in(
    k: int,
    outers: Seq<Seq<Point>>,
    inners: Seq<Seq<Point>>,
    n: int,
) -> Seq<Seq<Point>>
    decreases n,
{
    if n <= 0 {
        Seq::empty()
    } else {
        let before = holes_in(k, outers, inners, n - 1);
        if owner(inners[n - 1][0], outers, outers.len() as int) == Some(k) {
            before.push(cutout(inners[n - 1]))
        } else {
            before
        }
    }
}

/// The outlines of rings.
pub open spec fn outlines(rings: Seq<Seq<Point>>) -> Seq<Seq<Point>> {
    rings.map_values(|r: Seq<Point>| outline(r))
}

/// The areas that outer and inner rings bound.
pub open spec fn areas(
    kind: PolyKind,
    outers: Seq<Seq<Point>>,
    inners: Seq<Seq<Point>>,
) -> Seq<PolyView> {
    Seq::new(
        outers.len(),
        |k: int|
            PolyView {
                kind,
                outer: outline(outers[k]),
                holes: holes_in(k, outlines(outers), inners, inners.len() as int),
            },
    )
}

fn abs_area(ring: &Vec<Point>) -> (r: u128)
    ensures
        r == magnitude(doubled_area(ring@)),
{
    let a: i128 = ring_area(ring);
    if a < 0 {
        (-(a + 1)) as u128 + 1
    } else {
        a as u128
    }
}

fn owner_of(p: Point, outers: &Vec<Vec<Point>>) -> (r: Option<usize>)
    requires
        forall|i: int| 0 <= i < outers@.len() ==> (#[trigger] outers@[i])@.len() >= 1,
    ensures
        match owner(p, rings_view(outers@), outers@.len() as int) {
            None => r is None,
            Some(k) => r is Some && r->Some_0 == k,
        },
{
    let ghost all = rings_view(outers@);
    let mut best: Option<usize> = None;
    let mut i: usize = 0;
    while i < outers.len()
        invariant
            i <= outers@.len(),
            all == rings_view(outers@),
            forall|j: int| 0 <= j < outers@.len() ==> (#[trigger] outers@[j])@.len() >= 1,
            match owner(p, all, i as int) {
                None => best is None,
                Some(k) => best is Some && best->Some_0 == k && k < i,
            },
        decreases outers@.len() - i,
    {
        assert(all[i as int] == outers@[i as int]@);
        if point_in_ring(p, &outers[i]) {
            match best {
                None => {
                    best = Some(i);
                },
                Some(k) => {
                    assert(all[k as int] == outers@[k as int]@);
                    if abs_area(&outers[i]) < abs_area(&outers[k]) {
                        best = Some(i);
                    }
                },
            }
        }
        i = i + 1;
    }
    best
}

/// The areas that outer and inner rings bound: each hole belongs to the smallest outline that
/// contains its first point.
pub fn poly_from_rings(kind: PolyKind, outers: &Vec<Vec<Point>>, inners: &Vec<Vec<Point>>) -> (r:
    Vec<Poly>)
    requires
        forall|i: int| 0 <= i < outers@.len() ==> (#[trigger] outers@[i])@.len() >= 1,
        forall|i: int| 0 <= i < inners@.len() ==> (#[trigger] inners@[i])@.len() >= 1,
    ensures
        polys_view(r@) == areas(kind, rings_view(outers@), rings_view(inners@)),
{
    let ghost given = rings_view(outers@);
    let ghost cut = rings_view(inners@);
    let ghost lines = outlines(given);
    let mut shapes: Vec<Vec<Point>> = Vec::new();
    let mut i: usize = 0;
    while i < outers.len()
        invariant
            i <= outers@.len(),
            given == rings_view(outers@),
            lines == outlines(given),
            forall|j: int| 0 <= j < outers@.len() ==> (#[trigger] outers@[j])@.len() >= 1,
            rings_view(shapes@) =~= lines.take(i as int),
            forall|j: int| 0 <= j < shapes@.len() ==> (#[trigger] shapes@[j])@.len() >= 1,
        decreases outers@.len() - i,
    {
        assert(given[i as int] == outers@[i as int]@);
        let mut ring: Vec<Point> = copy_points(&outers[i]);
        normalize_ring(&mut ring);
        let ghost before = shapes@;
        let ghost pts = ring@;
        shapes.push(ring);
        assert(rings_view(shapes@) =~= rings_view(before).push(pts));
        assert(lines[i as int] == pts);
        i = i + 1;
    }
    assert(rings_view(shapes@) =~= lines);
    let mut polys: Vec<Poly> = Vec::new();
    let mut k: usize = 0;
    while k < shapes.len()
        invariant
            k <= shapes@.len(),
            given == rings_view(outers@),
            given.len() == shapes@.len(),
            lines == outlines(given),
            cut == rings_view(inners@),
            rings_view(shapes@) == lines,
            forall|j: int| 0 <= j < shapes@.len() ==> (#[trigger] shapes@[j])@.len() >= 1,
            forall|j: int| 0 <= j < inners@.len() ==> (#[trigger] inners@[j])@.len() >= 1,
            polys_view(polys@) =~= areas(kind, given, cut).take(k as int),
        decreases shapes@.len() - k,
    {
        let mut holes: Vec<Vec<Point>> = Vec::new();
        let mut h: usize = 0;
        while h < inners.len()
            invariant
                h <= inners@.len(),
                k < shapes@.len(),
                cut == rings_view(inners@),
                rings_view(shapes@) == lines,
                lines.len() == shapes@.len(),
                forall|j: int| 0 <= j < shapes@.len() ==> (#[trigger] shapes@[j])@.len() >= 1,
                forall|j: int| 0 <= j < inners@.len() ==> (#[trigger] inners@[j])@.len() >= 1,
                rings_view(holes@) =~= holes_in(k as int, lines, cut, h as int),
            decreases inners@.len() - h,
        {
            assert(cut[h as int] == inners@[h as int]@);
            assert(inners@[h as int]@.len() >= 1);
            let mine: bool = match owner_of(inners[h][0], &shapes) {
                Some(o) => o == k,
                None => false,
            };
            if mine {
                let ghost before = holes@;
                let mut hole: Vec<Point> = copy_points(&inners[h]);
                normalize_hole(&mut hole);
                let ghost pts = hole@;
                holes.push(hole);
                assert(rings_view(holes@) =~= rings_view(before).push(pts));
            }
            h = h + 1;
        }
        assert(lines[k as int] == shapes@[k as int]@);
        let outer: Vec<Point> = copy_points(&shapes[k]);
        let ghost before = polys@;
        let poly = Poly { kind, outer, holes };
        let ghost view = poly@;
        polys.push(poly);
        assert(polys_view(polys@) =~= polys_view(before).push(view));
        k = k + 1;
    }
    assert(areas(kind, given, cut).take(given.len() as int) =~= areas(kind, given, cut));
    polys
}

// ---------- the whole map ----------

/// The corners of the smallest box around points.
pub open spec fn bounds(pts: Seq<Point>) -> Option<(Point, Point)>
    decreases pts.len(),
{
    if pts.len() == 0 {
        None
    } else {
        let p = pts.last();
        match bounds(pts.drop_last()) {
            None => Some((p, p)),
            Some((lo, hi)) => Some(
                (
                    Point {
                        x: if p.x < lo.x { p.x } else { lo.x },
                        y: if p.y < lo.y { p.y } else { lo.y },
                    },
                    Point {
                        x: if p.x > hi.x { p.x } else { hi.x },
                        y: if p.y > hi.y { p.y } else { hi.y },
                    },
                ),
            ),
        }
    }
}

/// The box around points holds each of them, and each side of it touches one.
pub proof fn bounds_are_tight(pts: Seq<Point>)
    requires
        pts.len() > 0,
    ensures
        bounds(pts) is Some,
        ({
            let (lo, hi) = bounds(pts)->Some_0;
            &&& forall|i: int|
                0 <= i < pts.len() ==> lo.x <= (#[trigger] pts[i]).x <= hi.x && lo.y <= pts[i].y
                    <= hi.y
            &&& exists|i: int| 0 <= i < pts.len() && (#[trigger] pts[i]).x == lo.x
            &&& exists|i: int| 0 <= i < pts.len() && (#[trigger] pts[i]).x == hi.x
            &&& exists|i: int| 0 <= i < pts.len() && (#[trigger] pts[i]).y == lo.y
            &&& exists|i: int| 0 <= i < pts.len() && (#[trigger] pts[i]).y == hi.y
        }),
    decreases pts.len(),
{
    let rest = pts.drop_last();
    let n = rest.len() as int;
    assert(pts[n] == pts.last());
    if n > 0 {
        bounds_are_tight(rest);
        let (lo, hi) = bounds(rest)->Some_0;
        let a = choose|i: int| 0 <= i < rest.len() && (#[trigger] rest[i]).x == lo.x;
        let b = choose|i: int| 0 <= i < rest.len() && (#[trigger] rest[i]).x == hi.x;
        let c = choose|i: int| 0 <= i < rest.len() && (#[trigger] rest[i]).y == lo.y;
        let d = choose|i: int| 0 <= i < rest.len() && (#[trigger] rest[i]).y == hi.y;
        assert(pts[a] == rest[a] && pts[b] == rest[b] && pts[c] == rest[c] && pts[d] == rest[d]);
        assert forall|i: int| 0 <= i < pts.len() implies bounds(pts)->Some_0.0.x <= (
        #[trigger] pts[i]).x <= bounds(pts)->Some_0.1.x && bounds(pts)->Some_0.0.y <= pts[i].y
            <= bounds(pts)->Some_0.1.y by {
            if i < n {
                assert(pts[i] == rest[i]);
            }
        }
    } else {
        assert(bounds(rest) is None);
    }
}

fn widen(bounds_so_far: Option<(Point, Point)>, pts: &Vec<Point>, Ghost(seen): Ghost<Seq<Point>>) -> (r:
    Option<(Point, Point)>)
    requires
        bounds_so_far == bounds(seen),
    ensures
        r == bounds(seen + pts@),
{
    let mut b: Option<(Point, Point)> = bounds_so_far;
    let mut i: usize = 0;
    assert(seen + pts@.take(0) =~= seen);
    while i < pts.len()
        invariant
            i <= pts@.len(),
            b == bounds(seen + pts@.take(i as int)),
        decreases pts@.len() - i,
    {
        let p = pts[i];
        assert((seen + pts@.take(i + 1)).drop_last() =~= seen + pts@.take(i as int));
        b = match b {
            None => Some((p, p)),
            Some((lo, hi)) => Some(
                (
                    Point {
                        x: if p.x < lo.x { p.x } else { lo.x },
                        y: if p.y < lo.y { p.y } else { lo.y },
                    },
                    Point {
                        x: if p.x > hi.x { p.x } else { hi.x },
                        y: if p.y > hi.y { p.y } else { hi.y },
                    },
                ),
            ),
        };
        i = i + 1;
    }
    assert(pts@.take(pts@.len() as int) =~= pts@);
    b
}

/// What elements add to a map: areas, lines, and the points that the box has to hold.
pub struct Parts {
    pub polys: Seq<PolyView>,
    pub lines: Seq<LineView>,
    pub touched: Seq<Point>,
}

impl Parts {
    /// Nothing.
    pub open spec fn none() -> Parts {
        Parts { polys: Seq::empty(), lines: Seq::empty(), touched: Seq::empty() }
    }

    /// These parts followed by others.
    pub open spec fn plus(self, other: Parts) -> Parts {
        Parts {
            polys: self.polys + other.polys,
            lines: self.lines + other.lines,
            touched: self.touched + other.touched,
        }
    }

    /// One area without holes.
    pub open spec fn area(kind: PolyKind, ring: Option<Seq<Point>>) -> Parts {
        match ring {
            None => Parts::none(),
            Some(r) => Parts {
                polys: seq![PolyView { kind, outer: outline(r), holes: Seq::empty() }],
                lines: Seq::empty(),
                touched: outline(r),
            },
        }
    }

    /// One line.
    pub open spec fn line(kind: LineKind, width: u32, pts: Option<Seq<Point>>) -> Parts {
        match pts {
            None => Parts::none(),
            Some(p) => Parts {
                polys: Seq::empty(),
                lines: seq![LineView { kind, pts: p, width }],
                touched: p,
            },
        }
    }
}

/// What a way adds to the map.
pub open spec fn way_parts(way: WayView, xy: Map<i64, Point>) -> Parts {
    match way_shape(way.tags) {
        WayShape::Area(kind) => Parts::area(kind, ring_of(way.node_ids, xy)),
        WayShape::Path(kind, width) => Parts::line(kind, width, path_of(way.node_ids, xy)),
        WayShape::Bank(width) => match ring_of(way.node_ids, xy) {
            Some(r) => Parts::area(PolyKind::Water, Some(r)),
            None => Parts::line(LineKind::Waterway, width, path_of(way.node_ids, xy)),
        },
        WayShape::Hidden => Parts::none(),
    }
}

/// What the first `n` ways add to the map.
pub open spec fn ways_parts(ways: Seq<WayView>, xy: Map<i64, Point>, n: int) -> Parts
    decreases n,
{
    if n <= 0 {
        Parts::none()
    } else {
        ways_parts(ways, xy, n - 1).plus(way_parts(ways[n - 1], xy))
    }
}

/// The ways among the first `n` members that bound an area from outside (no role, or "outer"),
/// or from inside ("inner").
pub open spec fn member_ids(members: Seq<(i64, Seq<char>)>, outer: bool, n: int) -> Seq<i64>
    decreases n,
{
    if n <= 0 {
        Seq::empty()
    } else {
        let before = member_ids(members, outer, n - 1);
        let role = members[n - 1].1;
        if if outer { role.len() == 0 || role == "outer"@ } else { role == "inner"@ } {
            before.push(members[n - 1].0)
        } else {
            before
        }
    }
}

/// The rings among the first `n` that are larger than 500 square metres.
pub open spec fn big_rings(rings: Seq<Seq<Point>>, n: int) -> Seq<Seq<Point>>
    decreases n,
{
    if n <= 0 {
        Seq::empty()
    } else {
        let before = big_rings(rings, n - 1);
        if magnitude(doubled_area(rings[n - 1])) > 10_000_000 {
            before.push(rings[n - 1])
        } else {
            before
        }
    }
}

/// The rings of the members of a relation, without scraps.
pub open spec fn member_rings(
    rel: RelationView,
    ways: Map<i64, WayView>,
    xy: Map<i64, Point>,
    outer: bool,
) -> Seq<Seq<Point>> {
    let rings = assembled(
        member_ids(rel.members, outer, rel.members.len() as int),
        ways,
        xy,
    );
    big_rings(rings, rings.len() as int)
}

/// All points of the first `n` rings.
pub open spec fn all_points(rings: Seq<Seq<Point>>, n: int) -> Seq<Point>
    decreases n,
{
    if n <= 0 {
        Seq::empty()
    } else {
        all_points(rings, n - 1) + rings[n - 1]
    }
}

/// What a relation adds to the map.
pub open spec fn relation_parts(
    rel: RelationView,
    ways: Map<i64, WayView>,
    xy: Map<i64, Point>,
) -> Parts {
    match relation_kind(rel.tags) {
        None => Parts::none(),
        Some(kind) => {
            let outers = member_rings(rel, ways, xy, true);
            let inners = member_rings(rel, ways, xy, false);
            if outers.len() == 0 {
                Parts::none()
            } else {
                Parts {
                    polys: areas(kind, outers, inners),
                    lines: Seq::empty(),
                    touched: all_points(outers, outers.len() as int) + all_points(
                        inners,
                        inners.len() as int,
                    ),
                }
            }
        },
    }
}

/// What the first `n` relations add to the map.
pub open spec fn relations_parts(
    rels: Seq<RelationView>,
    ways: Map<i64, WayView>,
    xy: Map<i64, Point>,
    n: int,
) -> Parts
    decreases n,
{
    if n <= 0 {
        Parts::none()
    } else {
        relations_parts(rels, ways, xy, n - 1).plus(relation_parts(rels[n - 1], ways, xy))
    }
}

/// The ways of a data set in the order of their identifiers.
pub open spec fn way_list(data: OsmData) -> Seq<WayView> {
    data.ways.entries@.map_values(|e: (i64, Way)| e.1@)
}

/// The relations of a data set in the order of their identifiers.
pub open spec fn relation_list(data: OsmData) -> Seq<RelationView> {
    data.relations.entries@.map_values(|e: (i64, Relation)| e.1@)
}

/// What the elements of a data set add to the map: the ways, then the relations.
pub open spec fn map_parts(data: OsmData, xy: Map<i64, Point>) -> Parts {
    ways_parts(way_list(data), xy, way_list(data).len() as int).plus(
        relations_parts(
            relation_list(data),
            data@.ways,
            xy,
            relation_list(data).len() as int,
        ),
    )
}

/// The map of a data set, given the positions of its nodes in the plane.
pub open spec fn map_of(data: OsmData, xy: Map<i64, Point>) -> MapView {
    let parts = map_parts(data, xy);
    let origin = Point { x: 0, y: 0 };
    MapView {
        polys: parts.polys,
        lines: parts.lines,
        min: match bounds(parts.touched) {
            Some((lo, _)) => lo,
            None => origin,
        },
        max: match bounds(parts.touched) {
            Some((_, hi)) => hi,
            None => origin,
        },
    }
}

/// A map while it is being put together.
struct Canvas {
    polys: Vec<Poly>,
    lines: Vec<Line>,
    bounds: Option<(Point, Point)>,
}

impl Canvas {
    spec fn holds(self, parts: Parts) -> bool {
        &&& polys_view(self.polys@) == parts.polys
        &&& lines_view(self.lines@) == parts.lines
        &&& self.bounds == bounds(parts.touched)
    }

    fn add_area(&mut self, kind: PolyKind, ring: Option<Vec<Point>>, Ghost(parts): Ghost<Parts>)
        requires
            old(self).holds(parts),
        ensures
            final(self).holds(
                parts.plus(
                    Parts::area(
                        kind,
                        match ring {
                            Some(r) => Some(r@),
                            None => None,
                        },
                    ),
                ),
            ),
    {
        match ring {
            None => {
                proof {
                    lemma_plus_none(parts);
                }
            },
            Some(r) => {
                let ghost given = r@;
                let mut outer = r;
                normalize_ring(&mut outer);
                self.bounds = widen(self.bounds, &outer, Ghost(parts.touched));
                let ghost before = self.polys@;
                let poly = Poly { kind, outer, holes: Vec::new() };
                let ghost view = poly@;
                self.polys.push(poly);
                proof {
                    assert(view.holes =~= Seq::empty());
                    assert(polys_view(self.polys@) =~= polys_view(before).push(view));
                    let sum = parts.plus(Parts::area(kind, Some(given)));
                    assert(polys_view(self.polys@) =~= sum.polys);
                    assert(lines_view(self.lines@) =~= sum.lines);
                }
            },
        }
    }

    fn add_line(
        &mut self,
        kind: LineKind,
        width: u32,
        pts: Option<Vec<Point>>,
        Ghost(parts): Ghost<Parts>,
    )
        requires
            old(self).holds(parts),
        ensures
            final(self).holds(
                parts.plus(
                    Parts::line(
                        kind,
                        width,
                        match pts {
                            Some(p) => Some(p@),
                            None => None,
                        },
                    ),
                ),
            ),
    {
        match pts {
            None => {
                proof {
                    lemma_plus_none(parts);
                }
            },
            Some(p) => {
                let ghost given = p@;
                self.bounds = widen(self.bounds, &p, Ghost(parts.touched));
                let ghost before = self.lines@;
                let line = Line { kind, pts: p, width };
                let ghost view = line@;
                self.lines.push(line);
                proof {
                    assert(lines_view(self.lines@) =~= lines_view(before).push(view));
                    let sum = parts.plus(Parts::line(kind, width, Some(given)));
                    assert(polys_view(self.polys@) =~= sum.polys);
                    assert(lines_view(self.lines@) =~= sum.lines);
                }
            },
        }
    }

    fn add_way(&mut self, way: &Way, xy: &IdMap<Point>, Ghost(parts): Ghost<Parts>)
        requires
            old(self).holds(parts),
            way.tags.wf(),
            xy.wf(),
        ensures
            final(self).holds(parts.plus(way_parts(way@, xy@))),
    {
        match shape_of_way(&way.tags) {
            WayShape::Area(kind) => self.add_area(kind, closed_ring(way, xy), Ghost(parts)),
            WayShape::Path(kind, width) => self.add_line(
                kind,
                width,
                open_points(way, xy),
                Ghost(parts),
            ),
            WayShape::Bank(width) => match closed_ring(way, xy) {
                Some(r) => self.add_area(PolyKind::Water, Some(r), Ghost(parts)),
                None => self.add_line(
                    LineKind::Waterway,
                    width,
                    open_points(way, xy),
                    Ghost(parts),
                ),
            },
            WayShape::Hidden => {
                proof {
                    lemma_plus_none(parts);
                }
            },
        }
    }

    fn add_relation(
        &mut self,
        rel: &Relation,
        data: &OsmData,
        xy: &IdMap<Point>,
        Ghost(parts): Ghost<Parts>,
    )
        requires
            old(self).holds(parts),
            rel.tags.wf(),
            data.wf(),
            xy.wf(),
        ensures
            final(self).holds(parts.plus(relation_parts(rel@, data@.ways, xy@))),
    {
        let kind: PolyKind = match kind_of_relation(&rel.tags) {
            None => {
                proof {
                    lemma_plus_none(parts);
                }
                return;
            },
            Some(kind) => kind,
        };
        let outers: Vec<Vec<Point>> = rings_of_members(rel, data, xy, true);
        let inners: Vec<Vec<Point>> = rings_of_members(rel, data, xy, false);
        if outers.len() == 0 {
            proof {
                lemma_plus_none(parts);
            }
            return;
        }
        self.bounds = widen_all(self.bounds, &outers, Ghost(parts.touched));
        let ghost seen = parts.touched + all_points(rings_view(outers@), outers@.len() as int);
        self.bounds = widen_all(self.bounds, &inners, Ghost(seen));
        let ghost before = self.polys@;
        let mut polys: Vec<Poly> = poly_from_rings(kind, &outers, &inners);
        let ghost added = polys@;
        self.polys.append(&mut polys);
        proof {
            let now = relation_parts(rel@, data@.ways, xy@);
            assert(polys_view(before + added) =~= polys_view(before) + polys_view(added));
            let sum = parts.plus(now);
            assert(polys_view(self.polys@) =~= sum.polys);
            assert(lines_view(self.lines@) =~= sum.lines);
            assert(sum.touched =~= seen + all_points(rings_view(inners@), inners@.len() as int));
        }
    }
}

proof fn lemma_plus_none(parts: Parts)
    ensures
        parts.plus(Parts::none()) == parts,
{
    let sum = parts.plus(Parts::none());
    assert(sum.polys =~= parts.polys);
    assert(sum.lines =~= parts.lines);
    assert(sum.touched =~= parts.touched);
}

fn widen_all(
    bounds_so_far: Option<(Point, Point)>,
    rings: &Vec<Vec<Point>>,
    Ghost(seen): Ghost<Seq<Point>>,
) -> (r: Option<(Point, Point)>)
    requires
        bounds_so_far == bounds(seen),
    ensures
        r == bounds(seen + all_points(rings_view(rings@), rings@.len() as int)),
{
    let ghost all = rings_view(rings@);
    let mut b: Option<(Point, Point)> = bounds_so_far;
    let mut i: usize = 0;
    assert(seen + all_points(all, 0) =~= seen);
    while i < rings.len()
        invariant
            i <= rings@.len(),
            all == rings_view(rings@),
            b == bounds(seen + all_points(all, i as int)),
        decreases rings@.len() - i,
    {
        assert(all[i as int] == rings@[i as int]@);
        b = widen(b, &rings[i], Ghost(seen + all_points(all, i as int)));
        assert(seen + all_points(all, i as int) + rings@[i as int]@ =~= seen + all_points(
            all,
            i + 1,
        ));
        i = i + 1;
    }
    b
}

fn ids_of_members(members: &Vec<(i64, String)>, outer: bool) -> (r: Vec<i64>)
    ensures
        r@ == member_ids(members_view(members@), outer, members@.len() as int),
{
    let ghost all = members_view(members@);
    let mut ids: Vec<i64> = Vec::new();
    let mut i: usize = 0;
    while i < members.len()
        invariant
            i <= members@.len(),
            all == members_view(members@),
            ids@ == member_ids(all, outer, i as int),
        decreases members@.len() - i,
    {
        assert(all[i as int] == (members@[i as int].0, members@[i as int].1@));
        let role: &str = members[i].1.as_str();
        let fits: bool = if outer {
            role.unicode_len() == 0 || same(role, "outer")
        } else {
            same(role, "inner")
        };
        if fits {
            ids.push(members[i].0);
        }
        i = i + 1;
    }
    ids
}

fn rings_of_members(rel: &Relation, data: &OsmData, xy: &IdMap<Point>, outer: bool) -> (r: Vec<
    Vec<Point>,
>)
    requires
        data.wf(),
        xy.wf(),
    ensures
        rings_view(r@) == member_rings(rel@, data@.ways, xy@, outer),
        forall|i: int| 0 <= i < r@.len() ==> (#[trigger] r@[i])@.len() >= 1,
{
    let ids: Vec<i64> = ids_of_members(&rel.members, outer);
    let rings: Vec<Vec<Point>> = assemble_rings(&ids, data, xy);
    let ghost all = rings_view(rings@);
    let mut kept: Vec<Vec<Point>> = Vec::new();
    let mut i: usize = 0;
    while i < rings.len()
        invariant
            i <= rings@.len(),
            all == rings_view(rings@),
            rings_view(kept@) =~= big_rings(all, i as int),
            forall|j: int| 0 <= j < kept@.len() ==> (#[trigger] kept@[j])@.len() >= 1,
        decreases rings@.len() - i,
    {
        assert(all[i as int] == rings@[i as int]@);
        if abs_area(&rings[i]) > 10_000_000 {
            let ghost before = kept@;
            let ring: Vec<Point> = copy_points(&rings[i]);
            let ghost pts = ring@;
            assert(pts.len() >= 1) by {
                if pts.len() < 3 {
                    assert(doubled_area(pts) == 0);
                }
            }
            kept.push(ring);
            assert(rings_view(kept@) =~= rings_view(before).push(pts));
        }
        i = i + 1;
    }
    kept
}

/// The map of a data set, given the positions of its nodes in the plane: areas and lines of the
/// ways in the order of their identifiers, then the areas of the multipolygon relations.
pub fn extract_map(data: &OsmData, xy: &IdMap<Point>) -> (r: MapData)
    requires
        data.wf(),
        xy.wf(),
    ensures
        r@ == map_of(*data, xy@),
{
    let mut canvas = Canvas { polys: Vec::new(), lines: Vec::new(), bounds: None };
    let ghost ways = way_list(*data);
    let ghost rels = relation_list(*data);
    let mut i: usize = 0;
    proof {
        assert(polys_view(canvas.polys@) =~= Seq::empty());
        assert(lines_view(canvas.lines@) =~= Seq::empty());
    }
    while i < data.ways.entries.len()
        invariant
            i <= data.ways.entries@.len(),
            data.wf(),
            xy.wf(),
            ways == way_list(*data),
            canvas.holds(ways_parts(ways, xy@, i as int)),
        decreases data.ways.entries@.len() - i,
    {
        proof {
            crate::idmap::lemma_entry(data.ways.entries@, i as int);
            assert(data.ways@.contains_key(data.ways.entries@[i as int].0));
            assert(ways[i as int] == data.ways.entries@[i as int].1@);
        }
        canvas.add_way(&data.ways.entries[i].1, xy, Ghost(ways_parts(ways, xy@, i as int)));
        i = i + 1;
    }
    let ghost from_ways = ways_parts(ways, xy@, ways.len() as int);
    proof {
        lemma_plus_none(from_ways);
    }
    let mut k: usize = 0;
    while k < data.relations.entries.len()
        invariant
            k <= data.relations.entries@.len(),
            data.wf(),
            xy.wf(),
            rels == relation_list(*data),
            canvas.holds(from_ways.plus(relations_parts(rels, data@.ways, xy@, k as int))),
        decreases data.relations.entries@.len() - k,
    {
        let ghost before = relations_parts(rels, data@.ways, xy@, k as int);
        proof {
            crate::idmap::lemma_entry(data.relations.entries@, k as int);
            assert(data.relations@.contains_key(data.relations.entries@[k as int].0));
            assert(rels[k as int] == data.relations.entries@[k as int].1@);
        }
        canvas.add_relation(
            &data.relations.entries[k].1,
            data,
            xy,
            Ghost(from_ways.plus(before)),
        );
        proof {
            lemma_plus_associative(
                from_ways,
                before,
                relation_parts(rels[k as int], data@.ways, xy@),
            );
        }
        k = k + 1;
    }
    let origin = Point { x: 0, y: 0 };
    let (min, max) = match canvas.bounds {
        Some(b) => b,
        None => (origin, origin),
    };
    MapData { polys: canvas.polys, lines: canvas.lines, min, max }
}

proof fn lemma_plus_associative(a: Parts, b: Parts, c: Parts)
    ensures
        a.plus(b).plus(c) == a.plus(b.plus(c)),
{
    let x = a.plus(b).plus(c);
    let y = a.plus(b.plus(c));
    assert(x.polys =~= y.polys);
    assert(x.lines =~= y.lines);
    assert(x.touched =~= y.touched);
}

// ---------- the box ----------

/// Whether a point is in a box.
pub open spec fn in_box(p: Point, min: Point, max: Point) -> bool {
    min.x <= p.x <= max.x && min.y <= p.y <= max.y
}

/// Whether all points of a line are among some points.
pub open spec fn among(line: Seq<Point>, pts: Seq<Point>) -> bool {
    forall|i: int| 0 <= i < line.len() ==> pts.contains(#[trigger] line[i])
}

/// Whether all points of an area are among some points.
pub open spec fn area_among(poly: PolyView, pts: Seq<Point>) -> bool {
    among(poly.outer, pts) && forall|i: int|
        0 <= i < poly.holes.len() ==> among(#[trigger] poly.holes[i], pts)
}

/// Whether the points that the box has to hold are those of all areas and lines.
spec fn box_counts_all(parts: Parts) -> bool {
    &&& forall|i: int| 0 <= i < parts.polys.len() ==> area_among(#[trigger] parts.polys[i], parts.touched)
    &&& forall|i: int| 0 <= i < parts.lines.len() ==> among((#[trigger] parts.lines[i]).pts, parts.touched)
}

proof fn lemma_among_more(line: Seq<Point>, a: Seq<Point>, b: Seq<Point>)
    requires
        among(line, a) || among(line, b),
    ensures
        among(line, a + b),
{
    let all = a + b;
    assert forall|i: int| 0 <= i < line.len() implies all.contains(#[trigger] line[i]) by {
        if among(line, a) {
            let j = choose|j: int| 0 <= j < a.len() && a[j] == line[i];
            assert(all[j] == line[i]);
        } else {
            let j = choose|j: int| 0 <= j < b.len() && b[j] == line[i];
            assert(all[a.len() + j] == line[i]);
        }
    }
}

proof fn lemma_area_among_more(poly: PolyView, a: Seq<Point>, b: Seq<Point>)
    requires
        area_among(poly, a) || area_among(poly, b),
    ensures
        area_among(poly, a + b),
{
    lemma_among_more(poly.outer, a, b);
    assert forall|i: int| 0 <= i < poly.holes.len() implies among(#[trigger] poly.holes[i], a + b) by {
        lemma_among_more(poly.holes[i], a, b);
    }
}

proof fn lemma_plus_counts_all(a: Parts, b: Parts)
    requires
        box_counts_all(a),
        box_counts_all(b),
    ensures
        box_counts_all(a.plus(b)),
{
    let all = a.plus(b);
    assert forall|i: int| 0 <= i < all.polys.len() implies area_among(
        #[trigger] all.polys[i],
        all.touched,
    ) by {
        let poly = all.polys[i];
        if i < a.polys.len() {
            assert(poly == a.polys[i]);
        } else {
            assert(poly == b.polys[i - a.polys.len()]);
        }
        lemma_area_among_more(poly, a.touched, b.touched);
    }
    assert forall|i: int| 0 <= i < all.lines.len() implies among(
        (#[trigger] all.lines[i]).pts,
        all.touched,
    ) by {
        let line = all.lines[i];
        if i < a.lines.len() {
            assert(line == a.lines[i]);
        } else {
            assert(line == b.lines[i - a.lines.len()]);
        }
        lemma_among_more(line.pts, a.touched, b.touched);
    }
}

proof fn lemma_way_counts_all(way: WayView, xy: Map<i64, Point>)
    ensures
        box_counts_all(way_parts(way, xy)),
{
    let parts = way_parts(way, xy);
    assert forall|i: int| 0 <= i < parts.polys.len() implies area_among(
        #[trigger] parts.polys[i],
        parts.touched,
    ) by {
        let outer = parts.polys[i].outer;
        assert(outer == parts.touched);
        assert forall|j: int| 0 <= j < outer.len() implies parts.touched.contains(#[trigger] outer[j]) by {
            assert(parts.touched[j] == outer[j]);
        }
    }
    assert forall|i: int| 0 <= i < parts.lines.len() implies among(
        (#[trigger] parts.lines[i]).pts,
        parts.touched,
    ) by {
        let pts = parts.lines[i].pts;
        assert(pts == parts.touched);
        assert forall|j: int| 0 <= j < pts.len() implies parts.touched.contains(#[trigger] pts[j]) by {
            assert(parts.touched[j] == pts[j]);
        }
    }
}

proof fn lemma_ways_count_all(ways: Seq<WayView>, xy: Map<i64, Point>, n: int)
    ensures
        box_counts_all(ways_parts(ways, xy, n)),
    decreases n,
{
    if n > 0 {
        lemma_ways_count_all(ways, xy, n - 1);
        lemma_way_counts_all(ways[n - 1], xy);
        lemma_plus_counts_all(ways_parts(ways, xy, n - 1), way_parts(ways[n - 1], xy));
    }
}

proof fn lemma_ring_among_all(rings: Seq<Seq<Point>>, n: int, k: int, line: Seq<Point>)
    requires
        0 <= k < n <= rings.len(),
        forall|p: Point| line.contains(p) ==> rings[k].contains(p),
    ensures
        among(line, all_points(rings, n)),
    decreases n,
{
    let before = all_points(rings, n - 1);
    if k < n - 1 {
        lemma_ring_among_all(rings, n - 1, k, line);
    } else {
        assert forall|i: int| 0 <= i < line.len() implies rings[k].contains(#[trigger] line[i]) by {
            assert(line.contains(line[i]));
        }
    }
    lemma_among_more(line, before, rings[n - 1]);
}

proof fn lemma_hole_among_all(k: int, outers: Seq<Seq<Point>>, inners: Seq<Seq<Point>>, n: int)
    requires
        0 <= n <= inners.len(),
    ensures
        forall|i: int|
            0 <= i < holes_in(k, outers, inners, n).len() ==> among(
                #[trigger] holes_in(k, outers, inners, n)[i],
                all_points(inners, n),
            ),
    decreases n,
{
    if n > 0 {
        lemma_hole_among_all(k, outers, inners, n - 1);
        let before = holes_in(k, outers, inners, n - 1);
        let all = holes_in(k, outers, inners, n);
        assert forall|i: int| 0 <= i < all.len() implies among(
            #[trigger] all[i],
            all_points(inners, n),
        ) by {
            if i < before.len() {
                assert(all[i] == before[i]);
                lemma_among_more(before[i], all_points(inners, n - 1), inners[n - 1]);
            } else {
                normalized_rings_have_a_direction(inners[n - 1]);
                lemma_ring_among_all(inners, n, n - 1, cutout(inners[n - 1]));
            }
        }
    }
}

proof fn lemma_relation_counts_all(rel: RelationView, ways: Map<i64, WayView>, xy: Map<i64, Point>)
    ensures
        box_counts_all(relation_parts(rel, ways, xy)),
{
    let parts = relation_parts(rel, ways, xy);
    let outers = member_rings(rel, ways, xy, true);
    let inners = member_rings(rel, ways, xy, false);
    let outside = all_points(outers, outers.len() as int);
    let inside = all_points(inners, inners.len() as int);
    assert forall|k: int| 0 <= k < parts.polys.len() implies area_among(
        #[trigger] parts.polys[k],
        parts.touched,
    ) by {
        let poly = parts.polys[k];
        normalized_rings_have_a_direction(outers[k]);
        lemma_ring_among_all(outers, outers.len() as int, k, poly.outer);
        lemma_among_more(poly.outer, outside, inside);
        lemma_hole_among_all(k, outlines(outers), inners, inners.len() as int);
        assert forall|i: int| 0 <= i < poly.holes.len() implies among(
            #[trigger] poly.holes[i],
            parts.touched,
        ) by {
            lemma_among_more(poly.holes[i], outside, inside);
        }
    }
}

proof fn lemma_relations_count_all(
    rels: Seq<RelationView>,
    ways: Map<i64, WayView>,
    xy: Map<i64, Point>,
    n: int,
)
    ensures
        box_counts_all(relations_parts(rels, ways, xy, n)),
    decreases n,
{
    if n > 0 {
        lemma_relations_count_all(rels, ways, xy, n - 1);
        lemma_relation_counts_all(rels[n - 1], ways, xy);
        lemma_plus_counts_all(
            relations_parts(rels, ways, xy, n - 1),
            relation_parts(rels[n - 1], ways, xy),
        );
    }
}

proof fn lemma_among_in_box(line: Seq<Point>, pts: Seq<Point>, i: int)
    requires
        among(line, pts),
        0 <= i < line.len(),
    ensures
        bounds(pts) is Some,
        in_box(line[i], bounds(pts)->Some_0.0, bounds(pts)->Some_0.1),
{
    assert(pts.contains(line[i]));
    let j = choose|j: int| 0 <= j < pts.len() && pts[j] == line[i];
    bounds_are_tight(pts);
    assert(pts[j] == line[i]);
}

/// The box of a map holds every point of its areas, their holes, and its lines.
pub proof fn box_holds_the_map(data: OsmData, xy: Map<i64, Point>)
    ensures
        ({
            let map = map_of(data, xy);
            &&& forall|i: int, j: int|
                0 <= i < map.polys.len() && 0 <= j < map.polys[i].outer.len() ==> in_box(
                    #[trigger] map.polys[i].outer[j],
                    map.min,
                    map.max,
                )
            &&& forall|i: int, h: int, j: int|
                0 <= i < map.polys.len() && 0 <= h < map.polys[i].holes.len() && 0 <= j
                    < map.polys[i].holes[h].len() ==> in_box(
                    #[trigger] map.polys[i].holes[h][j],
                    map.min,
                    map.max,
                )
            &&& forall|i: int, j: int|
                0 <= i < map.lines.len() && 0 <= j < map.lines[i].pts.len() ==> in_box(
                    #[trigger] map.lines[i].pts[j],
                    map.min,
                    map.max,
                )
        }),
{
    let map = map_of(data, xy);
    let parts = map_parts(data, xy);
    let ways = ways_parts(way_list(data), xy, way_list(data).len() as int);
    let rels = relations_parts(
        relation_list(data),
        data@.ways,
        xy,
        relation_list(data).len() as int,
    );
    lemma_ways_count_all(way_list(data), xy, way_list(data).len() as int);
    lemma_relations_count_all(
        relation_list(data),
        data@.ways,
        xy,
        relation_list(data).len() as int,
    );
    lemma_plus_counts_all(ways, rels);
    assert forall|i: int, j: int|
        0 <= i < map.polys.len() && 0 <= j < map.polys[i].outer.len() implies in_box(
        #[trigger] map.polys[i].outer[j],
        map.min,
        map.max,
    ) by {
        assert(area_among(parts.polys[i], parts.touched));
        lemma_among_in_box(map.polys[i].outer, parts.touched, j);
    }
    assert forall|i: int, h: int, j: int|
        0 <= i < map.polys.len() && 0 <= h < map.polys[i].holes.len() && 0 <= j
            < map.polys[i].holes[h].len() implies in_box(
        #[trigger] map.polys[i].holes[h][j],
        map.min,
        map.max,
    ) by {
        assert(area_among(parts.polys[i], parts.touched));
        assert(among(parts.polys[i].holes[h], parts.touched));
        lemma_among_in_box(map.polys[i].holes[h], parts.touched, j);
    }
    assert forall|i: int, j: int|
        0 <= i < map.lines.len() && 0 <= j < map.lines[i].pts.len() implies in_box(
        #[trigger] map.lines[i].pts[j],
        map.min,
        map.max,
    ) by {
        assert(among(parts.lines[i].pts, parts.touched));
        lemma_among_in_box(map.lines[i].pts, parts.touched, j);
    }
}

} // verus!
