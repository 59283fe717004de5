use miaosuan::extract::{
    extract_map, kind_of_relation, poly_from_rings, shape_of_way, LineKind, PolyKind, RoadClass,
    WayShape,
};
use miaosuan::extract::{assemble_rings, closed_ring, normalize_hole, normalize_ring, open_points};
use miaosuan::geo::{distance_squared, point_in_ring, ring_area, Point};
use miaosuan::idmap::{IdMap, Tags};
use miaosuan::osm::{osm_from_events, parse_osm, Node, OsmData, Way, XmlTag};

const SAMPLE: &str = r#"<?xml version="1.0" encoding="UTF-8"?>
<osm version="0.6">
  <node id="1" lat="0.00" lon="0.00"/>
  <node id="2" lat="0.01" lon="0.00"/>
  <node id="3" lat="0.01" lon="0.01"/>
  <node id="4" lat="0.00" lon="0.01"/>
  <node id="5" lat="0.02" lon="0.02"/>
  <node id="6" lat="0.02" lon="0.03"/>
  <node id="7" lat="0.03" lon="0.03"/>
  <node id="8" lat="0.03" lon="0.02"/>
  <way id="101">
    <tag k="building" v="yes"/>
    <nd ref="1"/><nd ref="2"/><nd ref="3"/><nd ref="4"/><nd ref="1"/>
  </way>
  <way id="102">
    <tag k="highway" v="primary"/>
    <nd ref="1"/><nd ref="5"/>
  </way>
  <relation id="201">
    <tag k="type" v="multipolygon"/>
    <tag k="natural" v="water"/>
    <member type="way" ref="103" role="outer"/>
    <member type="way" ref="104" role="outer"/>
  </relation>
  <way id="103">
    <nd ref="5"/><nd ref="6"/>
  </way>
  <way id="104">
    <nd ref="6"/><nd ref="7"/><nd ref="8"/><nd ref="5"/>
  </way>
</osm>"#;

fn pt(x: i32, y: i32) -> Point {
    Point { x, y }
}

/// The positions of the nodes in centimetres, around the middle of the data.
fn positions(data: &OsmData) -> IdMap<Point> {
    let r = 6_378_137.0f64;
    let merc = |lat: f64| r * (std::f64::consts::FRAC_PI_4 + lat.to_radians() * 0.5).tan().ln();
    let all: Vec<(i64, f64, f64)> = data
        .nodes
        .entries
        .iter()
        .map(|(id, n)| (*id, n.lat.parse().unwrap(), n.lon.parse().unwrap()))
        .collect();
    let lat0 = (all.iter().map(|n| n.1).fold(f64::MAX, f64::min)
        + all.iter().map(|n| n.1).fold(f64::MIN, f64::max))
        / 2.0;
    let lon0 = (all.iter().map(|n| n.2).fold(f64::MAX, f64::min)
        + all.iter().map(|n| n.2).fold(f64::MIN, f64::max))
        / 2.0;
    let mut xy = IdMap::new();
    for (id, lat, lon) in all {
        let x = (lon - lon0).to_radians() * r;
        let y = merc(lat) - merc(lat0);
        xy.insert(id, pt((x * 100.0).round() as i32, (y * 100.0).round() as i32));
    }
    xy
}

fn tags(pairs: &[(&str, &str)]) -> Tags {
    let mut t = Tags::new();
    for (k, v) in pairs {
        t.insert(k.to_string(), v.to_string());
    }
    t
}

#[test]
fn parse_and_extract() {
    let data = parse_osm(SAMPLE).expect("parse");
    assert_eq!(data.nodes.len(), 8);
    assert_eq!(data.ways.len(), 4);
    assert_eq!(data.relations.len(), 1);
    assert_eq!(data.ways.get(102).unwrap().tags.get("highway"), Some("primary"));
    assert_eq!(data.relations.get(201).unwrap().members.len(), 2);

    let map = extract_map(&data, &positions(&data));
    assert_eq!(map.polys.iter().filter(|p| p.kind == PolyKind::Building).count(), 1);
    assert_eq!(map.polys.iter().filter(|p| p.kind == PolyKind::Water).count(), 1);
    assert_eq!(map.lines.len(), 1);
    assert_eq!(map.lines[0].kind, LineKind::Road(RoadClass::Major));
    let water = map.polys.iter().find(|p| p.kind == PolyKind::Water).unwrap();
    assert_eq!(water.outer.len(), 4, "{:?}", water.outer);
}

#[test]
fn assemble_two_open_ways_into_ring() {
    let data = parse_osm(SAMPLE).unwrap();
    let rings = assemble_rings(&[103, 104], &data, &positions(&data));
    assert_eq!(rings.len(), 1);
    assert_eq!(rings[0].len(), 4);
}

#[test]
fn assembly_takes_only_positions_of_nodes() {
    let data = parse_osm(SAMPLE).unwrap();
    let xy = positions(&data);
    let rings = assemble_rings(&[103, 104, 999], &data, &xy);
    assert!(rings[0].iter().all(|p| xy.entries.iter().any(|(_, q)| q == p)));
    assert!(assemble_rings(&[103], &data, &xy).is_empty());
    assert!(assemble_rings(&[], &data, &xy).is_empty());
}

#[test]
fn ring_area_and_point_inclusion() {
    // A square of ten metres, in centimetres: the doubled area of 100 square metres.
    let square = vec![pt(0, 0), pt(1000, 0), pt(1000, 1000), pt(0, 1000)];
    assert_eq!(ring_area(&square), 2 * 100 * 10_000);
    assert!(point_in_ring(pt(500, 500), &square));
    assert!(!point_in_ring(pt(1500, 500), &square));
    assert!(!point_in_ring(pt(-50, -50), &square));
}

#[test]
fn rings_are_turned() {
    let mut ring = vec![pt(0, 0), pt(0, 10), pt(10, 10), pt(10, 0)];
    assert_eq!(ring_area(&ring), -200);
    normalize_ring(&mut ring);
    assert_eq!(ring, vec![pt(10, 0), pt(10, 10), pt(0, 10), pt(0, 0)]);
    normalize_hole(&mut ring);
    assert_eq!(ring, vec![pt(0, 0), pt(0, 10), pt(10, 10), pt(10, 0)]);
    assert_eq!(ring_area(&[pt(i32::MIN, i32::MIN), pt(i32::MAX, 0)]), 0);
    assert_eq!(distance_squared(pt(i32::MIN, 0), pt(i32::MAX, 0)), 4294967295i128 * 4294967295);
}

#[test]
fn holes_belong_to_the_smallest_outline() {
    let square = |x: i32, y: i32, s: i32| vec![pt(x, y), pt(x + s, y), pt(x + s, y + s), pt(x, y + s)];
    let outers = vec![square(0, 0, 1000), square(100, 100, 300)];
    let inners = vec![square(150, 150, 50), square(600, 600, 50), square(5000, 5000, 50)];
    let polys = poly_from_rings(PolyKind::Green, &outers, &inners);
    assert_eq!(polys.len(), 2);
    assert_eq!(polys[0].holes.len(), 1);
    assert_eq!(polys[0].holes[0][0], pt(600, 650));
    assert_eq!(polys[1].holes.len(), 1);
    assert!(ring_area(&polys[1].holes[0]) < 0);
    assert!(ring_area(&polys[1].outer) > 0);
}

#[test]
fn ways_are_drawn_by_their_first_rule() {
    let of = |p: &[(&str, &str)]| shape_of_way(&tags(p));
    assert_eq!(of(&[("building", "yes"), ("highway", "road")]), WayShape::Area(PolyKind::Building));
    assert_eq!(of(&[("natural", "water")]), WayShape::Area(PolyKind::Water));
    assert_eq!(of(&[("waterway", "dock")]), WayShape::Bank(40));
    assert_eq!(of(&[("waterway", "canal")]), WayShape::Path(LineKind::Waterway, 24));
    assert_eq!(of(&[("waterway", "weir"), ("highway", "road")]), WayShape::Hidden);
    assert_eq!(of(&[("leisure", "pitch")]), WayShape::Area(PolyKind::Green));
    assert_eq!(of(&[("landuse", "quarry")]), WayShape::Area(PolyKind::Landuse));
    assert_eq!(of(&[("aeroway", "apron")]), WayShape::Area(PolyKind::Apron));
    assert_eq!(of(&[("aeroway", "runway")]), WayShape::Path(LineKind::Runway, 55));
    assert_eq!(of(&[("railway", "tram")]), WayShape::Path(LineKind::Rail, 5));
    assert_eq!(of(&[("highway", "service")]), WayShape::Path(LineKind::Road(RoadClass::Minor), 10));
    assert_eq!(of(&[("highway", "footway")]), WayShape::Hidden);
    assert_eq!(of(&[]), WayShape::Hidden);
    let rel = |p: &[(&str, &str)]| kind_of_relation(&tags(p));
    assert_eq!(rel(&[("natural", "water")]), None);
    assert_eq!(rel(&[("type", "multipolygon"), ("landuse", "grass")]), Some(PolyKind::Green));
    assert_eq!(rel(&[("type", "multipolygon"), ("landuse", "military")]), Some(PolyKind::Landuse));
    assert_eq!(rel(&[("type", "multipolygon")]), None);
}

#[test]
fn lines_and_rings_of_ways() {
    let mut xy = IdMap::new();
    xy.insert(1, pt(0, 0));
    xy.insert(2, pt(0, 0));
    xy.insert(3, pt(5, 0));
    xy.insert(4, pt(5, 5));
    let way = |ids: &[i64]| Way { tags: Tags::new(), node_ids: ids.to_vec() };
    assert_eq!(open_points(&way(&[1, 2, 3]), &xy), Some(vec![pt(0, 0), pt(5, 0)]));
    assert_eq!(open_points(&way(&[1, 2]), &xy), None);
    assert_eq!(open_points(&way(&[1, 9]), &xy), None);
    assert_eq!(closed_ring(&way(&[1, 3, 4, 1]), &xy), Some(vec![pt(0, 0), pt(5, 0), pt(5, 5)]));
    assert_eq!(closed_ring(&way(&[1, 3, 4]), &xy), None);
    assert_eq!(closed_ring(&way(&[1, 2, 3, 1]), &xy), None);
}

#[test]
fn broken_documents_are_refused() {
    let e = parse_osm("<osm><way id=\"1\"></osm>").unwrap_err();
    assert!(e.starts_with("XML 解析错误: "), "{e}");
    assert_ne!(e, "XML 解析错误: ");
    assert!(parse_osm("").unwrap().nodes.entries.is_empty());
}

#[test]
fn attributes_are_unescaped_and_checked() {
    let data = parse_osm(
        "<osm><node id='7' lat='x' lon='1e2'><tag k='a' v='b'/></node><node id='8' lat='x' lon='1'/>\
         <node id='+9' lat='.5' lon='-0'/><way id='3'><tag k='n' v='a &amp; b'/><tag k='' v='c'/>\
         <nd ref='z'/><nd ref='9'/></way><relation id='4'><member type='node' ref='1'/>\
         <member type='way' ref='3'/></relation></osm>",
    )
    .unwrap();
    let seven = data.nodes.get(7).unwrap();
    assert_eq!((seven.lat.as_str(), seven.lon.as_str()), ("0", "1e2"));
    assert!(data.nodes.get(8).is_none());
    assert_eq!(data.nodes.get(9).unwrap().lat, ".5");
    let way = data.ways.get(3).unwrap();
    assert_eq!(way.tags.get("n"), Some("a & b"));
    assert_eq!(way.tags.len(), 1);
    assert_eq!(way.node_ids, vec![9]);
    assert_eq!(data.relations.get(4).unwrap().members, vec![(3, String::new())]);
}

#[test]
fn events_build_elements() {
    let attr = |k: &str, v: &str| Some((k.as_bytes().to_vec(), Some(v.to_string())));
    let tag = |name: &str, attrs: Vec<Option<(Vec<u8>, Option<String>)>>| XmlTag {
        name: name.as_bytes().to_vec(),
        attrs,
    };
    let events = vec![
        Node::Start(tag("way", vec![None, attr("id", "5")])),
        Node::Empty(tag("nd", vec![attr("ref", "-1")])),
        Node::Empty(tag("tag", vec![attr("k", "a"), attr("v", "1")])),
        Node::Empty(tag("tag", vec![attr("k", "a"), attr("v", "2")])),
        Node::Other,
        Node::End,
        Node::Empty(tag("nd", vec![attr("ref", "2")])),
        Node::Empty(tag("node", vec![attr("id", "1"), attr("lat", "1.5"), attr("lon", "nan")])),
    ];
    let data = osm_from_events(&events);
    let way = data.ways.get(5).unwrap();
    assert_eq!(way.node_ids, vec![-1]);
    assert_eq!(way.tags.get("a"), Some("2"));
    assert_eq!(data.nodes.get(1).unwrap().lon, "nan");
}

#[test]
fn scraps_are_left_out_and_the_box_is_tight() {
    let mut data = parse_osm(SAMPLE).unwrap();
    let mut xy = IdMap::new();
    for (id, x, y) in
        [(1, 0, 0), (2, 0, 100), (3, 100, 100), (4, 100, 0), (5, 0, 0), (6, 100, 0), (7, 100, 100), (8, 0, 100)]
    {
        xy.insert(id, pt(x, y));
    }
    let map = extract_map(&data, &xy);
    // A square metre of water is a scrap.
    assert_eq!(map.polys.len(), 1);
    assert_eq!((map.min, map.max), (pt(0, 0), pt(100, 100)));
    data.ways = IdMap::new();
    let empty = extract_map(&data, &xy);
    assert!(empty.polys.is_empty() && empty.lines.is_empty());
    assert_eq!((empty.min, empty.max), (pt(0, 0), pt(0, 0)));
}
