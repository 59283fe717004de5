use miaosuan::extract::{LineKind, PolyKind, RoadClass};
use miaosuan::geo::Point;
use miaosuan::mvt::{
    decode_mvt, decode_rings, green_kind, landuse_kind, mvt_to_mapdata, road_of, try_decode_mvt,
    try_decode_rings, try_mvt_to_mapdata, waterway_width, zigzag, MvtFeature, MvtLayer, MvtTile,
    TagValue,
};

fn tag(field: u32, wire: u8) -> Vec<u8> {
    vec![((field << 3) | wire as u32) as u8]
}

fn varint(mut v: u64) -> Vec<u8> {
    let mut out = Vec::new();
    loop {
        let b = (v & 0x7f) as u8;
        v >>= 7;
        if v == 0 {
            out.push(b);
            break;
        }
        out.push(b | 0x80);
    }
    out
}

fn bytes_field(field: u32, data: &[u8]) -> Vec<u8> {
    let mut out = tag(field, 2);
    out.extend(varint(data.len() as u64));
    out.extend_from_slice(data);
    out
}

fn varint_field(field: u32, v: u64) -> Vec<u8> {
    let mut out = tag(field, 0);
    out.extend(varint(v));
    out
}

fn square() -> Vec<u32> {
    vec![(1 << 3) | 1, 0, 0, (3 << 3) | 2, 18, 0, 0, 18, 17, 0, (1 << 3) | 7]
}

fn text(s: &str) -> TagValue {
    TagValue::Text(s.to_string())
}

/// A tile with one layer that holds one value message, and the value as it is decoded.
fn value_of(message: &[u8]) -> TagValue {
    let mut feature = Vec::new();
    feature.extend(bytes_field(2, &[0, 0]));
    let mut layer = Vec::new();
    layer.extend(bytes_field(2, &feature));
    layer.extend(bytes_field(3, b"k"));
    layer.extend(bytes_field(4, message));
    let mut decoded = decode_mvt(&bytes_field(3, &layer));
    decoded.layers.remove(0).features.remove(0).tags.remove(0).1
}

#[test]
fn decode_minimal_tile() {
    let geometry: Vec<u32> = square();
    let mut feature = Vec::new();
    let mut geom_packed = Vec::new();
    for v in &geometry {
        geom_packed.extend(varint(*v as u64));
    }
    feature.extend(bytes_field(2, &[0, 0]));
    feature.extend(varint_field(3, 3));
    feature.extend(bytes_field(4, &geom_packed));

    let mut layer = Vec::new();
    layer.extend(bytes_field(1, b"building"));
    layer.extend(bytes_field(2, &feature));
    layer.extend(bytes_field(3, b"building"));
    layer.extend(bytes_field(4, &[0x0a, 0x03, b'y', b'e', b's']));
    layer.extend(varint_field(5, 4096));

    let mut tile = Vec::new();
    tile.extend(bytes_field(3, &layer));

    let decoded = decode_mvt(&tile);
    assert_eq!(decoded.layers.len(), 1);
    assert_eq!(decoded.layers[0].name, "building");
    assert_eq!(decoded.layers[0].extent, 4096);
    let f = &decoded.layers[0].features[0];
    assert_eq!(f.geom_type, 3);
    let tags: Vec<(String, String)> =
        f.tags.iter().map(|(k, v)| (k.clone(), v.as_str().to_string())).collect();
    assert_eq!(tags, vec![("building".to_string(), "yes".to_string())]);

    let rings = decode_rings(&f.geometry);
    assert_eq!(rings.len(), 1);
    assert_eq!(rings[0][0], (0, 0));
    assert_eq!(rings[0][1], (9, 0));
    assert_eq!(rings[0][2], (9, 9));
    assert_eq!(rings[0][3], (0, 9));
    assert_eq!(rings[0][4], (0, 0));
}

#[test]
fn zigzag_roundtrip() {
    for v in [-100i32, -1, 0, 1, 99, 4096] {
        let z = ((v << 1) ^ (v >> 31)) as u32;
        assert_eq!(zigzag(z), v);
    }
}

#[test]
fn zigzag_reaches_both_ends() {
    assert_eq!(zigzag(u32::MAX), i32::MIN);
    assert_eq!(zigzag(u32::MAX - 1), i32::MAX);
}

#[test]
fn layer_mapping() {
    let mk = |name: &str, class: Option<&str>| MvtLayer {
        name: name.into(),
        extent: 4096,
        features: vec![MvtFeature {
            geom_type: 3,
            geometry: square(),
            tags: class.map(|c| vec![("class".to_string(), text(c))]).unwrap_or_default(),
        }],
    };
    let tile = MvtTile {
        layers: vec![
            mk("water", None),
            mk("landuse", Some("residential")),
            mk("landuse", Some("forest")),
            mk("park", None),
        ],
    };
    let map = mvt_to_mapdata(&tile);
    assert_eq!(map.polys.iter().filter(|p| p.kind == PolyKind::Water).count(), 1);
    assert_eq!(map.polys.iter().filter(|p| p.kind == PolyKind::Landuse).count(), 1);
    assert_eq!(map.polys.iter().filter(|p| p.kind == PolyKind::Green).count(), 2);
}

#[test]
fn road_class_mapping() {
    assert!(matches!(road_of("motorway"), Some((RoadClass::Major, _))));
    assert!(matches!(road_of("secondary"), Some((RoadClass::Mid, _))));
    assert!(matches!(road_of("residential"), Some((RoadClass::Minor, _))));
    assert!(road_of("rail").is_none());
    assert_eq!(waterway_width("river"), Some(40));
}

#[test]
fn widths_of_roads_and_waterways() {
    assert_eq!(road_of("trunk_link"), Some((RoadClass::Major, 20)));
    assert_eq!(road_of("tertiary"), Some((RoadClass::Mid, 14)));
    assert_eq!(road_of("minor"), Some((RoadClass::Minor, 10)));
    assert_eq!(waterway_width("canal"), Some(24));
    assert_eq!(waterway_width("stream"), Some(10));
    assert_eq!(waterway_width("dock"), Some(40));
    assert_eq!(waterway_width("ditch"), None);
    assert!(green_kind("farmland") && !green_kind("retail"));
    assert!(landuse_kind("retail") && !landuse_kind("farmland"));
}

#[test]
fn lines_of_a_tile() {
    let path = vec![(1 << 3) | 1, 2, 2, (1 << 3) | 2, 4, 0];
    let mk = |layer: &str, tags: Vec<(String, TagValue)>| MvtLayer {
        name: layer.into(),
        extent: 4096,
        features: vec![MvtFeature { geom_type: 2, geometry: path.clone(), tags }],
    };
    let tile = MvtTile {
        layers: vec![
            mk("waterway", vec![]),
            mk("waterway", vec![("class".to_string(), text("river"))]),
            mk("transportation", vec![("aeroway".to_string(), text("runway"))]),
            mk("transportation", vec![("class".to_string(), text("taxiway"))]),
            mk("transportation", vec![("class".to_string(), text("primary"))]),
            mk("transportation", vec![("class".to_string(), text("rail"))]),
            mk("water", vec![]),
        ],
    };
    let map = mvt_to_mapdata(&tile);
    let found: Vec<(LineKind, u32)> = map.lines.iter().map(|l| (l.kind, l.width)).collect();
    assert_eq!(
        found,
        vec![
            (LineKind::Waterway, 20),
            (LineKind::Waterway, 40),
            (LineKind::Runway, 55),
            (LineKind::Taxiway, 22),
            (LineKind::Road(RoadClass::Major), 20),
        ]
    );
    assert_eq!(map.lines[0].pts, vec![Point { x: 1, y: 1 }, Point { x: 3, y: 1 }]);
    assert!(map.polys.is_empty());
    assert_eq!((map.min, map.max), (Point { x: 0, y: 0 }, Point { x: 0, y: 0 }));
}

#[test]
fn smaller_rings_are_holes() {
    // An outline of 100 by 100, a ring of 10 by 10 inside, and a ring larger than the outline.
    let ring = |x: i32, y: i32, side: i32| -> Vec<u32> {
        let z = |v: i32| ((v << 1) ^ (v >> 31)) as u32;
        vec![
            (1 << 3) | 1,
            z(x),
            z(y),
            (3 << 3) | 2,
            z(side),
            z(0),
            z(0),
            z(side),
            z(-side),
            z(0),
            (1 << 3) | 7,
        ]
    };
    let mut geometry = ring(0, 0, 100);
    geometry.extend(ring(20, -60, 10));
    geometry.extend(ring(-50, -60, 200));
    let tile = MvtTile {
        layers: vec![MvtLayer {
            name: "building".into(),
            extent: 4096,
            features: vec![MvtFeature { geom_type: 3, geometry, tags: vec![] }],
        }],
    };
    let map = mvt_to_mapdata(&tile);
    assert_eq!(map.polys.len(), 1);
    assert_eq!(map.polys[0].outer.len(), 5);
    assert_eq!(map.polys[0].holes.len(), 1);
    assert_eq!(map.polys[0].holes[0][0], Point { x: 20, y: 40 });
}

#[test]
fn values_become_decimal_text() {
    assert_eq!(value_of(&varint_field(4, 300)).as_str(), "300");
    assert_eq!(value_of(&varint_field(5, u64::MAX)).as_str(), "18446744073709551615");
    assert_eq!(value_of(&varint_field(4, u64::MAX)).as_str(), "-1");
    assert_eq!(value_of(&varint_field(4, 1 << 63)).as_str(), "-9223372036854775808");
    assert_eq!(value_of(&varint_field(4, (1 << 63) - 1)).as_str(), "9223372036854775807");
    assert_eq!(value_of(&varint_field(6, 3)).as_str(), "-2");
    assert_eq!(value_of(&varint_field(6, 1 << 32)).as_str(), "2147483648");
    assert_eq!(value_of(&varint_field(6, u64::MAX)).as_str(), "-9223372036854775808");
    assert_eq!(value_of(&varint_field(6, u64::MAX - 1)).as_str(), "9223372036854775807");
    assert_eq!(value_of(&varint_field(7, 1)).as_str(), "true");
    assert_eq!(value_of(&varint_field(7, 0)).as_str(), "false");
    assert_eq!(value_of(&varint_field(9, 1)).as_str(), "");
    assert_eq!(value_of(&bytes_field(1, b"ab\xff")).as_str(), "ab\u{fffd}");
    assert_eq!(value_of(&bytes_field(1, "é".as_bytes())).as_str(), "é");
}

#[test]
fn floating_point_values_keep_their_bits() {
    let mut single = tag(2, 5);
    single.extend_from_slice(&1.5f32.to_le_bytes());
    assert!(matches!(value_of(&single), TagValue::Float(b) if f32::from_bits(b) == 1.5));
    let mut double = tag(3, 1);
    double.extend_from_slice(&(-2.25f64).to_le_bytes());
    assert!(matches!(value_of(&double), TagValue::Double(b) if f64::from_bits(b) == -2.25));
    assert_eq!(value_of(&single).as_str(), "");
}

#[test]
fn tags_without_keys_are_dropped() {
    let mut feature = Vec::new();
    feature.extend(bytes_field(2, &[0, 0, 7, 0, 0, 9, 1]));
    let mut layer = Vec::new();
    layer.extend(bytes_field(1, b"l"));
    layer.extend(bytes_field(2, &feature));
    layer.extend(bytes_field(3, b"k"));
    layer.extend(bytes_field(4, &[0x0a, 0x01, b'v']));
    let decoded = decode_mvt(&bytes_field(3, &layer));
    let f = &decoded.layers[0].features[0];
    let tags: Vec<(&str, &str)> = f.tags.iter().map(|(k, v)| (k.as_str(), v.as_str())).collect();
    assert_eq!(tags, vec![("k", "v"), ("k", "")]);
    assert_eq!(f.geom_type, 0);
    assert_eq!(decoded.layers[0].extent, 4096);
}

#[test]
fn overlong_varints_are_refused() {
    assert!(try_decode_mvt(&[0xff; 11]).is_none());
    assert!(try_decode_mvt(&[]).unwrap().layers.is_empty());
    // A length that reaches beyond the end is cut off there.
    assert_eq!(try_decode_mvt(&[0x1a, 0x05, 0x0a]).unwrap().layers.len(), 1);
    // A length that does not fit the address space is refused.
    let mut huge = vec![0x1a];
    huge.extend(varint(u64::MAX));
    assert!(try_decode_mvt(&huge).is_none());
}

#[test]
fn broken_geometry_is_refused() {
    assert!(try_decode_rings(&[(1 << 3) | 1, 2]).is_none());
    // Leaving the range of the coordinates.
    assert!(try_decode_rings(&[(2 << 3) | 1, 4294967294, 0, 2, 0]).is_none());
    // A command that is cut off before its first pair, and one that is not known.
    assert_eq!(try_decode_rings(&[(5 << 3) | 1]), Some(vec![]));
    assert_eq!(try_decode_rings(&[3]), Some(vec![]));
    // A second lifted movement starts a new ring.
    assert_eq!(
        try_decode_rings(&[(2 << 3) | 1, 2, 2, 2, 2]),
        Some(vec![vec![(1, 1)], vec![(2, 2)]])
    );
    let tile = MvtTile {
        layers: vec![MvtLayer {
            name: "water".into(),
            extent: 4096,
            features: vec![MvtFeature { geom_type: 3, geometry: vec![9, 2], tags: vec![] }],
        }],
    };
    assert!(try_mvt_to_mapdata(&tile).is_none());
}

/// A layer message with a name.
fn named_layer(name: &str) -> Vec<u8> {
    bytes_field(1, name.as_bytes())
}

fn names(tile: &MvtTile) -> Vec<&str> {
    tile.layers.iter().map(|l| l.name.as_str()).collect()
}

#[test]
fn joined_tiles_hold_the_layers_of_both() {
    let mut a = bytes_field(3, &named_layer("a"));
    a.extend(varint_field(9, 5));
    a.extend([(7 << 3) | 5, 1, 2, 3, 4]);
    a.extend(bytes_field(3, &named_layer("b")));
    let b = bytes_field(3, &named_layer("c"));
    let joined = decode_mvt(&[a.clone(), b.clone()].concat());
    assert_eq!(names(&joined), vec!["a", "b", "c"]);
    assert_eq!(names(&decode_mvt(&a)), vec!["a", "b"]);
    assert_eq!(names(&decode_mvt(&b)), vec!["c"]);
    assert!(decode_mvt(&varint_field(3, 1)).layers.is_empty());
}

#[test]
fn the_first_step_moves_all_rings() {
    let mut g = square();
    g.extend([(1 << 3) | 1, 6, 6, (2 << 3) | 2, 2, 0, 0, 2]);
    let mut h = g.clone();
    h[1] = 9;
    h[2] = 14;
    let (a, b) = (decode_rings(&g), decode_rings(&h));
    assert_eq!(a.len(), 2);
    let moved: Vec<Vec<(i32, i32)>> =
        a.iter().map(|r| r.iter().map(|p| (p.0 - 5, p.1 + 7)).collect()).collect();
    assert_eq!(b, moved);
}

#[test]
fn fields_of_a_layer_may_come_in_any_order() {
    let feature = bytes_field(2, &[0, 1, 1, 0]);
    let parts = [
        bytes_field(2, &feature),
        bytes_field(3, b"k0"),
        bytes_field(4, &bytes_field(1, b"v0")),
        bytes_field(3, b"k1"),
        bytes_field(4, &bytes_field(1, b"v1")),
        varint_field(5, 512),
        bytes_field(1, b"roads"),
    ];
    let order = [6, 5, 2, 4, 1, 3, 0];
    let a = parts.concat();
    let b: Vec<u8> = order.iter().flat_map(|i| parts[*i].clone()).collect();
    for buf in [a, b] {
        let tile = decode_mvt(&bytes_field(3, &buf));
        let layer = &tile.layers[0];
        assert_eq!((layer.name.as_str(), layer.extent), ("roads", 512));
        let tags: Vec<(&str, &str)> =
            layer.features[0].tags.iter().map(|(k, v)| (k.as_str(), v.as_str())).collect();
        assert_eq!(tags, vec![("k0", "v1"), ("k1", "v0")]);
    }
}

#[test]
fn two_fields_of_geometry_are_joined() {
    let pack = |words: &[u32]| -> Vec<u8> { words.iter().flat_map(|w| varint(*w as u64)).collect() };
    let (g, h) = ([9u32, 300, u32::MAX], [7u32]);
    let feature = [bytes_field(4, &pack(&g)), bytes_field(4, &pack(&h))].concat();
    let tile = decode_mvt(&bytes_field(3, &bytes_field(2, &feature)));
    let f = &tile.layers[0].features[0];
    assert_eq!(f.geometry, vec![9, 300, u32::MAX, 7]);
    assert!(f.geom_type == 0 && f.tags.is_empty());
}

#[test]
fn varints_of_all_lengths_are_read_back() {
    for bits in 0..64 {
        let v = u64::MAX >> bits;
        let message = [varint_field(5, v), varint_field(5, 1)].concat();
        assert_eq!(value_of(&message).as_str(), v.to_string());
    }
}
