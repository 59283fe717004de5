use miaosuan::camera::{focus_on, pan_direction, wheel_factor, CameraRig, WorldPos, MAX_MPP, MIN_MPP};
use miaosuan::extract::{Line, LineKind, MapData, Poly, PolyKind, RoadClass};
use miaosuan::geo::Point;
use miaosuan::globe::{
    apparent_mpp, distance_for_mpp, should_land, should_take_off, takeoff_distance, GlobeRig,
    GLOBE_RADIUS, LAND_MPP, MAX_DISTANCE, MAX_LAT, MIN_DISTANCE, TAKEOFF_MPP,
};
use miaosuan::input::ScreenPos;
use miaosuan::map_render::{
    graticule_stale, graticule_step_for_view, graticule_values, plan_layers, LayerKind,
};
use miaosuan::mesh::{
    append_indices, flatten, grid_indices, neighbours, push_face, push_strip, push_triangles,
};

fn pt(x: i32, y: i32) -> Point {
    Point { x, y }
}

/// The vertices and indexes of an area, triangulated in metres.
fn poly_mesh(poly: &Poly) -> (Vec<Point>, Vec<u32>) {
    let (points, holes) = flatten(poly);
    let data: Vec<[f64; 2]> =
        points.iter().map(|p| [p.x as f64 / 100.0, p.y as f64 / 100.0]).collect();
    let mut triangles: Vec<usize> = Vec::new();
    earcut::Earcut::new().earcut(data.iter().copied(), &holes, &mut triangles);
    let mut idx = Vec::new();
    assert!(push_triangles(&mut idx, &triangles, 0, points.len() as u32));
    (points, idx)
}

#[test]
fn poly_mesh_square() {
    let square = Poly {
        kind: PolyKind::Building,
        outer: vec![pt(0, 0), pt(10_000, 0), pt(10_000, 10_000), pt(0, 10_000)],
        holes: vec![],
    };
    let (verts, idx) = poly_mesh(&square);
    assert_eq!(verts.len(), 4);
    assert_eq!(idx.len(), 6);
}

#[test]
fn poly_mesh_with_hole() {
    let outer = vec![pt(0, 0), pt(100_000, 0), pt(100_000, 100_000), pt(0, 100_000)];
    let hole = vec![pt(40_000, 40_000), pt(60_000, 40_000), pt(60_000, 60_000), pt(40_000, 60_000)];
    let poly = Poly { kind: PolyKind::Water, outer, holes: vec![hole] };
    let (verts, idx) = poly_mesh(&poly);
    assert_eq!(verts.len(), 8);
    assert!(idx.len() % 3 == 0 && idx.len() > 6, "{}", idx.len());
    assert_eq!(flatten(&poly).1, vec![4]);
}

#[test]
fn degenerate_areas_are_left_out() {
    let mut idx = vec![7];
    assert!(!push_triangles(&mut idx, &[0, 1], 5, 9));
    assert_eq!(idx, vec![7]);
    assert!(push_triangles(&mut idx, &[0, 1, 2], 5, 9));
    assert_eq!(idx, vec![7, 5, 6, 7]);
}

#[test]
fn strips_of_three_points() {
    let mut idx = Vec::new();
    push_strip(&mut idx, 0, 3, false);
    assert_eq!(idx, vec![0, 1, 3, 0, 3, 2, 2, 3, 5, 2, 5, 4]);
    push_strip(&mut idx, 6, 1, true);
    assert_eq!(idx.len(), 12);
}

#[test]
fn closed_strips_are_joined() {
    let mut idx = Vec::new();
    push_strip(&mut idx, 10, 4, true);
    assert_eq!(idx.len(), 24);
    assert_eq!(&idx[18..], &[16, 17, 11, 16, 11, 10]);
    assert!(idx.iter().all(|i| (10..18).contains(i)));
    let mut two = Vec::new();
    push_strip(&mut two, 0, 2, true);
    assert_eq!(two.len(), 6);
}

#[test]
fn neighbours_of_a_point() {
    assert_eq!(neighbours(0, 4, true), (3, 1));
    assert_eq!(neighbours(3, 4, true), (2, 0));
    assert_eq!(neighbours(0, 4, false), (0, 1));
    assert_eq!(neighbours(3, 4, false), (2, 3));
    assert_eq!(neighbours(2, 4, false), (1, 3));
    assert_eq!(neighbours(0, 1, true), (0, 0));
}

#[test]
fn grids_of_a_sphere() {
    let idx = grid_indices(24, 12);
    assert_eq!(idx.len(), 24 * 12 * 6);
    assert!(idx.iter().all(|i| *i < 25 * 13));
    assert_eq!(grid_indices(1, 1), vec![0, 2, 1, 1, 2, 3]);
    assert!(grid_indices(0, 5).is_empty());
}

#[test]
fn faces_have_one_side_or_two() {
    let mut idx = Vec::new();
    push_face(&mut idx, 4, false);
    assert_eq!(idx, vec![4, 5, 6, 4, 6, 7]);
    push_face(&mut idx, 0, true);
    assert_eq!(&idx[6..], &[0, 1, 2, 0, 2, 3, 0, 2, 1, 0, 3, 2]);
}

#[test]
fn meshes_are_joined() {
    let mut idx = vec![0, 1, 2];
    append_indices(&mut idx, &[0, 2, 1], 3);
    assert_eq!(idx, vec![0, 1, 2, 3, 5, 4]);
}

#[test]
fn layers_are_drawn_in_order() {
    let poly = |kind| Poly { kind, outer: vec![], holes: vec![] };
    let line = |kind| Line { kind, pts: vec![], width: 1 };
    let map = MapData {
        polys: vec![poly(PolyKind::Building), poly(PolyKind::Water), poly(PolyKind::Building)],
        lines: vec![line(LineKind::Road(RoadClass::Major)), line(LineKind::Waterway)],
        min: pt(0, 0),
        max: pt(0, 0),
    };
    let plans = plan_layers(&map);
    let kinds: Vec<LayerKind> = plans.iter().map(|p| p.kind).collect();
    assert_eq!(
        kinds,
        vec![
            LayerKind::Area(PolyKind::Water),
            LayerKind::Area(PolyKind::Building),
            LayerKind::Path(LineKind::Waterway),
            LayerKind::Path(LineKind::Road(RoadClass::Major)),
        ]
    );
    assert_eq!(plans[1].members, vec![0, 2]);
    assert_eq!((plans[0].color.r, plans[0].color.g, plans[0].color.b), (15, 47, 68));
}

#[test]
fn graticule_step_adapts_to_view() {
    // In hundredths of a degree.
    assert_eq!(graticule_step_for_view(40_000_000, 900), 500);
    assert_eq!(graticule_step_for_view(223_403, 900), 25);
    assert_eq!(graticule_step_for_view(30_000, 900), 5);
    assert_eq!(graticule_step_for_view(8_000, 900), 1);
}

#[test]
fn graticule_produces_lines() {
    // In millionths of a degree, at an interval of 0.05 degrees.
    let lats = graticule_values(21_300_000, 21_400_000, 50_000);
    let lons = graticule_values(-157_980_000, -157_870_000, 50_000);
    assert_eq!(lats, vec![21_300_000, 21_350_000, 21_400_000]);
    assert_eq!(lons, vec![-157_950_000, -157_900_000]);
    assert!(graticule_values(1, 49_999, 50_000).is_empty());
    assert_eq!(graticule_values(-1, 1, 50_000), vec![0]);
}

#[test]
fn the_graticule_follows_the_view() {
    let c = pt(0, 0);
    assert!(graticule_stale(1, 2, c, c, 100, 100));
    assert!(!graticule_stale(2, 2, c, pt(50, 0), 100, 80));
    assert!(graticule_stale(2, 2, c, pt(51, 0), 100, 80));
}

fn at(x: i64, y: i64) -> ScreenPos {
    ScreenPos { x, y }
}

#[test]
fn zooming_keeps_the_place_under_the_pointer() {
    let viewport = at(1_600_000, 900_000);
    let mut rig = CameraRig::default();
    focus_on(&mut rig, WorldPos { x: 123_456_789, y: -987 });
    for (cursor, factor) in [
        (at(0, 0), 1_150_000),
        (at(1_234_567, 89_012), 850_000),
        (at(800_000, 450_000), 1_000_015),
    ] {
        let before = rig.world_from_screen(cursor, viewport);
        rig.zoom_at(cursor, viewport, factor);
        assert_eq!(rig.world_from_screen(cursor, viewport), before);
    }
    for _ in 0..200 {
        rig.zoom_at(at(5, 5), viewport, 1_150_000);
    }
    assert_eq!(rig.mpp, MIN_MPP);
    for _ in 0..200 {
        rig.zoom_at(at(5, 5), viewport, 850_000);
    }
    assert_eq!(rig.mpp, MAX_MPP);
    assert!(rig.is_ok());
}

#[test]
fn a_height_of_ground_is_shown() {
    let mut rig = CameraRig::default();
    rig.show_height(10_008_000, 900_000);
    assert_eq!(rig.mpp, 11_120_000);
    rig.show_height(u64::MAX, 1);
    assert_eq!(rig.mpp, MAX_MPP);
    rig.show_height(0, 900_000);
    assert_eq!(rig.mpp, MIN_MPP);
    rig.mpp = 1;
    assert!(rig.is_ok());
    rig.mpp = MAX_MPP + 1;
    assert!(!rig.is_ok());
}

#[test]
fn panning_moves_with_the_pointer() {
    let viewport = at(1_600_000, 900_000);
    let mut rig = CameraRig::default();
    let before = rig.world_from_screen(at(100, 200), viewport);
    rig.pan_by_screen_delta(at(30, -50));
    assert_eq!(rig.world_from_screen(at(130, 150), viewport), before);
    assert_eq!((rig.target.x, rig.target.y), (-600_000_000, -1_000_000_000));
    assert_eq!((wheel_factor(1), wheel_factor(-1), wheel_factor(0)), (1_000_015, 999_985, 1_000_000));
    assert_eq!((wheel_factor(99_999), wheel_factor(-99_999)), (1_150_000, 850_000));
    assert_eq!((wheel_factor(5_000), wheel_factor(-5_000)), (1_075_000, 925_000));
    assert_eq!(pan_direction(true, false, true, true), (0, 1));
}

#[test]
fn mpp_distance_roundtrip() {
    let vp = 900_000;
    for mpp in [200_000_000i64, 300_000_000, 1_120_000_000, 1_200_000_000] {
        let d = distance_for_mpp(mpp, vp);
        let back = apparent_mpp(d, vp);
        assert!((back - mpp).abs() < 500_000, "{mpp} -> {d} -> {back}");
    }
    assert!((distance_for_mpp(1_000_000, vp) - GLOBE_RADIUS) - GLOBE_RADIUS / 50 < 1_000);
    assert!(apparent_mpp(18_475_900_000, vp) > MAX_MPP * 5);
}

#[test]
fn the_globe_turns_and_comes_closer() {
    let mut g = GlobeRig::default();
    assert!(g.is_ok());
    // At 2.9 radii a pixel turns by 1.045 degrees.
    g.rotate(1000, 1000);
    assert_eq!((g.lon, g.lat), (-157_925_000 - 1_045_000, 21_355_000 + 1_045_000));
    g.rotate(0, 1_000_000);
    assert_eq!(g.lat, MAX_LAT);
    for _ in 0..100 {
        g.approach(1_150_000);
    }
    assert_eq!(g.distance, MIN_DISTANCE);
    g.rotate(1000, -1000);
    assert_eq!(g.lat, MAX_LAT - 11_000);
    for _ in 0..100 {
        g.approach(850_000);
    }
    assert_eq!(g.distance, MAX_DISTANCE);
    g.set_height(12_000_000_000);
    assert_eq!(g.distance, GLOBE_RADIUS + 12_000_000_000);
    g.set_height(0);
    assert_eq!(g.distance, MIN_DISTANCE);
}

#[test]
fn passages_between_globe_and_map() {
    assert!(should_land(true, MAX_DISTANCE, 900_000));
    assert!(!should_land(false, MAX_DISTANCE, 900_000));
    assert!(should_land(false, MIN_DISTANCE, 900_000));
    assert!(!should_land(false, takeoff_distance(900_000), 900_000));
    assert!(should_take_off(true, TAKEOFF_MPP) && !should_take_off(true, LAND_MPP));
    assert!(!should_take_off(false, MAX_MPP));
}
