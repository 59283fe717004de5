use miaosuan::geo::Point;
use miaosuan::sim::{
    advance_waypoint, blue_observers, detect_at, detect_with, plan_step, scenario, steer_turn,
    turn_allowance, unit_from_spec, DetectResult, Domain, PlatformKind, Sensors, Side, SimClock, StepPlan, Unit, MAX_CLOCK,
};
use miaosuan::units::{
    is_shown, label_of, leg_shown, mil_symbol_of, ring_radius, route_legs, tone_of, MilSymbol,
    SensorRingKind, Tone,
};

fn pt(x: i32, y: i32) -> Point {
    Point { x, y }
}

fn unit(route: Vec<Point>, route_loop: bool) -> Unit {
    Unit {
        side: Side::Blue,
        kind: PlatformKind::Destroyer,
        name: "T".into(),
        hull: "T".into(),
        sensors: Sensors::default(),
        weapons: vec![],
        patrol: route.clone(),
        route,
        wp_index: 0,
        route_loop,
        moving: true,
        detected_by_blue: true,
        classified: true,
        last_seen_t: Some(0),
    }
}

#[test]
fn waypoint_advance_modes() {
    let mut u = unit(vec![pt(10_000, 0), pt(20_000, 0)], false);
    u.wp_index = 1;
    advance_waypoint(&mut u);
    assert!(!u.moving);
    let mut u2 = unit(vec![pt(10_000, 0), pt(20_000, 0)], true);
    u2.wp_index = 1;
    advance_waypoint(&mut u2);
    assert_eq!(u2.wp_index, 0);
    assert!(u2.moving);
}

#[test]
fn order_move_and_resume_patrol() {
    let mut u = unit(vec![pt(10_000, 0)], true);
    u.order_move(pt(-50_000, -50_000));
    assert_eq!(u.route, vec![pt(-50_000, -50_000)]);
    assert!(!u.route_loop);
    u.resume_patrol();
    assert_eq!(u.route, vec![pt(10_000, 0)]);
    assert!(u.route_loop);
}

#[test]
fn routes_go_on_and_end() {
    let mut u = unit(vec![pt(1, 0), pt(2, 0)], false);
    advance_waypoint(&mut u);
    assert_eq!((u.wp_index, u.moving), (1, true));
    let mut none = unit(vec![], true);
    advance_waypoint(&mut none);
    assert_eq!(none.wp_index, 0);
    none.moving = false;
    none.resume_patrol();
    assert!(!none.moving);
}

#[test]
fn steps_are_planned() {
    let mut u = unit(vec![pt(100_000, 0), pt(0, 500_000)], false);
    assert_eq!(plan_step(&u, pt(0, 0), true), StepPlan::Steer { target: pt(100_000, 0) });
    assert_eq!(plan_step(&u, pt(0, 0), false), StepPlan::Stay { stop: false });
    assert_eq!(plan_step(&u, pt(65_000, 0), true), StepPlan::Arrived);
    assert_eq!(plan_step(&u, pt(64_999, 0), true), StepPlan::Steer { target: pt(100_000, 0) });
    u.wp_index = 9;
    assert_eq!(plan_step(&u, pt(0, 0), true), StepPlan::Steer { target: pt(0, 500_000) });
    u.moving = false;
    assert_eq!(plan_step(&u, pt(0, 0), true), StepPlan::Stay { stop: true });
}

#[test]
fn detection_domains_and_ranges() {
    let ship_radar = Sensors { radar_m: Some(40_000), sonar_m: Some(12_000), visual_m: 10_000 };
    assert_eq!(detect_with(&ship_radar, Domain::Surface, 35_000), DetectResult::Detected { classified: false });
    assert_eq!(detect_with(&ship_radar, Domain::Surface, 15_000), DetectResult::Detected { classified: true });
    assert_eq!(detect_with(&ship_radar, Domain::Subsurface, 35_000), DetectResult::Nothing);
    assert_eq!(detect_with(&ship_radar, Domain::Subsurface, 11_000), DetectResult::Detected { classified: false });
    assert_eq!(detect_with(&ship_radar, Domain::Air, 90_000), DetectResult::Nothing);
    let sub = Sensors { radar_m: None, sonar_m: Some(18_000), visual_m: 0 };
    assert_eq!(detect_with(&sub, Domain::Air, 5_000), DetectResult::Nothing);
}

#[test]
fn detection_reaches_its_limits() {
    let s = Sensors { radar_m: Some(10), sonar_m: None, visual_m: 20 };
    let seen = |d2: i128| detect_at(&s, Domain::Air, d2);
    assert_eq!(seen(2000 * 2000), DetectResult::Detected { classified: false });
    assert_eq!(seen(2000 * 2000 + 1), DetectResult::Nothing);
    assert_eq!(seen(1000 * 1000), DetectResult::Detected { classified: true });
    assert_eq!(seen(1000 * 1000 + 1), DetectResult::Detected { classified: false });
    let blind = Sensors { radar_m: None, sonar_m: None, visual_m: 0 };
    assert_eq!(detect_with(&blind, Domain::Surface, 0), DetectResult::Nothing);
}

#[test]
fn the_blue_side_looks_out() {
    let s = Sensors { radar_m: Some(1000), sonar_m: None, visual_m: 0 };
    let units = [(Side::Red, s, pt(0, 0)), (Side::Blue, s, pt(0, 0)), (Side::Neutral, s, pt(0, 0))];
    let observers = blue_observers(&units);
    assert_eq!(observers, vec![(s, pt(0, 0))]);
    let mut red = unit(vec![], false);
    red.side = Side::Red;
    red.classified = false;
    red.detected_by_blue = false;
    red.last_seen_t = None;
    red.observe(&observers, pt(90_000, 0), 7);
    assert_eq!((red.detected_by_blue, red.classified, red.last_seen_t), (true, false, Some(7)));
    red.observe(&observers, pt(50_000, 0), 8);
    assert_eq!((red.detected_by_blue, red.classified, red.last_seen_t), (true, true, Some(8)));
    // What was classified stays so, out of sight too.
    red.observe(&observers, pt(500_000, 0), 9);
    assert_eq!((red.detected_by_blue, red.classified, red.last_seen_t), (false, true, Some(8)));
    let mut blue = unit(vec![], false);
    blue.observe(&observers, pt(500_000, 0), 9);
    assert!(blue.detected_by_blue);
}

#[test]
fn clock_format_and_speed() {
    let mut c = SimClock::default();
    assert_eq!(c.format(), "D+0 04:00:00Z");
    c.t = 3600 * 20 * 1_000_000;
    assert_eq!(c.format(), "D+1 00:00:00Z");
    c.speed_idx = 2;
    assert_eq!(c.multiplier(), 30);
    assert_eq!(c.sim_dt(2_000_000), 60_000_000);
    c.paused = true;
    assert_eq!(c.sim_dt(2_000_000), 0);
}

#[test]
fn the_clock_advances() {
    let mut c = SimClock::default();
    c.advance(1_500_000);
    assert_eq!(c.t, 1_500_000);
    c.faster();
    c.advance(1);
    assert_eq!(c.t, 1_500_005);
    for _ in 0..9 {
        c.faster();
    }
    assert_eq!((c.speed_idx, c.multiplier()), (4, 600));
    for _ in 0..9 {
        c.slower();
    }
    assert_eq!(c.speed_idx, 0);
    c.toggle_pause();
    c.advance(5);
    assert_eq!(c.t, 1_500_005);
    c.toggle_pause();
    c.t = MAX_CLOCK - 1;
    c.advance(5);
    assert_eq!(c.t, MAX_CLOCK);
    assert_eq!(SimClock { t: 999_999, ..SimClock::default() }.format(), "D+0 04:00:00Z");
}

#[test]
fn the_scenario_is_set_up() {
    let all = scenario();
    assert_eq!(all.len(), 10);
    let count = |s: Side| all.iter().filter(|u| u.side == s).count();
    assert_eq!((count(Side::Blue), count(Side::Red), count(Side::Neutral)), (5, 4, 1));
    let halsey = &all[0];
    assert_eq!((halsey.name, halsey.hull, halsey.heading_deg), ("USS HALSEY", "DDG 97", 200));
    assert_eq!((halsey.start.lat, halsey.start.lon), (21_345, -157_975));
    assert_eq!(halsey.sensors.radar_m, Some(40_000));
    assert_eq!(halsey.weapons[1].name, "VLA ASROC");
    assert_eq!(all[7].patrol.len(), 4);
    let u = unit_from_spec(halsey, vec![pt(1, 2)]);
    assert!(u.moving && u.route_loop && u.classified && u.detected_by_blue);
    assert_eq!((u.route, u.last_seen_t), (vec![pt(1, 2)], Some(0)));
    let radar = unit_from_spec(&all[3], vec![pt(1, 2)]);
    assert!(!radar.moving);
    let kraken = unit_from_spec(&all[5], vec![]);
    assert!(!kraken.moving && !kraken.detected_by_blue && !kraken.classified);
    assert_eq!((kraken.last_seen_t, kraken.weapons.len()), (None, 2));
}

#[test]
fn facts_of_platforms() {
    let f = PlatformKind::Fighter;
    assert_eq!((f.short(), f.class_name()), ("FTR", "Multirole Fighter"));
    assert_eq!((f.cruise_kts(), f.turn_rate_dps(), f.arrive_radius_m()), (350, 60, 900));
    assert_eq!((f.domain(), f.mobile()), (Domain::Air, true));
    let m = PlatformKind::Merchant;
    assert_eq!((m.short(), m.cruise_kts(), m.turn_rate_dps(), m.arrive_radius_m()), ("MV", 13, 0, 350));
    assert!(!PlatformKind::Facility.mobile());
    assert_eq!(PlatformKind::Submarine.domain(), Domain::Subsurface);
}

#[test]
fn symbols_follow_what_is_known() {
    let mut u = unit(vec![], false);
    assert_eq!(mil_symbol_of(&u), MilSymbol::FriendSea);
    u.kind = PlatformKind::Facility;
    assert_eq!(mil_symbol_of(&u), MilSymbol::FriendBase);
    u.name = "KOA POINT RADAR".into();
    assert_eq!(mil_symbol_of(&u), MilSymbol::FriendRadar);
    u.name = "X".into();
    u.hull = "RADAR".into();
    assert_eq!(mil_symbol_of(&u), MilSymbol::FriendRadar);
    u.side = Side::Red;
    u.kind = PlatformKind::Fighter;
    assert_eq!((mil_symbol_of(&u), label_of(&u)), (MilSymbol::HostileAir, "FTR X".to_string()));
    u.classified = false;
    assert_eq!((mil_symbol_of(&u), label_of(&u)), (MilSymbol::Unknown, "UNKNOWN".to_string()));
    assert_eq!(tone_of(Side::Red, false), Tone::Unknown);
    assert_eq!(tone_of(Side::Red, true), Tone::Red);
    assert_eq!(tone_of(Side::Neutral, false), Tone::Neutral);
    assert!(!is_shown(Side::Red, false) && is_shown(Side::Blue, false));
}

#[test]
fn legs_of_routes() {
    let (a, b, c, p) = (pt(0, 0), pt(200, 0), pt(0, 300), pt(9, 9));
    let mut u = unit(vec![a, b, c], true);
    u.wp_index = 1;
    assert_eq!(route_legs(&u, p), vec![(p, b), (b, c), (c, a)]);
    u.route_loop = false;
    assert_eq!(route_legs(&u, p), vec![(p, b), (b, c)]);
    u.moving = false;
    assert!(route_legs(&u, p).is_empty());
    assert!(leg_shown(pt(0, 0), pt(100, 0)) && !leg_shown(pt(0, 0), pt(99, 0)));
    u.sensors.radar_m = Some(5);
    assert_eq!(ring_radius(&u, SensorRingKind::Radar), Some(5));
    assert_eq!(ring_radius(&u, SensorRingKind::Sonar), None);
    u.side = Side::Red;
    assert_eq!(ring_radius(&u, SensorRingKind::Radar), None);
}

/// An angle in millionths of a degree.
fn angle(radians: f64) -> i64 {
    (radians.to_degrees() * 1e6).round() as i64
}

#[test]
fn steer_turn_limits() {
    let pi = std::f64::consts::PI;
    let h = steer_turn(0, angle(pi), angle(0.1) as u64);
    assert!(((h as f64 / 1e6).to_radians() - 0.1).abs() < 1e-5, "h = {h}");
    let h2 = steer_turn(0, angle(0.05), angle(0.1) as u64);
    assert!(((h2 as f64 / 1e6).to_radians() - 0.05).abs() < 1e-5);
    let h3 = steer_turn(angle(3.10), angle(-3.10), angle(1.0) as u64);
    assert!(h3 > angle(3.10), "h3 = {h3}");
}

#[test]
fn headings_turn_the_shorter_way() {
    assert_eq!(steer_turn(0, 180_000_000, u64::MAX), 180_000_000);
    assert_eq!(steer_turn(0, 180_000_001, u64::MAX), -179_999_999);
    assert_eq!(steer_turn(0, -90_000_000, 5), -5);
    assert_eq!(steer_turn(720_000_000, 5, 10), 720_000_005);
    assert_eq!(steer_turn(10, 10, 0), 10);
    assert_eq!(turn_allowance(PlatformKind::Fighter, 1_000_000), 6_000_000);
    assert_eq!(turn_allowance(PlatformKind::Destroyer, 500_000), 750_000);
    assert_eq!(turn_allowance(PlatformKind::Merchant, 500_000), 0);
}
