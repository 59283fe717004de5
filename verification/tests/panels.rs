use miaosuan::geo::Point;
use miaosuan::input::{
    apply_keys, isqrt, order_unit, over_ui, pick_unit, range_bearing_text, recall_unit, DragOutput,
    DragState, Keys, MidDrag, ScreenPos, Target, Zone,
};
use miaosuan::sim::{scenario, unit_from_spec, PlatformKind, Side, SimClock, Unit};
use miaosuan::ui::{
    button_active, button_at, click_buttons, clock_line, contact_list, contact_row, contact_rows, hit_zones,
    idle_lines, idle_tone, panel_lines, panel_tone, refresh_due, BtnAction, Contact, LineTone, BUTTONS, ROWS,
};
use miaosuan::units::Tone;

fn pt(x: i32, y: i32) -> Point {
    Point { x, y }
}

fn at(x: i64, y: i64) -> ScreenPos {
    ScreenPos { x, y }
}

fn halsey() -> Unit {
    unit_from_spec(&scenario()[0], vec![pt(0, 0), pt(100, 0), pt(0, 100)])
}

#[test]
fn ranges_and_bearings() {
    assert_eq!(range_bearing_text(pt(0, 0), pt(1_830_000, 0), 90), "18.3km 090");
    assert_eq!(range_bearing_text(pt(0, 0), pt(0, 99_949), 7), "999m 007");
    assert_eq!(range_bearing_text(pt(0, 0), pt(0, 99_951), 360), "1000m 360");
    assert_eq!(range_bearing_text(pt(0, 0), pt(0, 100_000), 0), "1.0km 000");
    // A tie goes to the even number.
    assert_eq!(range_bearing_text(pt(0, 0), pt(0, 250), 0), "2m 000");
    assert_eq!(range_bearing_text(pt(0, 0), pt(0, 350), 0), "4m 000");
    assert_eq!(range_bearing_text(pt(0, 0), pt(30, 40), 12), "0m 012");
    assert_eq!(range_bearing_text(pt(i32::MIN, i32::MIN), pt(i32::MAX, i32::MAX), 45), "60740.0km 045");
    assert_eq!((isqrt(0), isqrt(15), isqrt(16)), (0, 3, 4));
}

#[test]
fn the_nearest_unit_is_picked() {
    let t = |side, detected, x| Target { side, detected, pos: pt(x, 0) };
    let units = [
        t(Side::Blue, true, 100),
        t(Side::Red, false, 10),
        t(Side::Neutral, false, -50),
        t(Side::Red, true, 50),
    ];
    assert_eq!(pick_unit(pt(0, 0), 1_000_000, &units), Some(2));
    assert_eq!(pick_unit(pt(0, 0), 27_777, &units), None);
    assert_eq!(pick_unit(pt(0, 0), 27_778, &units), Some(2));
    assert_eq!(pick_unit(pt(90, 0), 1_000_000, &units), Some(0));
    assert_eq!(pick_unit(pt(0, 0), 1_000_000, &[]), None);
}

#[test]
fn a_press_without_movement_clicks() {
    let none = DragOutput { pan: None, click: false };
    let mut d = DragState::default();
    assert_eq!(d.frame(false, None, false), none);
    assert_eq!(d.frame(true, None, false), none);
    assert_eq!(d.frame(true, Some(at(0, 0)), false), none);
    assert_eq!(d.frame(true, Some(at(3000, 4000)), false), none);
    assert_eq!(d.moved, 5000);
    assert_eq!(d.frame(false, Some(at(0, 0)), false), DragOutput { pan: None, click: true });
    assert_eq!(d.frame(false, None, false), none);
    // Over the panels nothing is clicked.
    d.frame(true, Some(at(0, 0)), true);
    assert_eq!(d.frame(false, Some(at(0, 0)), true), none);
}

#[test]
fn a_drag_pans_and_does_not_click() {
    let mut d = DragState::default();
    d.frame(true, Some(at(0, 0)), false);
    let out = d.frame(true, Some(at(6001, 0)), false);
    assert_eq!(out.pan, Some(at(6001, 0)));
    assert_eq!(d.frame(true, Some(at(7001, 0)), true).pan, None);
    assert_eq!(d.frame(false, None, false), DragOutput { pan: None, click: false });
    let mut m = MidDrag::default();
    assert_eq!(m.frame(true, Some(at(5, 5))), None);
    assert_eq!(m.frame(true, Some(at(6, 3))), Some(at(1, -2)));
    assert_eq!(m.frame(true, None), None);
    assert_eq!(m.frame(false, Some(at(9, 9))), None);
    assert_eq!(m.frame(true, Some(at(9, 9))), None);
}

#[test]
fn orders_reach_mobile_blue_units_only() {
    let mut u = halsey();
    assert!(order_unit(&mut u, pt(7, 8)));
    assert_eq!((u.route.clone(), u.route_loop), (vec![pt(7, 8)], false));
    recall_unit(&mut u);
    assert_eq!((u.route.len(), u.route_loop), (3, true));
    u.kind = PlatformKind::Facility;
    assert!(!order_unit(&mut u, pt(1, 1)));
    u.kind = PlatformKind::Fighter;
    u.side = Side::Red;
    u.route = vec![];
    assert!(!order_unit(&mut u, pt(1, 1)));
    recall_unit(&mut u);
    assert!(u.route.is_empty());
}

#[test]
fn keys_do_what_they_say() {
    let none = Keys {
        pause: false,
        faster: false,
        slower: false,
        escape: false,
        globe: false,
        focus: false,
        recall: false,
    };
    let mut c = SimClock::default();
    let a = apply_keys(&mut c, Keys { pause: true, faster: true, globe: true, focus: true, ..none }, true, true, true);
    assert!(c.paused && c.speed_idx == 1);
    assert!(a.to_globe && a.focus && !a.recall && !a.deselect);
    let a = apply_keys(&mut c, Keys { slower: true, escape: true, recall: true, globe: true, ..none }, false, true, true);
    assert!(a.deselect && !a.recall && !a.to_globe);
    assert_eq!(c.speed_idx, 0);
    apply_keys(&mut c, Keys { slower: true, pause: true, ..none }, false, true, false);
    assert!(c.speed_idx == 0 && !c.paused);
}

#[test]
fn buttons_set_the_clock() {
    let mut c = SimClock::default();
    click_buttons(&mut c, at(330_000, 7_000));
    assert!(c.paused);
    let (label, action, zone) = button_at(3);
    assert_eq!((label, action), ("30x", BtnAction::Speed(2)));
    assert_eq!((zone.x0, zone.x1, zone.y0, zone.y1), (546_000, 612_000, 7_000, 37_000));
    click_buttons(&mut c, at(612_000, 37_000));
    assert!(!c.paused && c.speed_idx == 2);
    assert!(button_active(&c, action) && !button_active(&c, BtnAction::Pause));
    // The gap between two buttons.
    click_buttons(&mut c, at(614_000, 20_000));
    assert_eq!(c.speed_idx, 2);
    assert_eq!(button_at(BUTTONS - 1).0, "600x");
}

#[test]
fn the_clock_line() {
    let mut c = SimClock::default();
    assert_eq!(clock_line(&c, false, Some((true, 9))), "D+0 04:00:00Z  x1  MAP");
    c.speed_idx = 4;
    assert_eq!(clock_line(&c, true, Some((false, 160))), "D+0 04:00:00Z  x600  GLOBE  SAT OFF 160");
    c.paused = true;
    assert_eq!(clock_line(&c, true, None), "D+0 04:00:00Z  PAUSED  GLOBE");
}

#[test]
fn contacts_are_sorted_and_hidden() {
    let c = |side, detected, classified, x| Contact {
        side,
        kind: PlatformKind::Submarine,
        detected,
        classified,
        pos: pt(x, 0),
    };
    let units = [
        c(Side::Red, true, false, 300),
        c(Side::Blue, true, true, 1),
        c(Side::Red, false, true, 2),
        c(Side::Neutral, false, false, -300),
        c(Side::Red, true, true, 100),
    ];
    assert_eq!(contact_list(&units, pt(0, 0)), vec![4, 0, 3]);
    assert_eq!(contact_list(&units, pt(-300, 0)), vec![3, 4, 0]);
    assert_eq!(contact_row(&units[0], "1m 001"), ("UNKNOWN  1m 001".to_string(), Tone::Unknown));
    assert_eq!(contact_row(&units[4], "x"), ("SSK      x".to_string(), Tone::Red));
    assert_eq!(contact_row(&units[3], "").1, Tone::Neutral);
}

#[test]
fn the_list_has_as_many_rows_as_it_shows() {
    let c = |x| Contact {
        side: Side::Neutral,
        kind: PlatformKind::Merchant,
        detected: false,
        classified: false,
        pos: pt(x, 0),
    };
    let rows = contact_rows(&[c(20), c(10)], &["far".to_string(), "near".to_string()], pt(0, 0));
    assert_eq!(rows.len(), ROWS);
    assert_eq!(rows[0], ("MV       near".to_string(), Some(Tone::Neutral)));
    assert_eq!(rows[1], ("MV       far".to_string(), Some(Tone::Neutral)));
    assert!(rows[2..].iter().all(|r| *r == (String::new(), None)));
    let many: Vec<Contact> = (0..20).map(c).collect();
    let names: Vec<String> = (0..20).map(|i| i.to_string()).collect();
    let rows = contact_rows(&many, &names, pt(0, 0));
    assert_eq!(rows.len(), ROWS);
    assert_eq!(rows[13].0, "MV       13");
}

#[test]
fn the_panel_of_a_unit() {
    let mut u = halsey();
    let lines = panel_lines(&u, "POS", "5m 010");
    assert_eq!(
        lines,
        vec![
            "DDG 97 USS HALSEY",
            "Guided-missile Destroyer | BLUE",
            "POS",
            "RDR 40km  SONAR 12km  VIS 10km",
            "WPN: SM-2 SAM 90km / VLA ASROC 22km / 5in Gun 24km",
            "NAV: PATROL  wp 1/3  5m 010",
            "L-click select | R-click order move | F focus | R resume patrol",
        ]
    );
    u.side = Side::Red;
    u.classified = false;
    u.weapons.clear();
    u.sensors.radar_m = Some(2_500);
    u.sensors.sonar_m = None;
    u.sensors.visual_m = 3_500;
    u.route_loop = false;
    u.route.clear();
    u.last_seen_t = Some(60_000_000);
    let lines = panel_lines(&u, "", "");
    assert_eq!(lines[0], "UNKNOWN CONTACT");
    assert_eq!(lines[1], "Classification pending");
    assert_eq!(lines[3], "RDR 2km    VIS 4km");
    assert_eq!(lines[4], "WPN: none");
    assert_eq!(lines[5], "NAV: TRANSIT  wp 1/1  ");
    assert_eq!(lines[6], "Last seen: D+0 04:01:00Z");
    u.moving = false;
    u.last_seen_t = None;
    u.sensors.visual_m = 0;
    let lines = panel_lines(&u, "", "");
    assert_eq!((lines[5].as_str(), lines[6].as_str()), ("NAV: HOLDING  wp 1/1  ", ""));
    u.kind = PlatformKind::Facility;
    assert_eq!(panel_lines(&u, "", "")[5], "NAV: STATION  wp 1/1  ");
    assert_eq!(panel_tone(&u, 0), LineTone::Unit(Tone::Red));
    assert_eq!((panel_tone(&u, 2), panel_tone(&u, 5)), (LineTone::Bright, LineTone::Dim));
}

#[test]
fn the_panel_without_a_unit() {
    assert_eq!(idle_lines(true, 0, 0, 0)[0], "GLOBAL SITUATION");
    assert_eq!(idle_lines(true, 0, 0, 0).len(), 7);
    let map = idle_lines(false, 2, 1, 5);
    assert_eq!((map[0].as_str(), map[2].as_str()), ("No unit selected", "FETCHING OSM TILES (2 in flight)..."));
    assert_eq!(idle_lines(false, 0, 1, 5)[2], "OSM TILES: 5 loaded, 1 failed");
    assert_eq!(idle_lines(false, 0, 0, 5)[2], "");
    assert_eq!((idle_tone(true, 0), idle_tone(false, 0)), (LineTone::Highlight, LineTone::Dim));
}

#[test]
fn panels_keep_the_pointer_from_the_map() {
    let zones = hit_zones(1_600_000, 900_000);
    assert!(over_ui(Some(at(5, 44_000)), &zones));
    assert!(!over_ui(Some(at(800_000, 400_000)), &zones));
    assert!(over_ui(Some(at(1_400_000, 100_000)), &zones));
    assert!(over_ui(Some(at(100_000, 700_000)), &zones));
    assert!(over_ui(Some(at(800_000, 850_000)), &zones));
    assert!(!over_ui(None, &zones));
    assert!(Zone { x0: 0, y0: 0, x1: 1, y1: 1 }.contains(at(1, 1)));
}

#[test]
fn texts_are_refreshed_four_times_a_second() {
    let mut since = 0;
    assert!(!refresh_due(&mut since, 249_999));
    assert!(refresh_due(&mut since, 1));
    assert_eq!(since, 0);
    let mut late = u64::MAX;
    assert!(refresh_due(&mut late, 5));
}
