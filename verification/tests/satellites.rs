use miaosuan::satellites::{
    label_shown, make_set, orbit_of, parse_tle_group, push_satellite, satellite_set, sats_shown,
    tle_blocks, tle_epoch_unix, tle_file_name, tle_groups, tle_is_fresh, tle_url, year_start_unix,
    SatInput, SatLayer, SatSpec, SatStep,
};

const L1: &str = "1 25544U 98067A   26257.14321681  .00004666  00000+0  92466-4 0  9990";
const L2: &str = "2 25544  51.6309 219.8284 0004930 139.3822 220.7535 15.49107075585544";
const GROUP: &str = "ISS (ZARYA)             \n1 25544U 98067A   26257.14321681  .00004666  00000+0  92466-4 0  9990\n2 25544  51.6309 219.8284 0004930 139.3822 220.7535 15.49107075585544\nPOISK\n1 36086U 09060A   26257.14321681  .00004666  00000+0  92466-4 0  9998\n2 36086  51.6309 219.8284 0004930 139.3822 220.7535 15.49107075586100\n";

fn epoch_unix(sat: &SatSpec) -> f64 {
    sat.epoch.year_start as f64 + (sat.epoch.doy.parse::<f64>().unwrap() - 1.0) * 86_400.0
}

/// The distance from the centre of the earth, in radii of a sphere of 6371 km.
fn ratio_at(sat: &SatSpec, unix: f64) -> f64 {
    let minutes = (unix - epoch_unix(sat)) / 60.0;
    let p = sat.constants.propagate(sgp4::MinutesSinceEpoch(minutes)).unwrap().position;
    (p[0] * p[0] + p[1] * p[1] + p[2] * p[2]).sqrt() / 6371.0
}

#[test]
fn tle_epoch_parse() {
    let e = tle_epoch_unix(L1).unwrap();
    let unix = e.year_start as f64 + (e.doy.parse::<f64>().unwrap() - 1.0) * 86_400.0;
    let ys = year_start_unix(2026);
    assert!((unix - ys as f64 - 256.14321681 * 86_400.0).abs() < 1.0);
    assert_eq!(ys, 1_767_225_600);
}

#[test]
fn epochs_that_cannot_be_read() {
    assert!(tle_epoch_unix("").is_none());
    assert!(tle_epoch_unix("1 25544U 98067A   xx257.14321681  .0").is_none());
    assert!(tle_epoch_unix("1 25544U 98067A   26257.1432x681  .0").is_none());
    assert!(tle_epoch_unix("1 25544U 98067A   26             ").is_none());
    // A character across the border of a column.
    assert!(tle_epoch_unix("1 25544U 98067A  é6257.14321681  .0000").is_none());
    assert_eq!(tle_epoch_unix("1 25544U 98067A   70  1.50000000  .0").unwrap().year_start, 0);
    assert_eq!(tle_epoch_unix("1 25544U 98067A   71  1.50000000  .0").unwrap().doy, "1.50000000");
    assert_eq!(year_start_unix(1957), 0);
    assert_eq!(year_start_unix(1971), 365 * 86_400);
    assert_eq!(year_start_unix(2001), 978_307_200);
}

#[test]
fn propagate_at_scenario_epoch() {
    let block = tle_blocks(&format!("ISS\n{L1}\n{L2}\n")).remove(0);
    let mut sats = Vec::new();
    push_satellite(&mut sats, &block, orbit_of(&block));
    let ratio = ratio_at(&sats[0], 1_789_185_600.0);
    assert!(ratio > 1.03 && ratio < 1.10, "{ratio}");
    let r2 = ratio_at(&sats[0], 1_789_185_600.0 + 5400.0);
    assert!(r2 > 1.03 && r2 < 1.10, "{r2}");
}

#[test]
fn tle_group_parse_and_propagate() {
    let mut sats = Vec::new();
    parse_tle_group(GROUP, &mut sats);
    assert_eq!(sats.len(), 2);
    assert_eq!(sats[0].norad_id, 25544);
    assert_eq!(sats[1].norad_id, 36086);
    let alt_world = ratio_at(&sats[0], epoch_unix(&sats[0]));
    assert!(alt_world > 1.03 && alt_world < 1.1, "{alt_world}");
    assert!(alt_world > 1.0);
}

#[test]
fn blocks_are_found_between_other_lines() {
    let text = format!("junk\nISS \r\n{L1}\r\n{L2}\r\nA\n{L1}");
    let blocks = tle_blocks(&text);
    assert_eq!(blocks.len(), 1);
    assert_eq!((blocks[0].name.as_str(), blocks[0].norad_id), ("ISS", 25544));
    assert_eq!((blocks[0].line1.as_str(), blocks[0].line2.as_str()), (L1, L2));
    assert!(tle_blocks("").is_empty());
    // A checksum character below the digits.
    let bad = format!("X\n{} \u{20}-\n{L2}\n", &L1[..67]);
    assert!(tle_blocks(&bad.replace(" \u{20}-", "0-")).is_empty());
}

#[test]
fn unreadable_sets_are_passed_over() {
    // A wrong checksum digit.
    let wrong = format!("X\n{}1\n{L2}\nISS\n{L1}\n{L2}\n", &L1[..68]);
    assert_eq!(tle_blocks(&wrong).len(), 2);
    let mut sats = Vec::new();
    parse_tle_group(&wrong, &mut sats);
    assert_eq!(sats.len(), 1);
    assert_eq!(sats[0].name, "ISS");
}

#[test]
fn the_station_is_found() {
    let mut sats = Vec::new();
    parse_tle_group(GROUP, &mut sats);
    sats.swap(0, 1);
    assert_eq!(make_set(sats).unwrap().iss_index, Some(1));
    assert!(make_set(Vec::new()).is_none());
    let set = satellite_set(&[None, Some(GROUP.to_string())]).unwrap();
    assert_eq!((set.sats.len(), set.iss_index), (2, Some(0)));
    assert!(satellite_set(&[None, Some("nothing".to_string())]).is_none());
    assert_eq!(
        tle_url("stations"),
        "https://celestrak.org/NORAD/elements/gp.php?GROUP=stations&FORMAT=tle"
    );
    assert_eq!(tle_groups(), vec!["stations", "visual"]);
    assert_eq!(tle_file_name("visual"), "tle_visual.txt");
    assert!(tle_is_fresh(86_400, 0) && !tle_is_fresh(86_400, 1) && tle_is_fresh(86_399, 999_999_999));
}

#[test]
fn loading_is_tried_again() {
    let mut l = SatLayer::default();
    let i = SatInput { on_globe: true, toggled: false, loaded: None, now: 0 };
    assert_eq!(l.frame(SatInput { on_globe: false, ..i }), SatStep::Hide);
    assert_eq!(l.frame(i), SatStep::Load);
    assert!(l.visible);
    assert_eq!(l.frame(i), SatStep::Wait);
    assert_eq!(l.frame(SatInput { loaded: Some(false), now: 7, ..i }), SatStep::Wait);
    assert_eq!(l.frame(SatInput { now: 30_000_000_006, ..i }), SatStep::Wait);
    assert_eq!(l.frame(SatInput { now: 30_000_000_007, ..i }), SatStep::Load);
    assert_eq!(l.frame(SatInput { loaded: Some(true), ..i }), SatStep::Show);
    assert_eq!(l.frame(SatInput { toggled: true, ..i }), SatStep::Show);
    assert!(!l.visible);
}

#[test]
fn satellites_fade_out_close_by() {
    assert!(!sats_shown(true, 7_326_650) && sats_shown(true, 7_326_651));
    assert!(!sats_shown(false, 20_000_000));
    assert!(label_shown(true, 10_193_599) && !label_shown(true, 10_193_600));
    assert!(!label_shown(true, 7_000_000));
}
