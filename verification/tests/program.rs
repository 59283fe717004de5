use miaosuan::launch::{
    bgra_to_rgb, initial_state, mode_of, parse_args, scene_of, shot_due, should_exit, size_ready, AppState,
    Launch, ShotTimer, RenderMode, StreamState,
};

fn args(list: &[&str]) -> Launch {
    let owned: Vec<String> = list.iter().map(|s| s.to_string()).collect();
    parse_args(&owned)
}

#[test]
fn options_with_values() {
    let l = args(&["--map", "a.osm", "--screenshot", "s.png", "--frames", "90", "--zoom", "2.5", "--globe-alt", "1e6"]);
    assert_eq!(l.map_path.as_deref(), Some("a.osm"));
    assert_eq!(l.screenshot.as_deref(), Some("s.png"));
    assert_eq!(l.frames, Some(90));
    assert_eq!(l.zoom.as_deref(), Some("2.5"));
    assert_eq!(l.globe_alt.as_deref(), Some("1e6"));
    assert_eq!(mode_of(&l), RenderMode::Window);
}

#[test]
fn values_that_are_no_numbers() {
    let l = args(&["--frames", "4294967296", "--zoom", "wide", "--globe-alt", "1e", "junk", "--map"]);
    assert_eq!((l.frames, l.zoom, l.globe_alt, l.map_path), (None, None, None, None));
    let l = args(&["--frames", "7", "--frames", "x"]);
    assert_eq!(l.frames, None);
    // A value is taken whatever it looks like.
    assert_eq!(args(&["--map", "--frames"]).map_path.as_deref(), Some("--frames"));
}

#[test]
fn views_of_the_globe() {
    let l = args(&["--globe-view", "1,x,-2,3"]);
    let (lat, lon, alt) = l.globe_view.unwrap();
    assert_eq!((lat.as_str(), lon.as_str(), alt.as_deref()), ("1", "-2", Some("3")));
    let l = args(&["--globe-view", "1,2", "--globe-view", "5"]);
    let (lat, lon, alt) = l.globe_view.unwrap();
    assert_eq!((lat.as_str(), lon.as_str(), alt), ("1", "2", None));
    assert!(args(&["--globe-view", ""]).globe_view.is_none());
}

#[test]
fn pictures_have_names_and_modes() {
    let l = args(&["--render-globe"]);
    assert_eq!((l.render_image.as_deref(), mode_of(&l)), (Some("/tmp/globe.png"), RenderMode::ImageGlobe));
    let l = args(&["--render-globe", "g.png", "--selftest-ui"]);
    assert_eq!((l.render_image.as_deref(), mode_of(&l)), (Some("g.png"), RenderMode::Selftest));
    let l = args(&["--render-globe", "--frames", "3"]);
    assert_eq!((l.render_image.as_deref(), l.frames), (Some("/tmp/globe.png"), Some(3)));
    let l = args(&["--selftest-ui"]);
    assert_eq!(l.render_image.as_deref(), Some("/tmp/selftest_ui.png"));
    let l = args(&["--render-image", "m.png", "--render-globe", "-x"]);
    assert_eq!(l.render_image.as_deref(), Some("-x"));
    let l = args(&["--render-image", "m.png"]);
    assert_eq!(mode_of(&l), RenderMode::ImageMap);
    assert!(!l.render_globe && !l.selftest_ui);
}

#[test]
fn the_first_view() {
    assert_eq!(initial_state(RenderMode::ImageMap, None), AppState::Chart);
    assert_eq!(initial_state(RenderMode::Window, None), AppState::Globe);
    assert_eq!(initial_state(RenderMode::Window, Some(AppState::Chart)), AppState::Chart);
    assert_eq!(initial_state(RenderMode::ImageGlobe, Some(AppState::Chart)), AppState::Globe);
}

#[test]
fn the_window_is_pictured_once() {
    let mut frames = 0;
    let taken: Vec<u32> = (1..200).filter(|_| shot_due(&mut frames, true, false)).collect();
    assert_eq!(taken.len(), 1);
    assert_eq!(taken[0], 120);
    let mut other = 119;
    assert!(!shot_due(&mut other, true, true) && !shot_due(&mut other, false, false));
    assert!(shot_due(&mut other, true, false));
}

#[test]
fn pictures_wait() {
    let mut g = ShotTimer::new();
    for _ in 0..30 {
        assert!(!g.frame(true, None, 120, None));
    }
    assert!(!g.frame(false, None, 120, None));
    assert!(g.frame(true, None, 120, None));
    let loaded = Some(StreamState { inflight: 0, loaded: 1 });
    let busy = Some(StreamState { inflight: 1, loaded: 1 });
    let mut g = ShotTimer::new();
    for _ in 0..89 {
        assert!(!g.frame(true, None, 120, loaded));
    }
    assert!(!g.frame(true, None, 120, busy));
    for _ in 0..89 {
        assert!(!g.frame(true, None, 120, loaded));
    }
    assert!(g.frame(true, None, 120, loaded));
    assert!(!g.frame(true, Some(StreamState { inflight: 0, loaded: 119 }), 120, loaded));
    assert!(g.frame(true, Some(StreamState { inflight: 0, loaded: 120 }), 120, loaded));
    let mut late = ShotTimer { frames: 900, stable: 0 };
    assert!(late.frame(true, Some(StreamState { inflight: 0, loaded: 0 }), 120, None));
}

#[test]
fn the_program_ends() {
    assert!(should_exit(1, None, false, false, true, true));
    assert!(!should_exit(9, None, false, false, true, false));
    assert!(should_exit(9, Some(9), false, false, false, false));
    assert!(!should_exit(8, Some(9), false, false, false, false));
    assert!(!should_exit(9, Some(9), true, false, false, false));
    assert!(should_exit(1, None, true, true, false, false));
    assert!(!should_exit(u32::MAX, None, false, true, false, true));
}

#[test]
fn window_sizes_and_pixels() {
    assert!(!size_ready(30, 1_600_000, 900_000));
    assert!(size_ready(31, 1_600_000, 900_000));
    assert!(size_ready(1, 1_601_001, 900_000));
    assert!(!size_ready(1, 1_599_000, 901_000));
    assert_eq!(bgra_to_rgb(&[1, 2, 3, 4, 5, 6, 7, 8, 9]), vec![3, 2, 1, 7, 6, 5]);
    assert!(bgra_to_rgb(&[]).is_empty());
}

#[test]
fn scenes_of_each_mode() {
    let s = scene_of(&args(&[]));
    assert!(s.units && s.live && s.globe && s.picture.is_none());
    assert_eq!(s.flat_camera, Some(false));
    let s = scene_of(&args(&["--render-image", "m.png", "--map", "a.osm"]));
    assert!(s.units && !s.live && !s.globe);
    assert_eq!(s.flat_camera, Some(true));
    let p = s.picture.unwrap();
    assert_eq!((p.path.as_str(), p.width, p.height), ("m.png", 1600, 900));
    let s = scene_of(&args(&["--render-globe"]));
    assert!(s.globe && s.flat_camera.is_none());
    assert_eq!(s.picture.unwrap().path, "/tmp/globe.png");
    let s = scene_of(&args(&["--selftest-ui", "--map", "a.osm", "--render-image", "x.png"]));
    assert!(!s.units && s.live && !s.globe);
    let p = s.picture.unwrap();
    assert_eq!((p.path.as_str(), p.width, p.height), ("/tmp/selftest_ui.png", 400, 300));
}
