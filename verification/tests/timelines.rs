use miaosuan::civil::civil_from_unix;
use miaosuan::sim::{SimClock, MAX_CLOCK};
use miaosuan::timeline::{
    date_label, handle_x, in_bar, now_texts, roll_window, step_for_span, tick_shown,
    ticks_for_window, unix_to_x, x_to_unix, Timeline, TimelineInput, Wheel, MAX_SPAN, MICROS,
    MIN_SPAN, SCENARIO_EPOCH_UNIX,
};

const AXIS: i64 = 800_000;

#[test]
fn step_selection() {
    assert_eq!(step_for_span(3 * 3600 * MICROS, AXIS), 1800);
    assert_eq!(step_for_span(7 * 86_400 * MICROS, AXIS), 86_400);
    assert_eq!(step_for_span(120 * MICROS, AXIS), 60);
}

#[test]
fn narrow_axes_have_wide_steps() {
    assert_eq!(step_for_span(MAX_SPAN, 1), 2_592_000);
    assert_eq!(step_for_span(MAX_SPAN, -5), 2_592_000);
    // Exactly 90 pixels are enough.
    assert_eq!(step_for_span(600 * MICROS, 900_000), 60);
    assert_eq!(step_for_span(600 * MICROS, 899_999), 300);
}

#[test]
fn ticks_align_and_labels() {
    let start = SCENARIO_EPOCH_UNIX * MICROS;
    let tks = ticks_for_window(start, 3600 * MICROS, AXIS);
    assert!(tks.len() > 8 && tks.len() < 40, "{}", tks.len());
    for tk in tks.iter().filter(|t| t.major) {
        assert_eq!(tk.unix % 300, 0);
        assert!(tk.label.is_some());
    }
    let first = tks.iter().find(|t| t.major).unwrap();
    assert!(first.label.as_deref().unwrap().contains(':'));
}

#[test]
fn ticks_day_boundary_label() {
    let start = SCENARIO_EPOCH_UNIX + 20 * 3600;
    let tks = ticks_for_window((start - 3600) * MICROS, 7200 * MICROS, AXIS);
    let mid = tks.iter().find(|t| t.major && (t.unix - start).abs() < 60);
    assert!(mid.is_some());
    assert!(mid.unwrap().label.as_deref().unwrap().contains(' '), "{:?}", mid.unwrap().label);
}

#[test]
fn ticks_of_a_short_window() {
    // Ten pixels for each second: every minute is labelled, five ticks to a minute.
    let tks = ticks_for_window(30 * MICROS, 120 * MICROS, 1_200_000);
    let times: Vec<i64> = tks.iter().map(|t| t.unix).collect();
    assert_eq!(times, (2..=13).map(|i| i * 12).collect::<Vec<i64>>());
    assert_eq!(tks[3].label.as_deref(), Some("00:01"));
    assert!(tks[2].label.is_none() && !tks[2].major);
    let before = ticks_for_window(-MICROS, 120 * MICROS, 1_200_000);
    assert_eq!(before[0].unix, -12);
    assert_eq!(before[1].label.as_deref(), Some("JAN 1"));
}

#[test]
fn unix_x_roundtrip() {
    let (start, span) = (1000 * MICROS, 3600 * MICROS);
    let x = unix_to_x(2800 * MICROS, start, span, AXIS);
    assert_eq!(x, 400_000);
    let u = x_to_unix(x as i64, start, span, AXIS);
    assert_eq!(u, 2800 * MICROS);
}

#[test]
fn roll_window_follows() {
    let mut start = 0;
    roll_window(&mut start, 3600 * MICROS, 3500 * MICROS);
    assert_eq!(start, 3500 * MICROS - 360 * MICROS);
    let mut s2 = 10_000 * MICROS;
    roll_window(&mut s2, 3600 * MICROS, 5_000 * MICROS);
    assert_eq!(s2, 4640 * MICROS);
    let mut s3 = 0;
    roll_window(&mut s3, 1000, 900);
    assert_eq!(s3, 0);
    roll_window(&mut s3, 1000, 901);
    assert_eq!(s3, 801);
}

#[test]
fn civil_conversion() {
    let c = civil_from_unix(SCENARIO_EPOCH_UNIX);
    assert_eq!((c.year, c.month, c.day), (2026, 9, 12));
    assert_eq!((c.hour, c.min, c.sec), (4, 0, 0));
    let leap = civil_from_unix(951_782_400);
    assert_eq!((leap.year, leap.month, leap.day), (2000, 2, 29));
}

#[test]
fn civil_edges() {
    let c = civil_from_unix(-1);
    assert_eq!((c.year, c.month, c.day, c.hour, c.min, c.sec), (1969, 12, 31, 23, 59, 59));
    let c = civil_from_unix(4_107_542_400);
    assert_eq!((c.year, c.month, c.day), (2100, 3, 1));
    let c = civil_from_unix(4_107_542_399);
    assert_eq!((c.year, c.month, c.day), (2100, 2, 28));
    assert_eq!(date_label(&c), "FEB 28");
    let far = civil_from_unix(i64::MIN);
    assert!(far.month >= 1 && far.month <= 12);
}

fn input() -> TimelineInput {
    TimelineInput {
        over_bar: false,
        wheel: Wheel::Still,
        pressed: false,
        x: None,
        axis_w: AXIS,
        now: SCENARIO_EPOCH_UNIX * MICROS,
        paused: true,
        dt: 0,
    }
}

#[test]
fn the_timeline_is_dragged() {
    let mut t = Timeline::new();
    assert_eq!(t.window.start, (SCENARIO_EPOCH_UNIX - 600) * MICROS);
    // A press at the start of the axis is before the scenario: the clock stays at its start.
    let out = t.frame(TimelineInput { over_bar: true, pressed: true, x: Some(-5), ..input() });
    assert_eq!(out.jump, Some(0));
    assert!(t.dragging);
    // The middle of three hours that start ten minutes before the scenario.
    let mut t = Timeline::new();
    let out = t.frame(TimelineInput { over_bar: true, pressed: true, x: Some(AXIS / 2), ..input() });
    assert_eq!(out.jump, Some(80 * 60 * MICROS));
    assert_eq!(t.window.start, (SCENARIO_EPOCH_UNIX - 600) * MICROS);
    // Beyond nine tenths the window follows.
    let out = t.frame(TimelineInput { over_bar: true, pressed: true, x: Some(AXIS * 2), ..input() });
    assert_eq!(out.jump, Some(170 * 60 * MICROS));
    assert_eq!(t.window.start, (SCENARIO_EPOCH_UNIX + 170 * 60 - 18 * 60) * MICROS);
    assert!(out.redraw);
    let out = t.frame(TimelineInput { over_bar: true, ..input() });
    assert_eq!((out.jump, t.dragging), (None, false));
}

#[test]
fn a_drag_stops_the_clock() {
    let mut t = Timeline::new();
    let mut c = SimClock::default();
    c.speed_idx = 1;
    assert_eq!(t.sim_dt(&c, 1_000), 5_000);
    t.advance_clock(&mut c, 1_000);
    assert_eq!(c.t, 5_000);
    t.frame(TimelineInput { over_bar: true, pressed: true, ..input() });
    t.advance_clock(&mut c, 1_000);
    assert_eq!((c.t, t.sim_dt(&c, 1_000)), (5_000, 0));
    t.frame(input());
    c.paused = true;
    t.advance_clock(&mut c, 1_000);
    assert_eq!((c.t, t.sim_dt(&c, 1_000)), (5_000, 0));
    c.paused = false;
    c.t = MAX_CLOCK - 1;
    t.advance_clock(&mut c, 1_000);
    assert_eq!(c.t, MAX_CLOCK);
}

#[test]
fn a_window_without_an_axis() {
    let mut t = Timeline::new();
    t.frame(TimelineInput { axis_w: 0, ..input() });
    assert_eq!(handle_x(5, &t.window, 0), 0);
}

#[test]
fn the_timeline_is_zoomed() {
    let mut t = Timeline::new();
    let out = t.frame(TimelineInput { over_bar: true, wheel: Wheel::In, ..input() });
    assert_eq!(t.window.span, 8_640 * MICROS);
    assert_eq!(t.window.start, SCENARIO_EPOCH_UNIX * MICROS - 864 * MICROS);
    assert!(out.redraw);
    for _ in 0..100 {
        t.frame(TimelineInput { over_bar: true, wheel: Wheel::In, ..input() });
    }
    assert_eq!(t.window.span, MIN_SPAN);
    for _ in 0..100 {
        t.frame(TimelineInput { over_bar: true, wheel: Wheel::Out, ..input() });
    }
    assert_eq!(t.window.span, MAX_SPAN);
    let before = t.window;
    t.frame(TimelineInput { wheel: Wheel::Out, ..input() });
    assert_eq!(t.window, before);
    assert!(t.window.is_ok());
}

#[test]
fn ticks_are_redrawn_now_and_then() {
    let mut t = Timeline::new();
    assert!(!t.frame(TimelineInput { dt: 200_000, ..input() }).redraw);
    assert!(t.frame(TimelineInput { dt: 1, ..input() }).redraw);
    assert_eq!(t.since_drawn, 0);
    let later = SCENARIO_EPOCH_UNIX * MICROS + 9_999 * 3600 * MICROS;
    let out = t.frame(TimelineInput { paused: false, now: later, ..input() });
    assert!(out.redraw);
    assert_eq!(t.window.start, later - 1080 * MICROS);
}

#[test]
fn texts_and_marks() {
    let now = (SCENARIO_EPOCH_UNIX + 86_400 + 61) * MICROS;
    let (a, b) = now_texts(now);
    assert_eq!((a.as_str(), b.as_str()), ("D+1 04:01:01Z", "2026-09-13"));
    let (a, b) = now_texts(-1);
    assert_eq!((a.as_str(), b.as_str()), ("D+-20709 23:59:59Z", "1969-12-31"));
    assert!(tick_shown(-20_000, AXIS) && !tick_shown(-20_001, AXIS));
    assert!(tick_shown(820_000, AXIS) && !tick_shown(820_001, AXIS));
    let w = Timeline::new().window;
    assert_eq!(handle_x(w.start - 1, &w, AXIS), 0);
    assert_eq!(handle_x(w.start + w.span * 2, &w, AXIS), AXIS);
    assert_eq!(handle_x(w.start + w.span / 4, &w, AXIS), AXIS / 4);
    assert!(in_bar(844_000, 900_000) && !in_bar(843_999, 900_000) && !in_bar(900_001, 900_000));
}
