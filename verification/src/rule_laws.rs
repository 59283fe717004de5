//! Laws of the small rules: what lasts, what is shown, what keys and orders do, and when things end.

use vstd::prelude::*;

use crate::camera::{direction, factor_of};
use crate::geo::Point;
use crate::globe::{apparent, distance_of, lands, passages_do_not_flicker, takes_off};
use crate::input::{actions, may_order, on_screen, Keys, MidDrag, ScreenPos};
use crate::launch::{ends, first_state, shot_after, size_known, AppState, RenderMode};
use crate::map_render::stale;
use crate::satellites::{labelled_from, seen_from, sets_last};
use crate::sim::{
    advanced, on_patrol, scenario_units, under_way, PlatformKind, Side, SimClock, Unit,
};
use crate::sim_laws::{after_waypoints, routes_are_visited_in_order, waypoints_follow_the_route};
use crate::tiles::{tile_lasts, CacheSweep};
use crate::timeline::{over_bar, tick_drawn};
use crate::ui::{button, lit, refreshed};
use crate::unit_laws::legs_follow_the_route;
use crate::units::{drawn_leg, legs, ring, SensorRingKind};

verus! {

// ---------- what lasts ----------

/// Element sets last one day and tiles thirty days, to the nanosecond.
pub proof fn caches_last_their_time(secs: u64, nanos: u32)
    requires
        nanos < 1_000_000_000,
    ensures
        sets_last(secs, nanos) <==> secs * 1_000_000_000 + nanos <= 24 * 3600 * 1_000_000_000,
        tile_lasts(secs, nanos) <==> secs * 1_000_000_000 + nanos <= 30 * 24 * 3600 * 1_000_000_000,
{
}

/// Files are removed while more than half of the budget is used, the next one in order, and no more once it
/// is not or none is left.
pub proof fn sweeps_free_half_of_the_budget(s: CacheSweep)
    ensures
        s.next_victim() is Some <==> s.next < s.order@.len() && 2 * s.remaining > s.budget,
        s.next_victim() is Some ==> s.next_victim() == Some(s.order@[s.next as int]),
{
}

// ---------- what is shown ----------

/// Satellites are shown from more than 1.15 radii of the globe on, and the label of the space station from
/// there to 1.6 radii; neither where the layer is hidden.
pub proof fn satellites_are_shown_from_afar(visible: bool, distance: u64)
    ensures
        seen_from(visible, distance) <==> visible && 20 * distance > 23 * 6_371_000,
        labelled_from(visible, distance) <==> seen_from(visible, distance) && 5 * distance < 8 * 6_371_000,
{
}

/// A leg is drawn from a metre on; positions are in centimetres.
pub proof fn legs_are_drawn_from_a_metre_on(a: Point, b: Point)
    ensures
        drawn_leg(a, b) <==> (a.x - b.x) * (a.x - b.x) + (a.y - b.y) * (a.y - b.y) >= 100 * 100,
{
}

/// Blue units have a ring for each of the two sensors that they have, as wide as it reaches; other units
/// have none.
pub proof fn rings_show_blue_sensors(u: Unit)
    ensures
        u.side == Side::Blue ==> ring(u, SensorRingKind::Radar) == u.sensors.radar_m && ring(
            u,
            SensorRingKind::Sonar,
        ) == u.sensors.sonar_m,
        u.side != Side::Blue ==> ring(u, SensorRingKind::Radar) is None && ring(
            u,
            SensorRingKind::Sonar,
        ) is None,
{
}

/// Exactly one button is lit: the first while the clock stands, and otherwise the one of its speed.
pub proof fn one_button_is_lit(c: SimClock, i: int)
    requires
        0 <= i < 6,
        c.speed_idx < 5,
    ensures
        lit(c, button(i).1) <==> i == if c.paused {
            0
        } else {
            c.speed_idx + 1
        },
{
}

/// Texts are updated once a quarter of a second has passed since the last time, and the time counts anew.
pub proof fn texts_are_updated_four_times_a_second(since: u64, dt: u64)
    requires
        since + dt <= u64::MAX,
    ensures
        since + dt >= 250_000 ==> refreshed(since, dt) == (0u64, true),
        since + dt < 250_000 ==> refreshed(since, dt) == ((since + dt) as u64, false),
{
}

/// The bar takes the lowest 56 pixels of the window, and ticks are drawn up to 20 pixels beside the axis.
/// Lengths are in thousandths of a pixel.
pub proof fn the_bar_is_at_the_lower_border(y: int, height: int, x: int, axis_w: int)
    ensures
        over_bar(y, height) <==> 0 <= height - y <= 56 * 1000,
        tick_drawn(x, axis_w) <==> x + 20 * 1000 >= 0 && x - axis_w <= 20 * 1000,
{
}

/// The graticule is drawn anew where its interval changes or the view has moved by more than half of its
/// greater side.
pub proof fn the_graticule_follows_the_view(step: u64, other: u64, a: Point, b: Point, w: u32, h: u32)
    ensures
        other != step ==> stale(other, step, a, b, w, h),
        ({
            let side = if w < h {
                h
            } else {
                w
            };
            stale(step, step, a, b, w, h) <==> (2 * (a.x - b.x)) * (2 * (a.x - b.x)) + (2 * (a.y - b.y)) * (
            2 * (a.y - b.y)) > side * side
        }),
        !stale(step, step, a, a, w, h),
{
    let (x, y) = (a.x - b.x, a.y - b.y);
    assert((2 * x) * (2 * x) == 4 * (x * x)) by (nonlinear_arith);
    assert((2 * y) * (2 * y) == 4 * (y * y)) by (nonlinear_arith);
    assert((a.x - a.x) * (a.x - a.x) == 0 && (a.y - a.y) * (a.y - a.y) == 0) by (nonlinear_arith);
    assert(w * w >= 0 && h * h >= 0) by (nonlinear_arith);
}

// ---------- keys and the wheel ----------

/// A notch of the wheel changes the scale by fifteen percent, a part of it by that part, and more than a notch
/// by no more; turning back is as much the other way. A notch is ten thousand.
pub proof fn the_wheel_zooms_by_fifteen_percent(delta: int)
    ensures
        factor_of(10_000) == 1_150_000,
        factor_of(0) == 1_000_000,
        factor_of(delta) + factor_of(-delta) == 2_000_000,
        0 <= delta <= 10_000 ==> (factor_of(delta) - 1_000_000) * 10_000 == 150_000 * delta,
        delta > 10_000 ==> factor_of(delta) == factor_of(10_000),
{
}

/// Keys move the view to the right and up as positive, opposite keys undo each other, and the two directions do
/// not mix.
pub proof fn keys_move_the_view(up: bool, down: bool, left: bool, right: bool)
    ensures
        direction(false, false, false, true) == (1int, 0int),
        direction(true, false, false, false) == (0int, 1int),
        direction(down, up, right, left) == (
            -direction(up, down, left, right).0,
            -direction(up, down, left, right).1,
        ),
        direction(up, down, left, right).0 == direction(false, false, left, right).0,
        direction(up, down, left, right).1 == direction(up, down, false, false).1,
        left == right ==> direction(up, down, left, right).0 == 0,
        up == down ==> direction(up, down, left, right).1 == 0,
{
}

/// Escape drops the selection, and with it what the other keys would do with it in the same frame. The globe is
/// entered only from the map in a window; a unit is focused or recalled only where one is selected.
pub proof fn keys_need_what_they_act_on(k: Keys, windowed: bool, on_map: bool, selected: bool)
    ensures
        ({
            let a = actions(k, windowed, on_map, selected);
            &&& a.deselect == k.escape
            &&& a.to_globe ==> k.globe && windowed && on_map
            &&& k.globe && windowed && on_map ==> a.to_globe
            &&& a.focus || a.recall ==> selected && !a.deselect
            &&& selected && !k.escape ==> a.focus == k.focus && a.recall == k.recall
        }),
{
}

/// A drag with the middle button moves the view by exactly the movement of the pointer, from the second frame
/// on that the button is down, and stops when it is let go.
pub proof fn middle_drags_follow_the_pointer(d: MidDrag, from: ScreenPos, to: ScreenPos)
    requires
        on_screen(from),
        on_screen(to),
        !d.down,
    ensures
        d.after(true, Some(from)).1 is None,
        d.after(true, Some(from)).0.down,
        ({
            let moved = d.after(true, Some(from)).0.after(true, Some(to));
            &&& moved.1 is Some
            &&& moved.1->Some_0.x == to.x - from.x
            &&& moved.1->Some_0.y == to.y - from.y
            &&& moved.0.down
            &&& moved.0.last == to
            &&& moved.0.after(false, Some(to)).1 is None
            &&& !moved.0.after(false, Some(to)).0.down
            &&& moved.0.after(true, None) == (moved.0, None::<ScreenPos>)
        }),
{
}

// ---------- orders ----------

/// Blue units take orders, except facilities, which cannot move; no others do.
pub proof fn blue_vehicles_take_orders(u: Unit)
    ensures
        may_order(u) <==> u.side == Side::Blue && (u.kind == PlatformKind::Destroyer || u.kind
            == PlatformKind::Frigate || u.kind == PlatformKind::Submarine || u.kind
            == PlatformKind::MPatrol || u.kind == PlatformKind::Fighter || u.kind
            == PlatformKind::Merchant),
{
}

/// A blue unit under orders goes straight to its destination, stops there, and keeps its patrol.
pub proof fn ordered_units_go_straight(before: Unit, after: Unit, dest: Point, pos: Point)
    requires
        under_way(before, after, dest),
        before.side == Side::Blue,
    ensures
        legs(after, pos) == seq![(pos, dest)],
        after.moving,
        !advanced(after).moving,
        after.patrol == before.patrol,
        after.side == before.side && after.kind == before.kind && after.name == before.name,
{
    legs_follow_the_route(after, pos);
    assert(after.route@[0] == dest);
    assert(legs(after, pos) =~= seq![(pos, dest)]);
    waypoints_follow_the_route(after);
}

/// A unit that resumes its patrol goes round it again and again, from its first waypoint on.
pub proof fn recalled_units_go_round(before: Unit, after: Unit, k: nat)
    requires
        on_patrol(before, after),
        0 < before.patrol@.len() <= usize::MAX,
    ensures
        after.route@ == before.patrol@,
        after.moving && after.wp_index == 0,
        after_waypoints(after, k).wp_index == k as int % before.patrol@.len() as int,
        after_waypoints(after, k).moving,
        after.patrol == before.patrol,
{
    routes_are_visited_in_order(after, k);
}

// ---------- the passage between globe and map ----------

/// The map is entered from the globe on request and where the ground appears closer than 1120 metres per
/// pixel; it is left in a window from 1199 metres per pixel on. Whoever has just left it does not enter it at
/// once.
pub proof fn globe_and_map_pass_into_each_other(distance: int, viewport_h: int, mpp: int, windowed: bool)
    requires
        1000 <= viewport_h <= 0x8000_0000,
    ensures
        lands(true, distance, viewport_h),
        lands(false, distance, viewport_h) <==> apparent(distance, viewport_h) < 1_120 * 1_000_000,
        takes_off(windowed, mpp) <==> windowed && mpp >= 1_199 * 1_000_000,
        !lands(false, distance_of(1_272_000_000, viewport_h), viewport_h),
{
    passages_do_not_flicker(viewport_h);
}

// ---------- starting and ending ----------

/// A picture of the map starts with the map, a window with what an address asks for, and all else with the
/// globe.
pub proof fn views_start_as_asked(linked: Option<AppState>, s: AppState)
    ensures
        first_state(RenderMode::ImageMap, linked) == AppState::Chart,
        first_state(RenderMode::Window, Some(s)) == s,
        first_state(RenderMode::Window, None) == AppState::Globe,
        first_state(RenderMode::ImageGlobe, linked) == AppState::Globe,
        first_state(RenderMode::Selftest, linked) == AppState::Globe,
{
}

/// The window is pictured once, in the hundred and twentieth frame that waits for it.
pub proof fn the_window_is_pictured_once(frames: u32, wanted: bool, done: bool)
    requires
        frames < u32::MAX,
    ensures
        shot_after(frames, wanted, done).1 <==> wanted && !done && frames == 119,
        shot_after(frames, wanted, done).0 == if wanted && !done {
            frames + 1
        } else {
            frames as int
        },
{
}

/// The program ends once its picture is drawn. Apart from that it ends when its frames are used up, or where
/// they have no limit, when the picture of the window is taken; never while that picture is still wanted.
pub proof fn the_program_ends_when_all_is_done(
    frames: u32,
    limit: Option<u32>,
    want_shot: bool,
    shot_done: bool,
    want_render: bool,
    render_done: bool,
)
    ensures
        want_render && render_done ==> ends(frames, limit, want_shot, shot_done, want_render, render_done),
        !(want_render && render_done) && want_shot && !shot_done ==> !ends(
            frames,
            limit,
            want_shot,
            shot_done,
            want_render,
            render_done,
        ),
        !(want_render && render_done) && !(want_shot && !shot_done) && limit is Some ==> (ends(
            frames,
            limit,
            want_shot,
            shot_done,
            want_render,
            render_done,
        ) <==> frames >= limit->Some_0),
        !(want_render && render_done) && want_shot && shot_done && limit is None ==> ends(
            frames,
            limit,
            want_shot,
            shot_done,
            want_render,
            render_done,
        ),
        !(want_render && render_done) && !want_shot && limit is None ==> !ends(
            frames,
            limit,
            want_shot,
            shot_done,
            want_render,
            render_done,
        ),
{
}

/// The size of the window is not relied on for thirty frames while it is the default of 1600 by 900 pixels, up
/// to a pixel; after that it is.
pub proof fn default_sizes_are_not_relied_on(frames: u32, w: int, h: int)
    ensures
        !size_known(frames, w, h) <==> frames <= 30 && 1599 * 1000 <= w <= 1601 * 1000 && 899 * 1000 <= h
            <= 901 * 1000,
{
}

// ---------- the scenario ----------

/// The scenario has five blue units, four red ones and a merchant. Facilities stand still without a course;
/// all others have a patrol, which starts where they are where it is a loop. All are at sea around the harbour.
pub proof fn the_scenario_is_set(i: int)
    requires
        0 <= i < 10,
    ensures
        scenario_units().len() == 10,
        ({
            let u = scenario_units()[i];
            &&& u.side == if i < 5 {
                Side::Blue
            } else if i < 9 {
                Side::Red
            } else {
                Side::Neutral
            }
            &&& u.kind == PlatformKind::Merchant <==> u.side == Side::Neutral
            &&& u.kind == PlatformKind::Facility <==> u.patrol.len() == 0
            &&& u.kind == PlatformKind::Facility ==> u.side == Side::Blue && u.heading_deg == 0
                && u.weapons.len() == 0
            &&& u.patrol_loop ==> u.patrol.len() >= 2 && u.patrol[0] == u.start
            &&& !u.patrol_loop ==> u.patrol.len() <= 1
            &&& u.heading_deg < 360
            &&& 21_000 <= u.start.lat <= 21_400 && -158_400 <= u.start.lon <= -157_700
            &&& u.sensors.sonar_m is Some <==> u.kind == PlatformKind::Destroyer || u.kind
                == PlatformKind::Frigate || u.kind == PlatformKind::Submarine
            &&& u.sensors.radar_m is None <==> u.kind == PlatformKind::Submarine || u.kind
                == PlatformKind::Merchant
        }),
{
    let u = scenario_units()[i];
    assert(i == 0 || i == 1 || i == 2 || i == 3 || i == 4 || i == 5 || i == 6 || i == 7 || i == 8 || i
        == 9);
}

} // verus!
