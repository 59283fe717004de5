//! Laws of the simulation: what sensors find, how units follow their routes and turn, and how the
//! clock runs and reads.

use vstd::prelude::*;

use crate::geo::{distance2, Point};
use crate::sim::{
    advanced, blue_of, clock_text, detection, facts, observed, sighted, steered, step_plan,
    DetectResult, Domain, PlatformKind, Sensors, Side, SimClock, StepPlan, Unit, MAX_CLOCK, TURN,
};
use crate::text::int_text;
use crate::text_laws::{two_digits, two_digits_are_written};

verus! {

// ---------- sensors ----------

/// Whether a range is that of a sensor for targets of a domain: sonar is for what is under and on the
/// surface, radar and sight are for what is on the surface and in the air.
pub open spec fn is_range(s: Sensors, d: Domain, r: u32) -> bool {
    ||| s.sonar_m == Some(r) && (d == Domain::Subsurface || d == Domain::Surface)
    ||| s.radar_m == Some(r) && (d == Domain::Air || d == Domain::Surface)
    ||| s.visual_m == r && (d == Domain::Air || d == Domain::Surface)
}

/// Every sensor finds what is in its range in each domain that it is for, and recognises it within
/// half of the range; nothing else is found or recognised. The square of the distance is in square
/// centimetres, ranges are in metres.
pub proof fn each_sensor_finds_its_domains(s: Sensors, d: Domain, d2: int)
    requires
        0 <= d2,
    ensures
        forall|r: u32| #[trigger]
            is_range(s, d, r) && r > 0 && d2 <= (100 * r) * (100 * r) ==> detection(s, d, d2)
                is Detected,
        forall|r: u32| #[trigger]
            is_range(s, d, r) && r > 0 && 4 * d2 <= (100 * r) * (100 * r) ==> detection(s, d, d2)
                == (DetectResult::Detected { classified: true }),
        detection(s, d, d2) is Detected ==> exists|r: u32| #[trigger]
            is_range(s, d, r) && r > 0 && d2 <= (100 * r) * (100 * r),
        detection(s, d, d2) == (DetectResult::Detected { classified: true }) ==> exists|r: u32|
            #[trigger]
            is_range(s, d, r) && r > 0 && 4 * d2 <= (100 * r) * (100 * r),
{
    let best = crate::sim::reach(s, d);
    assert forall|r: u32| #[trigger] is_range(s, d, r) implies (100 * r) * (100 * r) <= (100 * best)
        * (100 * best) by {
        assert(r <= best);
        assert((100 * r) * (100 * r) <= (100 * best) * (100 * best)) by (nonlinear_arith)
            requires
                0 <= r <= best,
        ;
    }
    assert(best > 0 ==> is_range(s, d, best));
}

/// A red unit is detected exactly where some observer's sensors find it at its distance, and then it
/// was last seen now; it is recognised where it was before or where some observer recognises it.
/// Nothing else about it changes, and nothing at all about other units.
pub proof fn red_units_are_seen_by_observers(
    u: Unit,
    observers: Seq<(Sensors, Point)>,
    pos: Point,
    t: i64,
)
    ensures
        ({
            let after = observed(u, observers, pos, t);
            let d = facts(u.kind).domain;
            let outcome = |i: int|
                detection(
                    observers[i].0,
                    d,
                    (observers[i].1.x - pos.x) * (observers[i].1.x - pos.x) + (observers[i].1.y
                        - pos.y) * (observers[i].1.y - pos.y),
                );
            &&& u.side != Side::Red ==> after == u
            &&& u.side == Side::Red ==> (after.detected_by_blue <==> exists|i: int|
                0 <= i < observers.len() && (#[trigger] outcome(i)) is Detected)
            &&& u.side == Side::Red ==> (after.classified <==> u.classified || exists|i: int|
                0 <= i < observers.len() && (#[trigger] outcome(i)) == (DetectResult::Detected {
                    classified: true,
                }))
            &&& u.side == Side::Red ==> after.last_seen_t == if after.detected_by_blue {
                Some(t)
            } else {
                u.last_seen_t
            }
            &&& after == (Unit {
                detected_by_blue: after.detected_by_blue,
                classified: after.classified,
                last_seen_t: after.last_seen_t,
                ..u
            })
        }),
{
    let d = facts(u.kind).domain;
    let outcome = |i: int|
        detection(
            observers[i].0,
            d,
            (observers[i].1.x - pos.x) * (observers[i].1.x - pos.x) + (observers[i].1.y - pos.y) * (
            observers[i].1.y - pos.y),
        );
    assert forall|i: int| 0 <= i < observers.len() implies #[trigger] outcome(i) == detection(
        observers[i].0,
        d,
        distance2(observers[i].1, pos),
    ) by {}
    if sighted(observers, d, pos, false) {
        let i = choose|i: int|
            0 <= i < observers.len() && match detection(
                (#[trigger] observers[i]).0,
                d,
                distance2(observers[i].1, pos),
            ) {
                DetectResult::Detected { classified: c } => true,
                DetectResult::Nothing => false,
            };
        assert(outcome(i) is Detected);
    }
    if sighted(observers, d, pos, true) {
        let i = choose|i: int|
            0 <= i < observers.len() && match detection(
                (#[trigger] observers[i]).0,
                d,
                distance2(observers[i].1, pos),
            ) {
                DetectResult::Detected { classified: c } => c,
                DetectResult::Nothing => false,
            };
        assert(outcome(i) == (DetectResult::Detected { classified: true }));
        assert(sighted(observers, d, pos, false));
    }
    if exists|i: int| 0 <= i < observers.len() && (#[trigger] outcome(i)) is Detected {
        let i = choose|i: int| 0 <= i < observers.len() && (#[trigger] outcome(i)) is Detected;
        assert(observers[i] == observers[i]);
        assert(sighted(observers, d, pos, false));
    }
    if exists|i: int|
        0 <= i < observers.len() && (#[trigger] outcome(i)) == (DetectResult::Detected {
            classified: true,
        }) {
        let i = choose|i: int|
            0 <= i < observers.len() && (#[trigger] outcome(i)) == (DetectResult::Detected {
                classified: true,
            });
        assert(observers[i] == observers[i]);
        assert(sighted(observers, d, pos, true));
        assert(sighted(observers, d, pos, false));
    }
}

/// The observers are all units of the blue side and no others, in order.
pub proof fn observers_are_the_blue_units(units: Seq<(Side, Sensors, Point)>)
    ensures
        blue_of(units, units.len() as int) == units.filter(
            |u: (Side, Sensors, Point)| u.0 == Side::Blue,
        ).map_values(|u: (Side, Sensors, Point)| (u.1, u.2)),
{
    lemma_blue(units, units.len() as int);
    assert(units.take(units.len() as int) =~= units);
}

proof fn lemma_blue(units: Seq<(Side, Sensors, Point)>, n: int)
    requires
        0 <= n <= units.len(),
    ensures
        blue_of(units, n) == units.take(n).filter(
            |u: (Side, Sensors, Point)| u.0 == Side::Blue,
        ).map_values(|u: (Side, Sensors, Point)| (u.1, u.2)),
    decreases n,
{
    reveal(Seq::filter);
    let part = units.take(n);
    if n > 0 {
        lemma_blue(units, n - 1);
        assert(part.drop_last() =~= units.take(n - 1));
        assert(part.last() == units[n - 1]);
        let test = |u: (Side, Sensors, Point)| u.0 == Side::Blue;
        let before = units.take(n - 1).filter(test);
        if units[n - 1].0 == Side::Blue {
            assert(part.filter(test) =~= before.push(units[n - 1]));
        }
    }
    assert(blue_of(units, n) =~= part.filter(
        |u: (Side, Sensors, Point)| u.0 == Side::Blue,
    ).map_values(|u: (Side, Sensors, Point)| (u.1, u.2)));
}

// ---------- platforms ----------

/// Only submarines are under water and only the two kinds of aircraft in the air; aircraft count a
/// waypoint as reached from farther away. Facilities stand still, and no two kinds of vehicle go at
/// the same speed; what is in the air is faster than what is on or under water.
pub proof fn platforms_differ(a: PlatformKind, b: PlatformKind)
    ensures
        facts(a).domain == Domain::Subsurface <==> a == PlatformKind::Submarine,
        facts(a).domain == Domain::Air <==> a == PlatformKind::MPatrol || a == PlatformKind::Fighter,
        facts(a).arrive_radius_m == if facts(a).domain == Domain::Air { 900u32 } else { 350 },
        facts(a).cruise_kts == 0 <==> a == PlatformKind::Facility,
        facts(a).cruise_kts == facts(b).cruise_kts <==> a == b,
        facts(a).domain == Domain::Air && facts(b).domain != Domain::Air ==> facts(a).cruise_kts
            > facts(b).cruise_kts,
        facts(a).turn_rate_dps == 0 <==> a == PlatformKind::Facility || a
            == PlatformKind::Merchant,
        facts(PlatformKind::Fighter).cruise_kts == 350 && facts(PlatformKind::Fighter).turn_rate_dps
            == 60,
        facts(PlatformKind::MPatrol).cruise_kts == 260 && facts(PlatformKind::MPatrol).turn_rate_dps
            == 30,
        facts(PlatformKind::Destroyer).cruise_kts == 16 && facts(
            PlatformKind::Destroyer,
        ).turn_rate_dps == 15,
        facts(PlatformKind::Frigate).cruise_kts == 14 && facts(PlatformKind::Frigate).turn_rate_dps
            == 15,
        facts(PlatformKind::Merchant).cruise_kts == 13,
        facts(PlatformKind::Submarine).cruise_kts == 8 && facts(
            PlatformKind::Submarine,
        ).turn_rate_dps == 10,
{
}

/// Each kind of platform has its own short designation and its own class name.
pub proof fn platforms_have_their_names(a: PlatformKind)
    ensures
        facts(a).short == match a {
            PlatformKind::Destroyer => seq!['D', 'D', 'G'],
            PlatformKind::Frigate => seq!['F', 'F', 'G'],
            PlatformKind::Submarine => seq!['S', 'S', 'K'],
            PlatformKind::MPatrol => seq!['M', 'P', 'A'],
            PlatformKind::Fighter => seq!['F', 'T', 'R'],
            PlatformKind::Facility => seq!['F', 'A', 'C'],
            PlatformKind::Merchant => seq!['M', 'V'],
        },
        facts(a).class_name == match a {
            PlatformKind::Destroyer => "Guided-missile Destroyer"@,
            PlatformKind::Frigate => "Frigate"@,
            PlatformKind::Submarine => "Attack Submarine"@,
            PlatformKind::MPatrol => "Maritime Patrol Aircraft"@,
            PlatformKind::Fighter => "Multirole Fighter"@,
            PlatformKind::Facility => "Fixed Facility"@,
            PlatformKind::Merchant => "Merchant Vessel"@,
        },
{
    reveal_strlit("DDG");
    reveal_strlit("FFG");
    reveal_strlit("SSK");
    reveal_strlit("MPA");
    reveal_strlit("FTR");
    reveal_strlit("FAC");
    reveal_strlit("MV");
    assert(facts(PlatformKind::Destroyer).short =~= seq!['D', 'D', 'G']);
    assert(facts(PlatformKind::Frigate).short =~= seq!['F', 'F', 'G']);
    assert(facts(PlatformKind::Submarine).short =~= seq!['S', 'S', 'K']);
    assert(facts(PlatformKind::MPatrol).short =~= seq!['M', 'P', 'A']);
    assert(facts(PlatformKind::Fighter).short =~= seq!['F', 'T', 'R']);
    assert(facts(PlatformKind::Facility).short =~= seq!['F', 'A', 'C']);
    assert(facts(PlatformKind::Merchant).short =~= seq!['M', 'V']);
}

// ---------- routes ----------

/// A unit after `k` waypoints.
pub open spec fn after_waypoints(u: Unit, k: nat) -> Unit
    decreases k,
{
    if k == 0 {
        u
    } else {
        advanced(after_waypoints(u, (k - 1) as nat))
    }
}

/// On a patrol the waypoint after one is the next of the route, and after the last one it is the
/// first; on a single route it is the next until the last, where the unit stops. Nothing else
/// changes.
pub proof fn waypoints_follow_the_route(u: Unit)
    requires
        u.wp_index < u.route@.len() <= usize::MAX,
    ensures
        u.wp_index + 1 < u.route@.len() ==> advanced(u) == (Unit {
            wp_index: (u.wp_index + 1) as usize,
            ..u
        }),
        u.wp_index + 1 == u.route@.len() && u.route_loop ==> advanced(u) == (Unit {
            wp_index: 0,
            ..u
        }),
        u.wp_index + 1 == u.route@.len() && !u.route_loop ==> advanced(u) == (Unit {
            moving: false,
            ..u
        }),
{
    let n = u.route@.len() as int;
    if u.wp_index + 1 < n {
        vstd::arithmetic::div_mod::lemma_small_mod((u.wp_index + 1) as nat, n as nat);
    } else {
        vstd::arithmetic::div_mod::lemma_mod_self_0(n);
    }
}

/// From the first waypoint a patrol of `n` waypoints visits them in the order of the route, over and
/// over; a single route visits each once and then stops at the last.
pub proof fn routes_are_visited_in_order(u: Unit, k: nat)
    requires
        0 < u.route@.len() <= usize::MAX,
        u.wp_index == 0,
        u.moving,
        u.route_loop || k <= u.route@.len(),
    ensures
        after_waypoints(u, k).route == u.route,
        after_waypoints(u, k).route_loop == u.route_loop,
        u.route_loop ==> after_waypoints(u, k).wp_index == k as int % u.route@.len() as int
            && after_waypoints(u, k).moving,
        !u.route_loop && k < u.route@.len() ==> after_waypoints(u, k).wp_index == k
            && after_waypoints(u, k).moving,
        !u.route_loop && k == u.route@.len() ==> after_waypoints(u, k).wp_index == k - 1
            && !after_waypoints(u, k).moving,
    decreases k,
{
    let n = u.route@.len() as int;
    if k == 0 {
        vstd::arithmetic::div_mod::lemma_small_mod(0, n as nat);
    } else {
        let before = after_waypoints(u, (k - 1) as nat);
        routes_are_visited_in_order(u, (k - 1) as nat);
        if u.route_loop {
            vstd::arithmetic::div_mod::lemma_mod_bound(k as int - 1, n);
        }
        waypoints_follow_the_route(before);
        if u.route_loop {
            vstd::arithmetic::div_mod::lemma_fundamental_div_mod(k as int - 1, n);
            let q = (k - 1) / n;
            let r = (k - 1) % n;
            if r + 1 < n {
                vstd::arithmetic::div_mod::lemma_fundamental_div_mod_converse(k as int, n, q, r + 1);
            } else {
                assert(n * (q + 1) == n * q + n) by (nonlinear_arith);
                vstd::arithmetic::div_mod::lemma_fundamental_div_mod_converse(k as int, n, q + 1, 0);
            }
        }
    }
}

/// A unit goes on only while time passes, it moves and it has a route. It then has arrived where its
/// waypoint is within the radius of its kind, and steers for the waypoint otherwise. The waypoint of
/// an index beyond the route is the last one.
pub proof fn units_go_for_their_waypoint(u: Unit, pos: Point, time_passes: bool)
    ensures
        ({
            let plan = step_plan(u, pos, time_passes);
            let goes = time_passes && u.moving && u.route@.len() > 0;
            let target = if u.wp_index < u.route@.len() {
                u.route@[u.wp_index as int]
            } else {
                u.route@.last()
            };
            let dx = target.x - pos.x;
            let dy = target.y - pos.y;
            let r = 100 * (if u.kind == PlatformKind::Fighter || u.kind == PlatformKind::MPatrol {
                900int
            } else {
                350
            });
            &&& !goes ==> plan == (StepPlan::Stay { stop: !u.moving })
            &&& goes && dx * dx + dy * dy <= r * r ==> plan == StepPlan::Arrived
            &&& goes && dx * dx + dy * dy > r * r ==> plan == (StepPlan::Steer { target })
        }),
{
    let target = if u.wp_index < u.route@.len() {
        u.route@[u.wp_index as int]
    } else {
        u.route@.last()
    };
    let dx = target.x - pos.x;
    let dy = target.y - pos.y;
    assert((pos.x - target.x) * (pos.x - target.x) == dx * dx) by (nonlinear_arith)
        requires
            dx == target.x - pos.x,
    ;
    assert((pos.y - target.y) * (pos.y - target.y) == dy * dy) by (nonlinear_arith)
        requires
            dy == target.y - pos.y,
    ;
    assert(distance2(pos, target) == dx * dx + dy * dy);
}

/// A limited turn goes the same way as one without a limit, as far as it may; and one without a limit
/// ends on the desired heading by less than half a turn to the right or at most half to the left.
pub proof fn limited_turns_go_the_same_way(current: int, desired: int, max_turn: int)
    requires
        0 <= max_turn,
    ensures
        ({
            let full = steered(current, desired, TURN as int) - current;
            let turn = steered(current, desired, max_turn) - current;
            &&& -180_000_000 < full <= 180_000_000
            &&& (current + full - desired) % 360_000_000 == 0
            &&& -max_turn <= full <= max_turn ==> turn == full
            &&& full > max_turn ==> turn == max_turn
            &&& full < -max_turn ==> turn == -max_turn
        }),
{
    let d = desired - current;
    let m = TURN as int;
    vstd::arithmetic::div_mod::lemma_fundamental_div_mod(d, m);
    vstd::arithmetic::div_mod::lemma_mod_bound(d, m);
    let q = d / m;
    vstd::arithmetic::div_mod::lemma_mod_multiples_basic(-q, m);
    vstd::arithmetic::div_mod::lemma_mod_multiples_basic(-q - 1, m);
    assert((-q) * m == -(m * q)) by (nonlinear_arith);
    assert((-q - 1) * m == -(m * q) - m) by (nonlinear_arith);
}

// ---------- the clock ----------

/// The speeds of the clock are one, five, thirty, a hundred and twenty and six hundred; beyond the
/// last one it stays. A clock that is not paused gains the real time as often as its speed says, up
/// to the last time, and nothing but its time changes.
pub proof fn the_clock_runs_at_its_speed(c: SimClock, dt: u32)
    requires
        c.t <= MAX_CLOCK,
    ensures
        ({
            let speed = if c.speed_idx == 0 {
                1int
            } else if c.speed_idx == 1 {
                5
            } else if c.speed_idx == 2 {
                30
            } else if c.speed_idx == 3 {
                120
            } else {
                600
            };
            let after = c.advanced(dt);
            &&& c.factor() == speed
            &&& c.paused ==> after == c
            &&& !c.paused && c.t + speed * dt <= MAX_CLOCK ==> after.t - c.t == speed * dt
            &&& !c.paused && c.t + speed * dt > MAX_CLOCK ==> after.t == MAX_CLOCK
            &&& after.paused == c.paused && after.speed_idx == c.speed_idx
        }),
{
    assert(dt * c.factor() == c.factor() * dt) by (nonlinear_arith);
}

/// The clock reads the days since midnight of the first day and the time of day, two digits for the
/// hour, the minute and the second; the scenario starts at four in the morning.
pub proof fn the_clock_reads_day_and_time(t: int)
    ensures
        ({
            let s = t / 1_000_000 + 14_400;
            let sod = s % 86_400;
            clock_text(t) == seq!['D', '+'] + int_text(s / 86_400) + seq![' '] + two_digits(
                sod / 3600,
            ) + seq![':'] + two_digits((sod / 60) % 60) + seq![':'] + two_digits(sod % 60)
                + seq!['Z']
        }),
{
    let s = t / 1_000_000 + 14_400;
    let sod = s % 86_400;
    two_digits_are_written(sod / 3600);
    assert(sod % 3600 / 60 == (sod / 60) % 60);
    two_digits_are_written((sod / 60) % 60);
    two_digits_are_written(sod % 60);
    reveal_strlit("D+");
    assert("D+"@ =~= seq!['D', '+']);
}

} // verus!
