//! The simulation: platforms, sensors, units and their routes, the clock, and the scenario.
//!
//! Positions are points of the map plane in centimetres, ranges are in metres, times in
//! microseconds since the start of the scenario.

use vstd::prelude::*;

use crate::geo::{copy_points, distance2, distance_squared, Point};
use crate::text::{int_text, padded, push_int, push_padded};
use crate::timeline::floor_div;

verus! {

// ---------- sides and platforms ----------

#[derive(Debug, Clone, Copy, PartialEq, Eq, Structural)]
pub enum Side {
    Blue,
    Red,
    Neutral,
}

#[derive(Debug, Clone, Copy, PartialEq, Eq, Structural)]
pub enum Domain {
    Surface,
    Air,
    Subsurface,
}

#[derive(Debug, Clone, Copy, PartialEq, Eq, Structural)]
pub enum PlatformKind {
    Destroyer,
    Frigate,
    Submarine,
    MPatrol,
    Fighter,
    Facility,
    Merchant,
}

/// The facts about a kind of platform.
pub struct PlatformFacts {
    pub domain: Domain,
    pub short: Seq<char>,
    pub class_name: Seq<char>,
    /// Cruising speed in knots.
    pub cruise_kts: u32,
    /// Rate of turn in tenths of a degree per second.
    pub turn_rate_dps: u32,
    /// The distance in metres at which a waypoint counts as reached.
    pub arrive_radius_m: u32,
}

/// The facts about each kind of platform.
pub open spec fn facts(kind: PlatformKind) -> PlatformFacts {
    match kind {
        PlatformKind::Destroyer => PlatformFacts {
            domain: Domain::Surface,
            short: "DDG"@,
            class_name: "Guided-missile Destroyer"@,
            cruise_kts: 16,
            turn_rate_dps: 15,
            arrive_radius_m: 350,
        },
        PlatformKind::Frigate => PlatformFacts {
            domain: Domain::Surface,
            short: "FFG"@,
            class_name: "Frigate"@,
            cruise_kts: 14,
            turn_rate_dps: 15,
            arrive_radius_m: 350,
        },
        PlatformKind::Submarine => PlatformFacts {
            domain: Domain::Subsurface,
            short: "SSK"@,
            class_name: "Attack Submarine"@,
            cruise_kts: 8,
            turn_rate_dps: 10,
            arrive_radius_m: 350,
        },
        PlatformKind::MPatrol => PlatformFacts {
            domain: Domain::Air,
            short: "MPA"@,
            class_name: "Maritime Patrol Aircraft"@,
            cruise_kts: 260,
            turn_rate_dps: 30,
            arrive_radius_m: 900,
        },
        PlatformKind::Fighter => PlatformFacts {
            domain: Domain::Air,
            short: "FTR"@,
            class_name: "Multirole Fighter"@,
            cruise_kts: 350,
            turn_rate_dps: 60,
            arrive_radius_m: 900,
        },
        PlatformKind::Facility => PlatformFacts {
            domain: Domain::Surface,
            short: "FAC"@,
            class_name: "Fixed Facility"@,
            cruise_kts: 0,
            turn_rate_dps: 0,
            arrive_radius_m: 350,
        },
        PlatformKind::Merchant => PlatformFacts {
            domain: Domain::Surface,
            short: "MV"@,
            class_name: "Merchant Vessel"@,
            cruise_kts: 13,
            turn_rate_dps: 0,
            arrive_radius_m: 350,
        },
    }
}

impl PlatformKind {
    /// Where the platform moves.
    pub fn domain(self) -> (r: Domain)
        ensures
            r == facts(self).domain,
    {
        match self {
            PlatformKind::Destroyer
            | PlatformKind::Frigate
            | PlatformKind::Merchant
            | PlatformKind::Facility => Domain::Surface,
            PlatformKind::MPatrol | PlatformKind::Fighter => Domain::Air,
            PlatformKind::Submarine => Domain::Subsurface,
        }
    }

    /// The short designation.
    pub fn short(self) -> (r: &'static str)
        ensures
            r@ == facts(self).short,
    {
        match self {
            PlatformKind::Destroyer => "DDG",
            PlatformKind::Frigate => "FFG",
            PlatformKind::Submarine => "SSK",
            PlatformKind::MPatrol => "MPA",
            PlatformKind::Fighter => "FTR",
            PlatformKind::Facility => "FAC",
            PlatformKind::Merchant => "MV",
        }
    }

    /// The name of the class.
    pub fn class_name(self) -> (r: &'static str)
        ensures
            r@ == facts(self).class_name,
    {
        match self {
            PlatformKind::Destroyer => "Guided-missile Destroyer",
            PlatformKind::Frigate => "Frigate",
            PlatformKind::Submarine => "Attack Submarine",
            PlatformKind::MPatrol => "Maritime Patrol Aircraft",
            PlatformKind::Fighter => "Multirole Fighter",
            PlatformKind::Facility => "Fixed Facility",
            PlatformKind::Merchant => "Merchant Vessel",
        }
    }

    /// Cruising speed in knots.
    pub fn cruise_kts(self) -> (r: u32)
        ensures
            r == facts(self).cruise_kts,
    {
        match self {
            PlatformKind::Destroyer => 16,
            PlatformKind::Frigate => 14,
            PlatformKind::Submarine => 8,
            PlatformKind::MPatrol => 260,
            PlatformKind::Fighter => 350,
            PlatformKind::Facility => 0,
            PlatformKind::Merchant => 13,
        }
    }

    /// Rate of turn in tenths of a degree per second.
    pub fn turn_rate_dps(self) -> (r: u32)
        ensures
            r == facts(self).turn_rate_dps,
    {
        match self {
            PlatformKind::Destroyer | PlatformKind::Frigate => 15,
            PlatformKind::Submarine => 10,
            PlatformKind::MPatrol => 30,
            PlatformKind::Fighter => 60,
            PlatformKind::Facility | PlatformKind::Merchant => 0,
        }
    }

    /// The distance in metres at which a waypoint counts as reached.
    pub fn arrive_radius_m(self) -> (r: u32)
        ensures
            r == facts(self).arrive_radius_m,
    {
        match self {
            PlatformKind::Fighter | PlatformKind::MPatrol => 900,
            _ => 350,
        }
    }

    /// Whether the platform can move: all but facilities can.
    pub fn mobile(self) -> (r: bool)
        ensures
            r == (self != PlatformKind::Facility),
    {
        match self {
            PlatformKind::Facility => false,
            _ => true,
        }
    }
}

// ---------- detection ----------

/// The ranges of a unit's sensors in metres.
#[derive(Debug, Clone, Copy, PartialEq, Eq, Structural)]
pub struct Sensors {
    /// Against targets in the air and on the surface.
    pub radar_m: Option<u32>,
    /// Against targets under and on the surface.
    pub sonar_m: Option<u32>,
    /// Against targets in the air and on the surface.
    pub visual_m: u32,
}

impl Default for Sensors {
    /// No sensors.
    fn default() -> (r: Self)
        ensures
            r == (Sensors { radar_m: None, sonar_m: None, visual_m: 0 }),
    {
        Sensors { radar_m: None, sonar_m: None, visual_m: 0 }
    }
}

#[derive(Debug, Clone, Copy, PartialEq, Eq, Structural)]
pub enum DetectResult {
    Nothing,
    /// Detected; `classified` where the type is recognised.
    Detected { classified: bool },
}

/// The greatest range at which sensors reach a target of a domain.
pub open spec fn reach(s: Sensors, d: Domain) -> u32 {
    let radar = if d != Domain::Subsurface { opt(s.radar_m) } else { 0 };
    let visual = if d != Domain::Subsurface { s.visual_m } else { 0 };
    let sonar = if d != Domain::Air { opt(s.sonar_m) } else { 0 };
    if radar >= visual && radar >= sonar {
        radar
    } else if visual >= sonar {
        visual
    } else {
        sonar
    }
}

/// A range, nothing where there is no sensor.
pub open spec fn opt(r: Option<u32>) -> u32 {
    match r {
        Some(v) => v,
        None => 0,
    }
}

/// What sensors make of a target of a domain, given the square of its distance in square
/// centimetres: it is detected within their reach and classified within half of it.
pub open spec fn detection(s: Sensors, d: Domain, d2: int) -> DetectResult {
    let r = reach(s, d) * 100;
    if r > 0 && d2 <= r * r {
        DetectResult::Detected { classified: 4 * d2 <= r * r }
    } else {
        DetectResult::Nothing
    }
}

fn reach_of(s: &Sensors, d: Domain) -> (r: u32)
    ensures
        r == reach(*s, d),
{
    let mut best: u32 = 0;
    let seen: bool = match d {
        Domain::Subsurface => false,
        _ => true,
    };
    let heard: bool = match d {
        Domain::Air => false,
        _ => true,
    };
    if seen {
        if let Some(r) = s.radar_m {
            if r > best {
                best = r;
            }
        }
        if s.visual_m > best {
            best = s.visual_m;
        }
    }
    if heard {
        if let Some(r) = s.sonar_m {
            if r > best {
                best = r;
            }
        }
    }
    best
}

/// What sensors make of a target, given the square of its distance in square centimetres.
pub fn detect_at(sensors: &Sensors, target_domain: Domain, d2: i128) -> (r: DetectResult)
    requires
        0 <= d2 <= 0x2_0000_0000_0000_0000,
    ensures
        r == detection(*sensors, target_domain, d2 as int),
{
    let range: i128 = reach_of(sensors, target_domain) as i128 * 100;
    proof {
        assert(0 <= range * range <= 0x1_0000_0000_0000_0000 * 10_000) by (nonlinear_arith)
            requires
                0 <= range <= 0x1_0000_0000 * 100,
        ;
    }
    if range > 0 && d2 <= range * range {
        DetectResult::Detected { classified: 4 * d2 <= range * range }
    } else {
        DetectResult::Nothing
    }
}

/// What sensors make of a target at a distance in metres: detected within the reach of the best
/// sensor for its domain, classified within half of that.
pub fn detect_with(sensors: &Sensors, target_domain: Domain, distance: u32) -> (r: DetectResult)
    ensures
        r == ({
            let best = reach(*sensors, target_domain);
            if best > 0 && distance <= best {
                DetectResult::Detected { classified: 2 * distance <= best }
            } else {
                DetectResult::Nothing
            }
        }),
        r == detection(*sensors, target_domain, (100 * distance) * (100 * distance)),
{
    let best: u32 = reach_of(sensors, target_domain);
    proof {
        lemma_square_order(100 * distance as int, 100 * best as int);
        lemma_square_order(200 * distance as int, 100 * best as int);
        let d = distance as int;
        assert((200 * d) * (200 * d) == 4 * ((100 * d) * (100 * d))) by (nonlinear_arith);
    }
    if best > 0 && distance <= best {
        DetectResult::Detected { classified: 2 * distance as u64 <= best as u64 }
    } else {
        DetectResult::Nothing
    }
}

proof fn lemma_square_order(a: int, b: int)
    requires
        0 <= a,
        0 <= b,
    ensures
        a * a <= b * b <==> a <= b,
{
    assert(a <= b ==> a * a <= b * b) by (nonlinear_arith)
        requires
            0 <= a,
            0 <= b,
    ;
    assert(a > b ==> a * a > b * b) by (nonlinear_arith)
        requires
            0 <= a,
            0 <= b,
    ;
}

/// What is detected at a distance is detected at every shorter one, and what is classified stays
/// classified.
pub proof fn detection_is_monotonic(s: Sensors, d: Domain, near: int, far: int)
    requires
        0 <= near <= far,
    ensures
        detection(s, d, far) != DetectResult::Nothing ==> detection(s, d, near)
            != DetectResult::Nothing,
        detection(s, d, far) == (DetectResult::Detected { classified: true }) ==> detection(s, d, near)
            == (DetectResult::Detected { classified: true }),
{
}

/// Only sonar finds what is under water, and sonar finds nothing in the air.
pub proof fn domains_are_seen_by_their_sensors(s: Sensors, d2: int)
    ensures
        s.sonar_m is None ==> detection(s, Domain::Subsurface, d2) == DetectResult::Nothing,
        s.radar_m is None && s.visual_m == 0 ==> detection(s, Domain::Air, d2)
            == DetectResult::Nothing,
{
}

// ---------- units ----------

/// A weapon, for display: its name and range in kilometres.
#[derive(Debug, Clone)]
pub struct WeaponSpec {
    pub name: &'static str,
    pub range_km: u32,
}

/// A unit of the simulation.
#[derive(Debug)]
pub struct Unit {
    pub side: Side,
    pub kind: PlatformKind,
    pub name: String,
    pub hull: String,
    pub sensors: Sensors,
    pub weapons: Vec<WeaponSpec>,
    /// The route to which the unit returns.
    pub patrol: Vec<Point>,
    /// The route that the unit follows.
    pub route: Vec<Point>,
    pub wp_index: usize,
    pub route_loop: bool,
    pub moving: bool,
    /// Whether the blue side detects the unit now.
    pub detected_by_blue: bool,
    /// Whether the blue side has recognised its type.
    pub classified: bool,
    pub last_seen_t: Option<i64>,
}

/// A full turn, in millionths of a degree.
pub const TURN: i64 = 360_000_000;

/// The turn from one heading to another the shorter way round, in millionths of a degree: more than
/// half a turn to the right, at most half a turn to the left.
pub open spec fn turn_between(current: int, desired: int) -> int {
    let left = (desired - current) % (TURN as int);
    if left > TURN / 2 {
        left - TURN
    } else {
        left
    }
}

/// A heading turned towards another one, by no more than some turn.
pub open spec fn steered(current: int, desired: int, max_turn: int) -> int {
    let turn = turn_between(current, desired);
    if turn > max_turn {
        current + max_turn
    } else if turn < -max_turn {
        current - max_turn
    } else {
        current + turn
    }
}

/// Turns a heading towards another one, by no more than some turn. All are in millionths of a
/// degree, counted to the left.
pub fn steer_turn(current: i64, desired: i64, max_turn: u64) -> (r: i64)
    requires
        -0x4000_0000_0000_0000 <= current <= 0x4000_0000_0000_0000,
    ensures
        r == steered(current as int, desired as int, max_turn as int),
{
    let d: i128 = desired as i128 - current as i128;
    let turns: i128 = floor_div(d, TURN as i128);
    proof {
        vstd::arithmetic::div_mod::lemma_fundamental_div_mod(d as int, TURN as int);
        vstd::arithmetic::div_mod::lemma_mod_bound(d as int, TURN as int);
    }
    let left: i64 = (d - turns * TURN as i128) as i64;
    let turn: i64 = if left > TURN / 2 {
        left - TURN
    } else {
        left
    };
    if turn >= 0 {
        if turn as u64 > max_turn {
            current + max_turn as i64
        } else {
            current + turn
        }
    } else if -turn as u64 > max_turn {
        current - max_turn as i64
    } else {
        current + turn
    }
}

/// No step turns by more than it may or by more than half a turn, and one that may turn far enough
/// ends on the desired heading.
pub proof fn turning_is_limited(current: int, desired: int, max_turn: int)
    requires
        0 <= max_turn,
    ensures
        ({
            let turn = steered(current, desired, max_turn) - current;
            &&& -max_turn <= turn <= max_turn
            &&& -TURN / 2 < turn <= TURN / 2
            &&& max_turn >= TURN / 2 ==> (desired - current - turn) % (TURN as int) == 0
        }),
{
    let d = desired - current;
    vstd::arithmetic::div_mod::lemma_fundamental_div_mod(d, TURN as int);
    vstd::arithmetic::div_mod::lemma_mod_bound(d, TURN as int);
    let q = d / (TURN as int);
    vstd::arithmetic::div_mod::lemma_mod_multiples_basic(q, TURN as int);
    vstd::arithmetic::div_mod::lemma_mod_multiples_basic(q + 1, TURN as int);
}

/// How far a platform may turn in some microseconds, in millionths of a degree.
pub fn turn_allowance(kind: PlatformKind, dt: u64) -> (r: u64)
    requires
        dt <= 0x100_0000_0000_0000,
    ensures
        r == facts(kind).turn_rate_dps * dt / 10,
{
    let rate: u32 = kind.turn_rate_dps();
    assert(rate * dt <= 60 * 0x100_0000_0000_0000) by (nonlinear_arith)
        requires
            rate <= 60,
            dt <= 0x100_0000_0000_0000,
    ;
    rate as u64 * dt / 10
}

/// What a unit does in a step of time.
#[derive(Debug, Clone, Copy, PartialEq, Eq, Structural)]
pub enum StepPlan {
    /// It stays; its speed is set to nothing where it does not move.
    Stay { stop: bool },
    /// It has reached its waypoint.
    Arrived,
    /// It steers towards its waypoint.
    Steer { target: Point },
}

/// Whether a position counts as having reached a target.
pub open spec fn reached(kind: PlatformKind, pos: Point, target: Point) -> bool {
    let r = facts(kind).arrive_radius_m * 100;
    distance2(pos, target) <= r * r
}

/// Whether a position counts as having reached a target.
pub fn has_reached(kind: PlatformKind, pos: Point, target: Point) -> (r: bool)
    ensures
        r == reached(kind, pos, target),
{
    let radius: i128 = kind.arrive_radius_m() as i128 * 100;
    assert(0 <= radius * radius <= 90_000 * 90_000) by (nonlinear_arith)
        requires
            0 <= radius <= 90_000,
    ;
    distance_squared(pos, target) <= radius * radius
}

/// The waypoint of a route at an index, the last one where the index is beyond it.
pub open spec fn waypoint(route: Seq<Point>, index: usize) -> Point {
    route[if index < route.len() { index as int } else { route.len() - 1 }]
}

/// What a unit at a position does in a step of time.
pub open spec fn step_plan(u: Unit, pos: Point, time_passes: bool) -> StepPlan {
    if !time_passes || !u.moving || u.route@.len() == 0 {
        StepPlan::Stay { stop: !u.moving }
    } else if reached(u.kind, pos, waypoint(u.route@, u.wp_index)) {
        StepPlan::Arrived
    } else {
        StepPlan::Steer { target: waypoint(u.route@, u.wp_index) }
    }
}

/// What a unit at a position does in a step of time.
pub fn plan_step(unit: &Unit, pos: Point, time_passes: bool) -> (r: StepPlan)
    ensures
        r == step_plan(*unit, pos, time_passes),
{
    let n: usize = unit.route.len();
    if !time_passes || !unit.moving || n == 0 {
        return StepPlan::Stay { stop: !unit.moving };
    }
    let target = unit.route[if unit.wp_index < n { unit.wp_index } else { n - 1 }];
    if has_reached(unit.kind, pos, target) {
        StepPlan::Arrived
    } else {
        StepPlan::Steer { target }
    }
}

/// The unit with the next waypoint: a patrol starts over, a single route ends with a stop.
pub open spec fn advanced(u: Unit) -> Unit {
    let n = u.route@.len();
    if u.route_loop {
        Unit { wp_index: if n == 0 { 0 } else { ((u.wp_index + 1) % n as int) as usize }, ..u }
    } else if u.wp_index + 1 < n {
        Unit { wp_index: (u.wp_index + 1) as usize, ..u }
    } else {
        Unit { moving: false, ..u }
    }
}

/// Goes on to the next waypoint.
pub fn advance_waypoint(unit: &mut Unit)
    requires
        old(unit).wp_index < usize::MAX,
    ensures
        *final(unit) == advanced(*old(unit)),
{
    let n: usize = unit.route.len();
    if unit.route_loop {
        unit.wp_index = if n == 0 { 0 } else { (unit.wp_index + 1) % n };
    } else if unit.wp_index + 1 < n {
        unit.wp_index = unit.wp_index + 1;
    } else {
        unit.moving = false;
    }
}

/// On a patrol the waypoint stays on the route; a unit on a single route either goes on to the
/// next waypoint or stops at the last one.
pub proof fn advancing_stays_on_the_route(u: Unit)
    requires
        u.route@.len() > 0,
        u.wp_index < u.route@.len() <= usize::MAX,
    ensures
        advanced(u).wp_index < u.route@.len(),
        u.route_loop ==> advanced(u).moving == u.moving,
        !u.route_loop && advanced(u).moving && u.moving ==> advanced(u).wp_index == u.wp_index + 1,
        advanced(u).route == u.route,
{
    if u.route_loop {
        vstd::arithmetic::div_mod::lemma_mod_bound(u.wp_index + 1, u.route@.len() as int);
    }
}

/// Whether one of the observers makes something of a target, and whether one classifies it.
pub open spec fn sighted(
    observers: Seq<(Sensors, Point)>,
    d: Domain,
    pos: Point,
    classified: bool,
) -> bool {
    exists|i: int|
        0 <= i < observers.len() && match detection(
            (#[trigger] observers[i]).0,
            d,
            distance2(observers[i].1, pos),
        ) {
            DetectResult::Detected { classified: c } => !classified || c,
            DetectResult::Nothing => false,
        }
}

/// A unit after the observers of the blue side have looked out. Being detected is of the moment,
/// being classified stays.
pub open spec fn observed(u: Unit, observers: Seq<(Sensors, Point)>, pos: Point, t: i64) -> Unit {
    let d = facts(u.kind).domain;
    if u.side != Side::Red {
        u
    } else if sighted(observers, d, pos, false) {
        Unit {
            detected_by_blue: true,
            classified: u.classified || sighted(observers, d, pos, true),
            last_seen_t: Some(t),
            ..u
        }
    } else {
        Unit { detected_by_blue: false, ..u }
    }
}

/// A unit that was classified stays so, and what is classified now is also detected now.
pub proof fn classification_is_kept(
    u: Unit,
    observers: Seq<(Sensors, Point)>,
    pos: Point,
    t: i64,
)
    ensures
        u.classified ==> observed(u, observers, pos, t).classified,
        observed(u, observers, pos, t).classified && !u.classified ==> observed(
            u,
            observers,
            pos,
            t,
        ).detected_by_blue,
        u.side != Side::Red ==> observed(u, observers, pos, t) == u,
{
    let d = facts(u.kind).domain;
    if sighted(observers, d, pos, true) {
        let i = choose|i: int|
            0 <= i < observers.len() && match detection(
                (#[trigger] observers[i]).0,
                d,
                distance2(observers[i].1, pos),
            ) {
                DetectResult::Detected { classified: c } => c,
                DetectResult::Nothing => false,
            };
        assert(sighted(observers, d, pos, false));
    }
}

/// Whether a unit is on its patrol from its first waypoint on, and the same otherwise.
pub open spec fn on_patrol(before: Unit, after: Unit) -> bool {
    after.route@ == before.patrol@ && after == (Unit {
        route: after.route,
        wp_index: 0,
        route_loop: true,
        moving: true,
        ..before
    })
}

/// Whether a unit is under way to one destination, and the same otherwise.
pub open spec fn under_way(before: Unit, after: Unit, dest: Point) -> bool {
    after.route@ == seq![dest] && after == (Unit {
        route: after.route,
        wp_index: 0,
        route_loop: false,
        moving: true,
        ..before
    })
}

/// The sensors and positions of the first `n` units that are of the blue side.
pub open spec fn blue_of(units: Seq<(Side, Sensors, Point)>, n: int) -> Seq<(Sensors, Point)>
    decreases n,
{
    if n <= 0 {
        Seq::empty()
    } else {
        let before = blue_of(units, n - 1);
        if units[n - 1].0 == Side::Blue {
            before.push((units[n - 1].1, units[n - 1].2))
        } else {
            before
        }
    }
}

/// The observers of the blue side.
pub fn blue_observers(units: &[(Side, Sensors, Point)]) -> (r: Vec<(Sensors, Point)>)
    ensures
        r@ == blue_of(units@, units@.len() as int),
{
    let mut out: Vec<(Sensors, Point)> = Vec::new();
    let mut i: usize = 0;
    while i < units.len()
        invariant
            i <= units@.len(),
            out@ == blue_of(units@, i as int),
        decreases units@.len() - i,
    {
        let blue: bool = match units[i].0 {
            Side::Blue => true,
            _ => false,
        };
        if blue {
            out.push((units[i].1, units[i].2));
        }
        i = i + 1;
    }
    out
}

fn distance_in_range(a: Point, b: Point) -> (r: i128)
    ensures
        r == distance2(a, b),
        0 <= r <= 0x2_0000_0000_0000_0000,
{
    let r: i128 = distance_squared(a, b);
    proof {
        let dx = a.x - b.x;
        let dy = a.y - b.y;
        assert(0 <= dx * dx <= 0x1_0000_0000_0000_0000) by (nonlinear_arith)
            requires
                -0x1_0000_0000 <= dx <= 0x1_0000_0000,
        ;
        assert(0 <= dy * dy <= 0x1_0000_0000_0000_0000) by (nonlinear_arith)
            requires
                -0x1_0000_0000 <= dy <= 0x1_0000_0000,
        ;
    }
    r
}

impl Unit {
    /// Lets the observers of the blue side look out for this unit at a time.
    pub fn observe(&mut self, observers: &[(Sensors, Point)], pos: Point, t: i64)
        ensures
            *final(self) == observed(*old(self), observers@, pos, t),
    {
        let red: bool = match self.side {
            Side::Red => true,
            _ => false,
        };
        if !red {
            return;
        }
        let d: Domain = self.kind.domain();
        let mut seen: bool = false;
        let mut known: bool = false;
        let mut i: usize = 0;
        while i < observers.len()
            invariant
                i <= observers@.len(),
                d == facts(self.kind).domain,
                seen == sighted(observers@.take(i as int), d, pos, false),
                known == sighted(observers@.take(i as int), d, pos, true),
            decreases observers@.len() - i,
        {
            let ghost part = observers@.take(i as int);
            let ghost next = observers@.take(i + 1);
            let r: DetectResult = detect_at(
                &observers[i].0,
                d,
                distance_in_range(observers[i].1, pos),
            );
            proof {
                lemma_sighted_step(observers@, i as int, d, pos, false);
                lemma_sighted_step(observers@, i as int, d, pos, true);
            }
            match r {
                DetectResult::Detected { classified } => {
                    seen = true;
                    if classified {
                        known = true;
                    }
                },
                DetectResult::Nothing => {},
            }
            i = i + 1;
        }
        assert(observers@.take(observers@.len() as int) =~= observers@);
        self.detected_by_blue = seen;
        if seen {
            self.classified = self.classified || known;
            self.last_seen_t = Some(t);
        }
    }

    /// Returns to the patrol, from its first waypoint; nothing happens where there is none.
    pub fn resume_patrol(&mut self)
        ensures
            old(self).patrol@.len() == 0 ==> *final(self) == *old(self),
            old(self).patrol@.len() > 0 ==> on_patrol(*old(self), *final(self)),
    {
        if self.patrol.len() == 0 {
            return;
        }
        self.route = copy_points(&self.patrol);
        self.wp_index = 0;
        self.route_loop = true;
        self.moving = true;
    }

    /// Orders a move to one destination. The patrol is kept.
    pub fn order_move(&mut self, dest: Point)
        ensures
            under_way(*old(self), *final(self), dest),
    {
        let mut route: Vec<Point> = Vec::new();
        route.push(dest);
        assert(route@ =~= seq![dest]);
        self.route = route;
        self.wp_index = 0;
        self.route_loop = false;
        self.moving = true;
    }
}

proof fn lemma_sighted_step(
    observers: Seq<(Sensors, Point)>,
    i: int,
    d: Domain,
    pos: Point,
    c: bool,
)
    requires
        0 <= i < observers.len(),
    ensures
        sighted(observers.take(i + 1), d, pos, c) == (sighted(observers.take(i), d, pos, c)
            || match detection(observers[i].0, d, distance2(observers[i].1, pos)) {
            DetectResult::Detected { classified } => !c || classified,
            DetectResult::Nothing => false,
        }),
{
    let a = observers.take(i);
    let b = observers.take(i + 1);
    if sighted(a, d, pos, c) {
        let j = choose|j: int|
            0 <= j < a.len() && match detection(
                (#[trigger] a[j]).0,
                d,
                distance2(a[j].1, pos),
            ) {
                DetectResult::Detected { classified } => !c || classified,
                DetectResult::Nothing => false,
            };
        assert(b[j] == a[j]);
    }
    if sighted(b, d, pos, c) {
        let j = choose|j: int|
            0 <= j < b.len() && match detection(
                (#[trigger] b[j]).0,
                d,
                distance2(b[j].1, pos),
            ) {
                DetectResult::Detected { classified } => !c || classified,
                DetectResult::Nothing => false,
            };
        if j < i {
            assert(a[j] == b[j]);
        }
    }
    assert(b[i] == observers[i]);
}

// ---------- the clock ----------

/// The speeds of the clock.
pub open spec fn speeds() -> Seq<u32> {
    seq![1u32, 5, 30, 120, 600]
}

/// The number of speeds.
pub const SPEED_COUNT: usize = 5;

/// The last time that the clock shows: some thirty thousand years.
pub const MAX_CLOCK: i64 = 900_000_000_000_000_000;

/// The clock of the scenario.
#[derive(Debug, Clone, Copy, PartialEq, Eq, Structural)]
pub struct SimClock {
    /// The time since the start of the scenario, 2026-09-12 04:00:00 UTC.
    pub t: i64,
    pub speed_idx: usize,
    pub paused: bool,
}

/// The time of a clock as text: the day and the time of day, where the scenario starts at four.
pub open spec fn clock_text(t: int) -> Seq<char> {
    let total = t / 1_000_000 + 4 * 3600;
    let rem = total % 86_400;
    "D+"@ + int_text(total / 86_400) + seq![' '] + padded(rem / 3600, 2) + seq![':'] + padded(
        rem % 3600 / 60,
        2,
    ) + seq![':'] + padded(rem % 60, 2) + seq!['Z']
}

impl Default for SimClock {
    /// The clock at the start of the scenario, running at its first speed.
    fn default() -> (r: Self)
        ensures
            r == (SimClock { t: 0, speed_idx: 0, paused: false }),
    {
        SimClock { t: 0, speed_idx: 0, paused: false }
    }
}

impl SimClock {
    /// How many times as fast as real time the clock runs.
    pub open spec fn factor(self) -> u32 {
        speeds()[if self.speed_idx < SPEED_COUNT { self.speed_idx as int } else { 4 }]
    }

    /// How many times as fast as real time the clock runs.
    pub fn multiplier(&self) -> (r: u32)
        ensures
            r == self.factor(),
            1 <= r <= 600,
    {
        match self.speed_idx {
            0 => 1,
            1 => 5,
            2 => 30,
            3 => 120,
            _ => 600,
        }
    }

    /// The time that passes in the scenario while a real time passes, both in microseconds.
    pub fn sim_dt(&self, real_dt: u32) -> (r: u64)
        ensures
            r == if self.paused {
                0
            } else {
                real_dt * self.factor()
            },
    {
        if self.paused {
            0
        } else {
            let m: u32 = self.multiplier();
            proof {
                assert(real_dt as u64 * m as u64 <= 0xffff_ffff * 600) by (nonlinear_arith)
                    requires
                        real_dt <= 0xffff_ffff,
                        m <= 600,
                ;
            }
            real_dt as u64 * m as u64
        }
    }

    /// The clock after a real time has passed, in microseconds: a paused clock stands, and no clock
    /// runs past the last supported time.
    pub open spec fn advanced(self, real_dt: u32) -> SimClock {
        SimClock {
            t: if self.paused {
                self.t
            } else if self.t + real_dt * self.factor() > MAX_CLOCK {
                MAX_CLOCK
            } else {
                (self.t + real_dt * self.factor()) as i64
            },
            ..self
        }
    }

    /// Lets a real time pass, in microseconds.
    pub fn advance(&mut self, real_dt: u32)
        requires
            old(self).t <= MAX_CLOCK,
        ensures
            old(self).t <= final(self).t <= MAX_CLOCK,
            *final(self) == old(self).advanced(real_dt),
    {
        let dt: u64 = self.sim_dt(real_dt);
        assert(dt <= 0xffff_ffff * 600) by (nonlinear_arith)
            requires
                dt == 0 || dt == real_dt * self.factor(),
                self.factor() <= 600,
                real_dt <= 0xffff_ffff,
        ;
        if self.t as i128 + dt as i128 > MAX_CLOCK as i128 {
            self.t = MAX_CLOCK;
        } else {
            self.t = self.t + dt as i64;
        }
    }

    /// Stops a running clock and starts a stopped one.
    pub fn toggle_pause(&mut self)
        ensures
            *final(self) == (SimClock { paused: !old(self).paused, ..*old(self) }),
    {
        self.paused = !self.paused;
    }

    /// Takes the next speed, up to the last one.
    pub fn faster(&mut self)
        ensures
            *final(self) == (SimClock {
                speed_idx: if old(self).speed_idx < SPEED_COUNT - 1 {
                    (old(self).speed_idx + 1) as usize
                } else {
                    (SPEED_COUNT - 1) as usize
                },
                ..*old(self)
            }),
    {
        self.speed_idx = if self.speed_idx < SPEED_COUNT - 1 {
            self.speed_idx + 1
        } else {
            SPEED_COUNT - 1
        };
    }

    /// Takes the speed before, down to the first one.
    pub fn slower(&mut self)
        ensures
            *final(self) == (SimClock {
                speed_idx: if old(self).speed_idx > 0 {
                    (old(self).speed_idx - 1) as usize
                } else {
                    0
                },
                ..*old(self)
            }),
    {
        self.speed_idx = if self.speed_idx > 0 { self.speed_idx - 1 } else { 0 };
    }

    /// The time as text: "D+2 07:33:05Z".
    pub fn format(&self) -> (r: String)
        ensures
            r@ == clock_text(self.t as int),
    {
        let total: i64 = floor_div(self.t as i128, 1_000_000) as i64 + 14_400;
        let day: i64 = floor_div(total as i128, 86_400) as i64;
        let rem: i64 = total - day * 86_400;
        let mut out: String = "D+".to_owned();
        push_int(&mut out, day);
        out.push(' ');
        push_padded(&mut out, rem / 3600, 2);
        out.push(':');
        push_padded(&mut out, rem % 3600 / 60, 2);
        out.push(':');
        push_padded(&mut out, rem % 60, 2);
        out.push('Z');
        assert(out@ =~= clock_text(self.t as int));
        out
    }
}

// ---------- the scenario ----------

/// A place in thousandths of a degree.
#[derive(Debug, Clone, Copy, PartialEq, Eq, Structural)]
pub struct GeoPos {
    pub lat: i32,
    pub lon: i32,
}

/// A place in thousandths of a degree.
pub open spec fn geo(lat: int, lon: int) -> GeoPos {
    GeoPos { lat: lat as i32, lon: lon as i32 }
}

fn at(lat: i32, lon: i32) -> (r: GeoPos)
    ensures
        r == geo(lat as int, lon as int),
{
    GeoPos { lat, lon }
}

/// A unit of the scenario before it is placed on the map.
#[derive(Debug)]
pub struct UnitSpec {
    pub side: Side,
    pub kind: PlatformKind,
    pub name: &'static str,
    pub hull: &'static str,
    pub sensors: Sensors,
    pub weapons: Vec<WeaponSpec>,
    pub start: GeoPos,
    /// The course in degrees, clockwise from north.
    pub heading_deg: u32,
    pub patrol: Vec<GeoPos>,
    pub patrol_loop: bool,
}

/// What a `UnitSpec` stands for.
pub struct SpecView {
    pub side: Side,
    pub kind: PlatformKind,
    pub name: Seq<char>,
    pub hull: Seq<char>,
    pub sensors: Sensors,
    pub weapons: Seq<(Seq<char>, u32)>,
    pub start: GeoPos,
    pub heading_deg: u32,
    pub patrol: Seq<GeoPos>,
    pub patrol_loop: bool,
}

/// The names and ranges of weapons.
pub open spec fn weapons_view(weapons: Seq<WeaponSpec>) -> Seq<(Seq<char>, u32)> {
    weapons.map_values(|w: WeaponSpec| (w.name@, w.range_km))
}

impl View for UnitSpec {
    type V = SpecView;

    open spec fn view(&self) -> SpecView {
        SpecView {
            side: self.side,
            kind: self.kind,
            name: self.name@,
            hull: self.hull@,
            sensors: self.sensors,
            weapons: weapons_view(self.weapons@),
            start: self.start,
            heading_deg: self.heading_deg,
            patrol: self.patrol@,
            patrol_loop: self.patrol_loop,
        }
    }
}

fn weapon(name: &'static str, range_km: u32) -> (r: WeaponSpec)
    ensures
        r.name@ == name@,
        r.range_km == range_km,
{
    WeaponSpec { name, range_km }
}

/// "Pearl Harbor watch": the blue side guards the harbour, a red surface group comes up from the
/// south-west, a submarine tries to slip in, and a merchant passes.
pub open spec fn scenario_units() -> Seq<SpecView> {
    seq![
        SpecView {
            side: Side::Blue,
            kind: PlatformKind::Destroyer,
            name: "USS HALSEY"@,
            hull: "DDG 97"@,
            sensors: Sensors { radar_m: Some(40000), sonar_m: Some(12000), visual_m: 10000 },
            weapons: seq![("SM-2 SAM"@, 90u32), ("VLA ASROC"@, 22u32), ("5in Gun"@, 24u32)],
            start: geo(21345, -157975),
            heading_deg: 200,
            patrol: seq![geo(21345, -157975), geo(21328, -157995), geo(21352, -157988)],
            patrol_loop: true,
        },
        SpecView {
            side: Side::Blue,
            kind: PlatformKind::MPatrol,
            name: "POSEIDON 41"@,
            hull: "P-8A"@,
            sensors: Sensors { radar_m: Some(90000), sonar_m: None, visual_m: 18000 },
            weapons: seq![("Harpoon SSM"@, 130u32), ("MK 54 Torpedo"@, 10u32)],
            start: geo(21320, -158140),
            heading_deg: 120,
            patrol: seq![geo(21320, -158140), geo(21210, -158020)],
            patrol_loop: true,
        },
        SpecView {
            side: Side::Blue,
            kind: PlatformKind::Submarine,
            name: "USS TEXAS"@,
            hull: "SSN 775"@,
            sensors: Sensors { radar_m: None, sonar_m: Some(18000), visual_m: 0 },
            weapons: seq![("MK 48 ADCAP"@, 35u32)],
            start: geo(21300, -158060),
            heading_deg: 60,
            patrol: seq![geo(21300, -158060), geo(21270, -157980)],
            patrol_loop: true,
        },
        SpecView {
            side: Side::Blue,
            kind: PlatformKind::Facility,
            name: "KOA POINT RADAR"@,
            hull: "SITE"@,
            sensors: Sensors { radar_m: Some(70000), sonar_m: None, visual_m: 12000 },
            weapons: Seq::empty(),
            start: geo(21365, -157900),
            heading_deg: 0,
            patrol: Seq::empty(),
            patrol_loop: false,
        },
        SpecView {
            side: Side::Blue,
            kind: PlatformKind::Facility,
            name: "HICKAM FIELD"@,
            hull: "BASE"@,
            sensors: Sensors { radar_m: Some(30000), sonar_m: None, visual_m: 15000 },
            weapons: Seq::empty(),
            start: geo(21325, -157910),
            heading_deg: 0,
            patrol: Seq::empty(),
            patrol_loop: false,
        },
        SpecView {
            side: Side::Red,
            kind: PlatformKind::Destroyer,
            name: "KRAKEN"@,
            hull: "CG 01"@,
            sensors: Sensors { radar_m: Some(38000), sonar_m: Some(10000), visual_m: 10000 },
            weapons: seq![("Shipwreck SSM"@, 200u32), ("SA-N-6 SAM"@, 80u32)],
            start: geo(21200, -158300),
            heading_deg: 45,
            patrol: seq![geo(21280, -158120)],
            patrol_loop: false,
        },
        SpecView {
            side: Side::Red,
            kind: PlatformKind::Frigate,
            name: "MANTICORE"@,
            hull: "FFG 02"@,
            sensors: Sensors { radar_m: Some(25000), sonar_m: Some(6000), visual_m: 9000 },
            weapons: seq![("Sizzler SSM"@, 100u32)],
            start: geo(21180, -158260),
            heading_deg: 45,
            patrol: seq![geo(21270, -158080)],
            patrol_loop: false,
        },
        SpecView {
            side: Side::Red,
            kind: PlatformKind::Fighter,
            name: "FULCRUM 11"@,
            hull: "MIG-29K"@,
            sensors: Sensors { radar_m: Some(60000), sonar_m: None, visual_m: 12000 },
            weapons: seq![("Archer AAM"@, 60u32)],
            start: geo(21160, -158180),
            heading_deg: 90,
            patrol: seq![geo(21160, -158180), geo(21160, -158060), geo(21240, -158060), geo(21240, -158180)],
            patrol_loop: true,
        },
        SpecView {
            side: Side::Red,
            kind: PlatformKind::Submarine,
            name: "LEVIATHAN"@,
            hull: "SSK 09"@,
            sensors: Sensors { radar_m: None, sonar_m: Some(8000), visual_m: 0 },
            weapons: seq![("Heavyweight Torpedo"@, 40u32)],
            start: geo(21120, -158060),
            heading_deg: 45,
            patrol: seq![geo(21260, -157990)],
            patrol_loop: false,
        },
        SpecView {
            side: Side::Neutral,
            kind: PlatformKind::Merchant,
            name: "MV PACIFIC TRADER"@,
            hull: "IMO 9xxxx"@,
            sensors: Sensors { radar_m: None, sonar_m: None, visual_m: 3000 },
            weapons: Seq::empty(),
            start: geo(21100, -158250),
            heading_deg: 90,
            patrol: seq![geo(21100, -157750)],
            patrol_loop: false,
        },
    ]
}

/// The units of the scenario.
pub fn scenario() -> (r: Vec<UnitSpec>)
    ensures
        r@.map_values(|u: UnitSpec| u@) == scenario_units(),
{
    let r: Vec<UnitSpec> = vec![
        UnitSpec {
            side: Side::Blue,
            kind: PlatformKind::Destroyer,
            name: "USS HALSEY",
            hull: "DDG 97",
            sensors: Sensors { radar_m: Some(40000), sonar_m: Some(12000), visual_m: 10000 },
            weapons: vec![weapon("SM-2 SAM", 90), weapon("VLA ASROC", 22), weapon("5in Gun", 24)],
            start: at(21345, -157975),
            heading_deg: 200,
            patrol: vec![at(21345, -157975), at(21328, -157995), at(21352, -157988)],
            patrol_loop: true,
        },
        UnitSpec {
            side: Side::Blue,
            kind: PlatformKind::MPatrol,
            name: "POSEIDON 41",
            hull: "P-8A",
            sensors: Sensors { radar_m: Some(90000), sonar_m: None, visual_m: 18000 },
            weapons: vec![weapon("Harpoon SSM", 130), weapon("MK 54 Torpedo", 10)],
            start: at(21320, -158140),
            heading_deg: 120,
            patrol: vec![at(21320, -158140), at(21210, -158020)],
            patrol_loop: true,
        },
        UnitSpec {
            side: Side::Blue,
            kind: PlatformKind::Submarine,
            name: "USS TEXAS",
            hull: "SSN 775",
            sensors: Sensors { radar_m: None, sonar_m: Some(18000), visual_m: 0 },
            weapons: vec![weapon("MK 48 ADCAP", 35)],
            start: at(21300, -158060),
            heading_deg: 60,
            patrol: vec![at(21300, -158060), at(21270, -157980)],
            patrol_loop: true,
        },
        UnitSpec {
            side: Side::Blue,
            kind: PlatformKind::Facility,
            name: "KOA POINT RADAR",
            hull: "SITE",
            sensors: Sensors { radar_m: Some(70000), sonar_m: None, visual_m: 12000 },
            weapons: Vec::new(),
            start: at(21365, -157900),
            heading_deg: 0,
            patrol: Vec::new(),
            patrol_loop: false,
        },
        UnitSpec {
            side: Side::Blue,
            kind: PlatformKind::Facility,
            name: "HICKAM FIELD",
            hull: "BASE",
            sensors: Sensors { radar_m: Some(30000), sonar_m: None, visual_m: 15000 },
            weapons: Vec::new(),
            start: at(21325, -157910),
            heading_deg: 0,
            patrol: Vec::new(),
            patrol_loop: false,
        },
        UnitSpec {
            side: Side::Red,
            kind: PlatformKind::Destroyer,
            name: "KRAKEN",
            hull: "CG 01",
            sensors: Sensors { radar_m: Some(38000), sonar_m: Some(10000), visual_m: 10000 },
            weapons: vec![weapon("Shipwreck SSM", 200), weapon("SA-N-6 SAM", 80)],
            start: at(21200, -158300),
            heading_deg: 45,
            patrol: vec![at(21280, -158120)],
            patrol_loop: false,
        },
        UnitSpec {
            side: Side::Red,
            kind: PlatformKind::Frigate,
            name: "MANTICORE",
            hull: "FFG 02",
            sensors: Sensors { radar_m: Some(25000), sonar_m: Some(6000), visual_m: 9000 },
            weapons: vec![weapon("Sizzler SSM", 100)],
            start: at(21180, -158260),
            heading_deg: 45,
            patrol: vec![at(21270, -158080)],
            patrol_loop: false,
        },
        UnitSpec {
            side: Side::Red,
            kind: PlatformKind::Fighter,
            name: "FULCRUM 11",
            hull: "MIG-29K",
            sensors: Sensors { radar_m: Some(60000), sonar_m: None, visual_m: 12000 },
            weapons: vec![weapon("Archer AAM", 60)],
            start: at(21160, -158180),
            heading_deg: 90,
            patrol: vec![at(21160, -158180), at(21160, -158060), at(21240, -158060), at(21240, -158180)],
            patrol_loop: true,
        },
        UnitSpec {
            side: Side::Red,
            kind: PlatformKind::Submarine,
            name: "LEVIATHAN",
            hull: "SSK 09",
            sensors: Sensors { radar_m: None, sonar_m: Some(8000), visual_m: 0 },
            weapons: vec![weapon("Heavyweight Torpedo", 40)],
            start: at(21120, -158060),
            heading_deg: 45,
            patrol: vec![at(21260, -157990)],
            patrol_loop: false,
        },
        UnitSpec {
            side: Side::Neutral,
            kind: PlatformKind::Merchant,
            name: "MV PACIFIC TRADER",
            hull: "IMO 9xxxx",
            sensors: Sensors { radar_m: None, sonar_m: None, visual_m: 3000 },
            weapons: Vec::new(),
            start: at(21100, -158250),
            heading_deg: 90,
            patrol: vec![at(21100, -157750)],
            patrol_loop: false,
        },
    ];
    proof {
        let views = r@.map_values(|u: UnitSpec| u@);
        let want = scenario_units();
        assert forall|i: int| 0 <= i < 10 implies views[i] == want[i] by {
            assert(views[i].weapons =~= want[i].weapons);
            assert(views[i].patrol =~= want[i].patrol);
        }
        assert(views =~= want);
    }
    r
}

/// Puts a unit of the scenario on the map, given its patrol in the plane: it follows its patrol
/// where it has one and can move, and the blue side knows every unit but the red ones.
pub fn unit_from_spec(spec: &UnitSpec, patrol: Vec<Point>) -> (r: Unit)
    ensures
        r.side == spec.side,
        r.kind == spec.kind,
        r.name@ == spec.name@,
        r.hull@ == spec.hull@,
        r.sensors == spec.sensors,
        weapons_view(r.weapons@) == weapons_view(spec.weapons@),
        r.patrol@ == patrol@,
        r.route@ == patrol@,
        r.wp_index == 0,
        r.route_loop == spec.patrol_loop,
        r.moving == (patrol@.len() > 0 && spec.kind != PlatformKind::Facility),
        r.detected_by_blue == (spec.side != Side::Red),
        r.classified == (spec.side != Side::Red),
        r.last_seen_t == if spec.side != Side::Red {
            Some(0i64)
        } else {
            None
        },
{
    let known: bool = match spec.side {
        Side::Red => false,
        _ => true,
    };
    let mut weapons: Vec<WeaponSpec> = Vec::new();
    let mut i: usize = 0;
    while i < spec.weapons.len()
        invariant
            i <= spec.weapons@.len(),
            weapons_view(weapons@) =~= weapons_view(spec.weapons@).take(i as int),
        decreases spec.weapons@.len() - i,
    {
        let w = WeaponSpec { name: spec.weapons[i].name, range_km: spec.weapons[i].range_km };
        let ghost before = weapons@;
        let ghost view = (w.name@, w.range_km);
        weapons.push(w);
        assert(weapons_view(weapons@) =~= weapons_view(before).push(view));
        i = i + 1;
    }
    assert(weapons_view(spec.weapons@).take(spec.weapons@.len() as int) =~= weapons_view(
        spec.weapons@,
    ));
    let route: Vec<Point> = copy_points(&patrol);
    Unit {
        side: spec.side,
        kind: spec.kind,
        name: spec.name.to_owned(),
        hull: spec.hull.to_owned(),
        sensors: spec.sensors,
        weapons,
        moving: patrol.len() > 0 && spec.kind.mobile(),
        patrol,
        route,
        wp_index: 0,
        route_loop: spec.patrol_loop,
        detected_by_blue: known,
        classified: known,
        last_seen_t: if known { Some(0) } else { None },
    }
}

} // verus!
