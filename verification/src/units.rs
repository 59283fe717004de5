//! How units appear: their symbols, colours, labels, routes and sensor rings.

use vstd::prelude::*;

use crate::geo::{distance2, distance_squared, Point};
use crate::sim::{facts, Domain, PlatformKind, Side, Unit};
use crate::text::{chars_of, find, find_from, same};

verus! {

/// A symbol: frame and icon by side, domain and what is known.
#[derive(Debug, Clone, Copy, PartialEq, Eq, Structural, Hash)]
pub enum MilSymbol {
    FriendAir,
    FriendSea,
    FriendSub,
    FriendLand,
    FriendRadar,
    FriendBase,
    HostileAir,
    HostileSea,
    HostileSub,
    Unknown,
    NeutralSea,
}

/// Whether text holds a pattern.
pub open spec fn holds(s: Seq<char>, pat: Seq<char>) -> bool {
    find_from(s, pat, 0) is Some
}

/// The symbol of a unit.
pub open spec fn symbol(u: Unit) -> MilSymbol {
    match u.side {
        Side::Red => if !u.classified {
            MilSymbol::Unknown
        } else {
            match facts(u.kind).domain {
                Domain::Air => MilSymbol::HostileAir,
                Domain::Subsurface => MilSymbol::HostileSub,
                Domain::Surface => MilSymbol::HostileSea,
            }
        },
        Side::Neutral => MilSymbol::NeutralSea,
        Side::Blue => match u.kind {
            PlatformKind::Facility => if u.hull@ == "RADAR"@ || holds(u.name@, "RADAR"@) {
                MilSymbol::FriendRadar
            } else {
                MilSymbol::FriendBase
            },
            PlatformKind::Submarine => MilSymbol::FriendSub,
            PlatformKind::MPatrol | PlatformKind::Fighter => MilSymbol::FriendAir,
            _ => MilSymbol::FriendSea,
        },
    }
}

/// The symbol of a unit: a red unit that is not classified shows nothing of its type.
pub fn mil_symbol_of(u: &Unit) -> (r: MilSymbol)
    ensures
        r == symbol(*u),
{
    match u.side {
        Side::Red => {
            if !u.classified {
                MilSymbol::Unknown
            } else {
                match u.kind.domain() {
                    Domain::Air => MilSymbol::HostileAir,
                    Domain::Subsurface => MilSymbol::HostileSub,
                    Domain::Surface => MilSymbol::HostileSea,
                }
            }
        },
        Side::Neutral => MilSymbol::NeutralSea,
        Side::Blue => match u.kind {
            PlatformKind::Facility => {
                let name: Vec<char> = chars_of(u.name.as_str());
                let radar: Vec<char> = chars_of("RADAR");
                if same(u.hull.as_str(), "RADAR") || find(&name, &radar, 0).is_some() {
                    MilSymbol::FriendRadar
                } else {
                    MilSymbol::FriendBase
                }
            },
            PlatformKind::Submarine => MilSymbol::FriendSub,
            PlatformKind::MPatrol | PlatformKind::Fighter => MilSymbol::FriendAir,
            _ => MilSymbol::FriendSea,
        },
    }
}

/// The colour in which a unit is shown.
#[derive(Debug, Clone, Copy, PartialEq, Eq, Structural)]
pub enum Tone {
    Blue,
    Red,
    Neutral,
    /// The colour of what is not known.
    Unknown,
}

/// The colour in which a unit is shown.
pub open spec fn tone(side: Side, classified: bool) -> Tone {
    match side {
        Side::Red => if classified {
            Tone::Red
        } else {
            Tone::Unknown
        },
        Side::Neutral => Tone::Neutral,
        Side::Blue => Tone::Blue,
    }
}

/// The colour in which a unit is shown.
pub fn tone_of(side: Side, classified: bool) -> (r: Tone)
    ensures
        r == tone(side, classified),
{
    match side {
        Side::Red => {
            if classified {
                Tone::Red
            } else {
                Tone::Unknown
            }
        },
        Side::Neutral => Tone::Neutral,
        Side::Blue => Tone::Blue,
    }
}

/// Whether a unit is shown: a red one only while it is detected.
pub open spec fn shown(side: Side, detected: bool) -> bool {
    side != Side::Red || detected
}

/// Whether a unit is shown: a red one only while it is detected.
pub fn is_shown(side: Side, detected: bool) -> (r: bool)
    ensures
        r == shown(side, detected),
{
    match side {
        Side::Red => detected,
        _ => true,
    }
}

/// Nothing of the type of a red unit is shown before it is classified.
pub proof fn fog_of_war_hides_types(a: Unit, b: Unit)
    requires
        a.side == Side::Red,
        b.side == Side::Red,
        !a.classified,
        !b.classified,
    ensures
        symbol(a) == symbol(b),
        tone(a.side, a.classified) == tone(b.side, b.classified),
        label(a) == label(b),
{
}

/// The label of a unit.
pub open spec fn label(u: Unit) -> Seq<char> {
    if u.side == Side::Red && !u.classified {
        "UNKNOWN"@
    } else {
        facts(u.kind).short + seq![' '] + u.name@
    }
}

/// The label of a unit: its short designation and name, where they are known.
pub fn label_of(u: &Unit) -> (r: String)
    ensures
        r@ == label(*u),
{
    let unknown: bool = match u.side {
        Side::Red => !u.classified,
        _ => false,
    };
    if unknown {
        return "UNKNOWN".to_owned();
    }
    let mut out: String = u.kind.short().to_owned();
    out.push(' ');
    out.append(u.name.as_str());
    assert(out@ =~= label(*u));
    out
}

/// The legs from waypoint `i` of a route to its end.
pub open spec fn legs_from(route: Seq<Point>, i: int) -> Seq<(Point, Point)>
    decreases route.len() - i,
{
    if i < 0 || i + 1 >= route.len() {
        Seq::empty()
    } else {
        seq![(route[i], route[i + 1])] + legs_from(route, i + 1)
    }
}

/// The legs of the route of a unit: to its waypoint, on to the end, and back to the start where
/// the route is a loop. Nothing where the unit does not move.
pub open spec fn legs(u: Unit, pos: Point) -> Seq<(Point, Point)> {
    let n = u.route@.len();
    if u.side != Side::Blue || n == 0 || !u.moving {
        Seq::empty()
    } else {
        let there = seq![(pos, u.route@[u.wp_index as int])] + legs_from(
            u.route@,
            u.wp_index as int,
        );
        if u.route_loop && n >= 2 {
            there.push((u.route@[n - 1], u.route@[0]))
        } else {
            there
        }
    }
}

/// The legs of the route of a unit of the blue side.
pub fn route_legs(u: &Unit, pos: Point) -> (r: Vec<(Point, Point)>)
    requires
        u.side == Side::Blue && u.moving && u.route@.len() > 0 ==> u.wp_index < u.route@.len(),
    ensures
        r@ == legs(*u, pos),
{
    let mut out: Vec<(Point, Point)> = Vec::new();
    let blue: bool = match u.side {
        Side::Blue => true,
        _ => false,
    };
    let n: usize = u.route.len();
    if !blue || n == 0 || !u.moving {
        return out;
    }
    out.push((pos, u.route[u.wp_index]));
    let ghost head = out@;
    let mut i: usize = u.wp_index;
    assert(head =~= seq![(pos, u.route@[u.wp_index as int])]);
    while i < n - 1
        invariant
            u.wp_index <= i <= n - 1,
            n == u.route@.len(),
            head + legs_from(u.route@, u.wp_index as int) =~= out@ + legs_from(
                u.route@,
                i as int,
            ),
        decreases n - i,
    {
        let ghost before = out@;
        out.push((u.route[i], u.route[i + 1]));
        assert(before + (seq![(u.route@[i as int], u.route@[i + 1])] + legs_from(u.route@, i + 1))
            =~= out@ + legs_from(u.route@, i + 1));
        i = i + 1;
    }
    assert(out@ + legs_from(u.route@, i as int) =~= out@);
    if u.route_loop && n >= 2 {
        out.push((u.route[n - 1], u.route[0]));
    }
    out
}

/// Whether a leg is long enough to be drawn: at least a metre.
pub open spec fn drawn_leg(a: Point, b: Point) -> bool {
    distance2(a, b) >= 10_000
}

/// Whether a leg is long enough to be drawn: at least a metre.
pub fn leg_shown(a: Point, b: Point) -> (r: bool)
    ensures
        r == drawn_leg(a, b),
{
    distance_squared(a, b) >= 10_000
}

/// The sensor for which a ring is drawn.
#[derive(Debug, Clone, Copy, PartialEq, Eq, Structural)]
pub enum SensorRingKind {
    Radar,
    Sonar,
}

/// The radius of a sensor ring in metres, where it is shown: for units of the blue side only.
pub open spec fn ring(u: Unit, kind: SensorRingKind) -> Option<u32> {
    if u.side == Side::Blue {
        match kind {
            SensorRingKind::Radar => u.sensors.radar_m,
            SensorRingKind::Sonar => u.sensors.sonar_m,
        }
    } else {
        None
    }
}

/// The radius of a sensor ring in metres, where it is shown.
pub fn ring_radius(u: &Unit, kind: SensorRingKind) -> (r: Option<u32>)
    ensures
        r == ring(*u, kind),
{
    match u.side {
        Side::Blue => match kind {
            SensorRingKind::Radar => u.sensors.radar_m,
            SensorRingKind::Sonar => u.sensors.sonar_m,
        },
        _ => None,
    }
}

} // verus!
