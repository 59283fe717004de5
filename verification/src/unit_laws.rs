//! Laws of how units appear: symbols, colours, labels and routes.

use vstd::prelude::*;

use crate::geo::Point;
use crate::sim::{PlatformKind, Side, Unit};
use crate::string_laws::{has_word, stands_at, the_first_place_is_found};
use crate::units::{holds, label, legs, legs_from, shown, symbol, tone, MilSymbol, Tone};

verus! {

/// The symbol of a red unit tells nothing before the unit is classified, and then whether it flies, dives
/// or swims. A blue one tells what it is; a facility is a radar where its hull or its name says so. Neutral
/// units are shown as ships.
pub proof fn symbols_tell_what_is_known(u: Unit)
    ensures
        u.side == Side::Neutral ==> symbol(u) == MilSymbol::NeutralSea,
        u.side == Side::Red && !u.classified ==> symbol(u) == MilSymbol::Unknown,
        u.side == Side::Red && u.classified ==> {
            &&& symbol(u) == MilSymbol::HostileAir <==> u.kind == PlatformKind::Fighter || u.kind
                == PlatformKind::MPatrol
            &&& symbol(u) == MilSymbol::HostileSub <==> u.kind == PlatformKind::Submarine
            &&& symbol(u) == MilSymbol::HostileSea <==> u.kind == PlatformKind::Destroyer || u.kind
                == PlatformKind::Frigate || u.kind == PlatformKind::Facility || u.kind
                == PlatformKind::Merchant
        },
        u.side == Side::Blue ==> {
            &&& symbol(u) == MilSymbol::FriendAir <==> u.kind == PlatformKind::Fighter || u.kind
                == PlatformKind::MPatrol
            &&& symbol(u) == MilSymbol::FriendSub <==> u.kind == PlatformKind::Submarine
            &&& symbol(u) == MilSymbol::FriendSea <==> u.kind == PlatformKind::Destroyer || u.kind
                == PlatformKind::Frigate || u.kind == PlatformKind::Merchant
            &&& symbol(u) == MilSymbol::FriendRadar <==> u.kind == PlatformKind::Facility && (u.hull@
                == seq!['R', 'A', 'D', 'A', 'R'] || has_word(
                u.name@,
                seq!['R', 'A', 'D', 'A', 'R'],
            ))
            &&& symbol(u) == MilSymbol::FriendBase <==> u.kind == PlatformKind::Facility && symbol(u)
                != MilSymbol::FriendRadar
        },
{
    reveal_strlit("RADAR");
    let radar = seq!['R', 'A', 'D', 'A', 'R'];
    assert("RADAR"@ =~= radar);
    the_first_place_is_found(u.name@, radar, 0);
    assert(holds(u.name@, radar) <==> has_word(u.name@, radar)) by {
        if holds(u.name@, radar) {
            let k = crate::text::find_from(u.name@, radar, 0)->Some_0;
            assert(stands_at(u.name@, radar, k));
        }
    }
}

/// Blue and neutral units have the colour of their side; red ones have it once they are classified. Only
/// red units are ever hidden, and only while they are not detected.
pub proof fn colours_tell_sides(classified: bool, detected: bool)
    ensures
        tone(Side::Blue, classified) == Tone::Blue,
        tone(Side::Neutral, classified) == Tone::Neutral,
        tone(Side::Red, true) == Tone::Red,
        tone(Side::Red, false) == Tone::Unknown,
        shown(Side::Blue, detected),
        shown(Side::Neutral, detected),
        shown(Side::Red, detected) == detected,
{
}

/// A label ends in a blank and the name of the unit, behind the short designation of its kind; a red unit
/// that is not classified has the word for what is not known in place of all of it.
pub proof fn labels_name_units(u: Unit)
    ensures
        u.side == Side::Red && !u.classified ==> label(u) == seq!['U', 'N', 'K', 'N', 'O', 'W', 'N'],
        u.side != Side::Red || u.classified ==> label(u) == (match u.kind {
            PlatformKind::Destroyer => seq!['D', 'D', 'G', ' '],
            PlatformKind::Frigate => seq!['F', 'F', 'G', ' '],
            PlatformKind::Submarine => seq!['S', 'S', 'K', ' '],
            PlatformKind::MPatrol => seq!['M', 'P', 'A', ' '],
            PlatformKind::Fighter => seq!['F', 'T', 'R', ' '],
            PlatformKind::Facility => seq!['F', 'A', 'C', ' '],
            PlatformKind::Merchant => seq!['M', 'V', ' '],
        }) + u.name@,
{
    reveal_strlit("UNKNOWN");
    reveal_strlit("DDG");
    reveal_strlit("FFG");
    reveal_strlit("SSK");
    reveal_strlit("MPA");
    reveal_strlit("FTR");
    reveal_strlit("FAC");
    reveal_strlit("MV");
    assert("UNKNOWN"@ =~= seq!['U', 'N', 'K', 'N', 'O', 'W', 'N']);
    let head = match u.kind {
        PlatformKind::Destroyer => seq!['D', 'D', 'G', ' '],
        PlatformKind::Frigate => seq!['F', 'F', 'G', ' '],
        PlatformKind::Submarine => seq!['S', 'S', 'K', ' '],
        PlatformKind::MPatrol => seq!['M', 'P', 'A', ' '],
        PlatformKind::Fighter => seq!['F', 'T', 'R', ' '],
        PlatformKind::Facility => seq!['F', 'A', 'C', ' '],
        PlatformKind::Merchant => seq!['M', 'V', ' '],
    };
    if u.side != Side::Red || u.classified {
        assert(label(u) =~= head + u.name@);
    }
}

proof fn lemma_legs(route: Seq<Point>, i: int)
    requires
        0 <= i < route.len(),
    ensures
        legs_from(route, i).len() == route.len() - 1 - i,
        forall|k: int|
            0 <= k < route.len() - 1 - i ==> #[trigger] legs_from(route, i)[k] == (
                route[i + k],
                route[i + k + 1],
            ),
    decreases route.len() - i,
{
    if i + 1 < route.len() {
        lemma_legs(route, i + 1);
        let rest = legs_from(route, i + 1);
        assert forall|k: int| 0 <= k < route.len() - 1 - i implies #[trigger] legs_from(route, i)[k] == (
            route[i + k],
            route[i + k + 1],
        ) by {
            if k > 0 {
                assert(legs_from(route, i)[k] == rest[k - 1]);
            }
        }
    }
}

/// The legs of a blue unit on the move lead from where it is to its waypoint and on from each waypoint to
/// the next, up to the last; on a loop of two or more waypoints one more leg leads from the last back to
/// the first. Units that do not move, have no route or are of another side have no legs.
pub proof fn legs_follow_the_route(u: Unit, pos: Point)
    requires
        u.wp_index < u.route@.len() || u.route@.len() == 0,
    ensures
        u.side != Side::Blue || !u.moving || u.route@.len() == 0 ==> legs(u, pos).len() == 0,
        u.side == Side::Blue && u.moving && u.route@.len() > 0 ==> {
            let (n, w) = (u.route@.len() as int, u.wp_index as int);
            let back = u.route_loop && n >= 2;
            &&& legs(u, pos).len() == n - w + if back {
                1int
            } else {
                0
            }
            &&& legs(u, pos)[0] == (pos, u.route@[w])
            &&& forall|k: int|
                0 < k < n - w ==> #[trigger] legs(u, pos)[k] == (u.route@[w + k - 1], u.route@[w + k])
            &&& back ==> legs(u, pos).last() == (u.route@[n - 1], u.route@[0])
        },
{
    if u.side == Side::Blue && u.moving && u.route@.len() > 0 {
        let (n, w) = (u.route@.len() as int, u.wp_index as int);
        lemma_legs(u.route@, w);
        let on = legs_from(u.route@, w);
        assert forall|k: int| 0 < k < n - w implies #[trigger] legs(u, pos)[k] == (
            u.route@[w + k - 1],
            u.route@[w + k],
        ) by {
            assert(legs(u, pos)[k] == on[k - 1]);
        }
    }
}

} // verus!
