//! Laws of the panels: buttons, the clock line, the list of contacts, the unit panel and the hit zones.

use vstd::prelude::*;

use crate::geo::{distance2, Point};
use crate::input::{is_over, ScreenPos};
use crate::sim::{
    clock_text, facts, speeds, PlatformKind, Sensors, Side, SimClock, Unit, WeaponSpec,
};
use crate::text::digits;
use crate::ui::{
    button, button_zone, click_at, clock_line_text, contact_text, hint_line, idle_text,
    is_contact_list, left_aligned, listed, nav_line, nav_mode, panel_text, panel_zones, row_at,
    rounded_km, sensor_text, sensors_line, side_name, tiles_line, weapon_list, weapons_line, Contact,
};
use crate::units::tone;

verus! {

// ---------- buttons ----------

/// Whether a place is on button `i`: the buttons stand in a row from 330 pixels on, 66 wide and 6 apart,
/// from 7 to 37 pixels below the upper border.
pub open spec fn on_button(p: ScreenPos, i: int) -> bool {
    330_000 + i * 72_000 <= p.x <= 396_000 + i * 72_000 && 7_000 <= p.y <= 37_000
}

proof fn lemma_zone(p: ScreenPos, i: int)
    requires
        0 <= i < 6,
    ensures
        button_zone(i).has(p) <==> on_button(p, i),
{
}

/// The first button stops and starts the clock. The others start it at the speed that is written on them,
/// each at the next higher speed of the clock. A click beside the buttons changes nothing, and none changes
/// the time.
pub proof fn buttons_do_what_they_say(c: SimClock, p: ScreenPos, i: int)
    requires
        0 <= i < 6,
    ensures
        (forall|j: int| 0 <= j < 6 ==> !#[trigger] on_button(p, j)) ==> click_at(c, p, 6) == c,
        on_button(p, 0) ==> click_at(c, p, 6) == (SimClock { paused: !c.paused, ..c }),
        i > 0 && on_button(p, i) ==> {
            &&& !click_at(c, p, 6).paused
            &&& click_at(c, p, 6).t == c.t
            &&& click_at(c, p, 6).factor() == speeds()[i - 1]
            &&& button(i).0 == digits(speeds()[i - 1] as nat) + seq!['x']
        },
        button(0).0 == seq!['P', 'A', 'U', 'S', 'E'],
        speeds() == seq![1u32, 5, 30, 120, 600],
{
    lemma_zone(p, 0);
    lemma_zone(p, 1);
    lemma_zone(p, 2);
    lemma_zone(p, 3);
    lemma_zone(p, 4);
    lemma_zone(p, 5);
    reveal_with_fuel(click_at, 7);
    reveal_with_fuel(digits, 4);
    reveal_strlit("PAUSE");
    reveal_strlit("1x");
    reveal_strlit("5x");
    reveal_strlit("30x");
    reveal_strlit("120x");
    reveal_strlit("600x");
    assert("PAUSE"@ =~= seq!['P', 'A', 'U', 'S', 'E']);
    assert(digits(1) + seq!['x'] =~= "1x"@);
    assert(digits(5) + seq!['x'] =~= "5x"@);
    assert(digits(30) + seq!['x'] =~= "30x"@);
    assert(digits(120) + seq!['x'] =~= "120x"@);
    assert(digits(600) + seq!['x'] =~= "600x"@);
    if forall|j: int| 0 <= j < 6 ==> !#[trigger] on_button(p, j) {
        assert(!on_button(p, 0) && !on_button(p, 1) && !on_button(p, 2) && !on_button(p, 3)
            && !on_button(p, 4) && !on_button(p, 5));
    }
}

// ---------- the clock line ----------

/// The clock line tells the time, then that the clock stands or how fast it runs, then the view, and on the
/// globe whether satellites are shown and how many there are.
pub proof fn the_clock_line_tells_all(c: SimClock, visible: bool, count: usize)
    ensures
        clock_line_text(SimClock { paused: true, ..c }, false, Some((visible, count))) == clock_text(
            c.t as int,
        ) + seq![' ', ' ', 'P', 'A', 'U', 'S', 'E', 'D', ' ', ' ', 'M', 'A', 'P'],
        clock_line_text(SimClock { paused: false, ..c }, false, Some((visible, count))) == clock_text(
            c.t as int,
        ) + seq![' ', ' ', 'x'] + digits(c.factor() as nat) + seq![' ', ' ', 'M', 'A', 'P'],
        clock_line_text(c, false, None) == clock_line_text(c, false, Some((visible, count))),
        clock_line_text(SimClock { paused: true, ..c }, true, None) == clock_text(c.t as int) + seq![
            ' ',
            ' ',
            'P',
            'A',
            'U',
            'S',
            'E',
            'D',
            ' ',
            ' ',
            'G',
            'L',
            'O',
            'B',
            'E',
        ],
        clock_line_text(SimClock { paused: false, ..c }, true, None) == clock_text(c.t as int) + seq![
            ' ',
            ' ',
            'x',
        ] + digits(c.factor() as nat) + seq![' ', ' ', 'G', 'L', 'O', 'B', 'E'],
        clock_line_text(c, true, Some((true, count))) == clock_line_text(c, true, None) + seq![
            ' ',
            ' ',
            'S',
            'A',
            'T',
            ' ',
            'O',
            'N',
            ' ',
        ] + digits(count as nat),
        clock_line_text(c, true, Some((false, count))) == clock_line_text(c, true, None) + seq![
            ' ',
            ' ',
            'S',
            'A',
            'T',
            ' ',
            'O',
            'F',
            'F',
            ' ',
        ] + digits(count as nat),
{
    reveal_strlit("PAUSED");
    reveal_strlit("x");
    reveal_strlit("GLOBE");
    reveal_strlit("MAP");
    reveal_strlit("  ");
    reveal_strlit("  SAT ");
    reveal_strlit("ON");
    reveal_strlit("OFF");
    reveal_strlit(" ");
    let stopped = SimClock { paused: true, ..c };
    let running = SimClock { paused: false, ..c };
    assert(running.factor() == c.factor());
    assert(clock_line_text(stopped, false, Some((visible, count))) =~= clock_text(c.t as int) + seq![
        ' ',
        ' ',
        'P',
        'A',
        'U',
        'S',
        'E',
        'D',
        ' ',
        ' ',
        'M',
        'A',
        'P',
    ]);
    assert(clock_line_text(running, false, Some((visible, count))) =~= clock_text(c.t as int) + seq![
        ' ',
        ' ',
        'x',
    ] + digits(c.factor() as nat) + seq![' ', ' ', 'M', 'A', 'P']);
    assert(clock_line_text(c, true, Some((true, count))) =~= clock_line_text(c, true, None) + seq![
        ' ',
        ' ',
        'S',
        'A',
        'T',
        ' ',
        'O',
        'N',
        ' ',
    ] + digits(count as nat));
    assert(clock_line_text(c, true, Some((false, count))) =~= clock_line_text(c, true, None) + seq![
        ' ',
        ' ',
        'S',
        'A',
        'T',
        ' ',
        'O',
        'F',
        'F',
        ' ',
    ] + digits(count as nat));
}

// ---------- contacts ----------

proof fn lemma_fill(s: Seq<char>, width: int)
    ensures
        left_aligned(s, width).len() == if s.len() < width {
            width
        } else {
            s.len() as int
        },
        forall|i: int| 0 <= i < s.len() ==> left_aligned(s, width)[i] == s[i],
        forall|i: int| s.len() <= i < left_aligned(s, width).len() ==> left_aligned(s, width)[i] == ' ',
    decreases width - s.len(),
{
    if s.len() < width {
        let t = s.push(' ');
        lemma_fill(t, width);
        assert forall|i: int| 0 <= i < s.len() implies left_aligned(s, width)[i] == s[i] by {
            assert(t[i] == s[i]);
        }
        assert forall|i: int| s.len() <= i < left_aligned(s, width).len() implies left_aligned(
            s,
            width,
        )[i] == ' ' by {
            if i == s.len() {
                assert(t[i] == ' ');
            }
        }
    }
}

/// A row tells what a contact is, in a column of eight characters, and then its range: a designation that
/// is shorter is filled up with blanks, and the range starts behind the column and one blank.
pub proof fn rows_have_two_columns(c: Contact, range: Seq<char>, i: int)
    requires
        0 <= i,
    ensures
        ({
            let name = if c.side == Side::Red && !c.classified {
                seq!['U', 'N', 'K', 'N', 'O', 'W', 'N']
            } else {
                facts(c.kind).short
            };
            name.len() <= 8 ==> {
                &&& contact_text(c, range).len() == 9 + range.len()
                &&& i < 9 ==> contact_text(c, range)[i] == if i < name.len() {
                    name[i]
                } else {
                    ' '
                }
                &&& i < range.len() ==> contact_text(c, range)[9 + i] == range[i]
            }
        }),
{
    reveal_strlit("UNKNOWN");
    reveal_strlit(" ");
    assert("UNKNOWN"@ =~= seq!['U', 'N', 'K', 'N', 'O', 'W', 'N']);
    let name = if c.side == Side::Red && !c.classified {
        "UNKNOWN"@
    } else {
        facts(c.kind).short
    };
    lemma_fill(name, 8);
}

/// A row of the list shows the contact of that place in the list: the text ends with its range and
/// bearing, and no row has one where the list has ended. The nearest contact is in the first row.
pub proof fn rows_show_the_list(
    units: Seq<Contact>,
    ranges: Seq<Seq<char>>,
    origin: Point,
    list: Seq<usize>,
    row: int,
)
    requires
        is_contact_list(units, origin, list),
        units.len() <= usize::MAX,
        0 <= row,
    ensures
        row_at(units, ranges, list, row).1 is Some <==> row < list.len(),
        row >= list.len() ==> row_at(units, ranges, list, row).0.len() == 0,
        row < list.len() ==> {
            let shown = row_at(units, ranges, list, row).0;
            let range = ranges[list[row] as int];
            &&& shown.len() > range.len()
            &&& shown.skip(shown.len() - range.len()) == range
            &&& row_at(units, ranges, list, row).1 == Some(
                tone(units[list[row] as int].side, units[list[row] as int].classified),
            )
            &&& forall|k: int|
                0 <= k < units.len() && listed(#[trigger] units[k]) ==> distance2(
                    origin,
                    units[list[0] as int].pos,
                ) <= distance2(origin, units[k].pos)
        },
{
    reveal_strlit(" ");
    if row < list.len() {
        let shown = row_at(units, ranges, list, row).0;
        let range = ranges[list[row] as int];
        assert(shown.skip(shown.len() - range.len()) =~= range);
        assert forall|k: int| 0 <= k < units.len() && listed(#[trigger] units[k]) implies distance2(
            origin,
            units[list[0] as int].pos,
        ) <= distance2(origin, units[k].pos) by {
            assert(list.contains(k as usize));
            let i = choose|i: int| 0 <= i < list.len() && list[i] == k as usize;
            if i > 0 {
                assert(list[0] < units.len() && list[i] < units.len());
            }
        }
    }
}

/// The list holds every detected red unit and every neutral one, no blue one, each once and the nearest
/// first; there is only one such list.
pub proof fn contacts_are_listed_by_distance(
    units: Seq<Contact>,
    origin: Point,
    a: Seq<usize>,
    b: Seq<usize>,
)
    requires
        is_contact_list(units, origin, a),
        is_contact_list(units, origin, b),
        units.len() <= usize::MAX,
    ensures
        a == b,
        forall|i: int, j: int|
            0 <= i < j < a.len() ==> distance2(origin, units[(#[trigger] a[i]) as int].pos) <= distance2(
                origin,
                units[(#[trigger] a[j]) as int].pos,
            ) && a[i] != a[j],
        forall|k: int|
            0 <= k < units.len() ==> (a.contains(k as usize) <==> ((#[trigger] units[k]).side
                == Side::Red && units[k].detected) || units[k].side == Side::Neutral),
{
    assert forall|k: int| 0 <= k < units.len() implies (a.contains(k as usize) <==> ((
    #[trigger] units[k]).side == Side::Red && units[k].detected) || units[k].side == Side::Neutral) by {
        if a.contains(k as usize) {
            let i = choose|i: int| 0 <= i < a.len() && a[i] == k as usize;
            assert(listed(units[a[i] as int]));
        }
    }
    lemma_lists_agree(units, origin, a, b, a.len() as int);
    if a.len() < b.len() {
        // What the longer list has next is in the shorter one too, so it would be there twice.
        let k = b[a.len() as int];
        assert(listed(units[k as int]));
        assert(a.contains(units_index(k as int)));
        let i = choose|i: int| 0 <= i < a.len() && a[i] == k;
        assert(b[i] == a[i]);
        assert(false);
    }
    assert(a =~= b);
}

spec fn units_index(k: int) -> usize {
    k as usize
}

proof fn lemma_lists_agree(
    units: Seq<Contact>,
    origin: Point,
    a: Seq<usize>,
    b: Seq<usize>,
    n: int,
)
    requires
        is_contact_list(units, origin, a),
        is_contact_list(units, origin, b),
        units.len() <= usize::MAX,
        0 <= n <= a.len(),
    ensures
        n <= b.len(),
        forall|i: int| 0 <= i < n ==> a[i] == b[i],
    decreases n,
{
    if n > 0 {
        lemma_lists_agree(units, origin, a, b, n - 1);
        let m = n - 1;
        let k = a[m];
        assert(listed(units[k as int]));
        assert(b.contains(units_index(k as int)));
        let q = choose|q: int| 0 <= q < b.len() && b[q] == k;
        // It is not among those that the lists share, so it stands here or later.
        if q < m {
            assert(a[q] == b[q]);
            assert(false);
        }
        assert(m < b.len());
        if q > m {
            let l = b[m];
            assert(listed(units[l as int]));
            assert(a.contains(units_index(l as int)));
            let r = choose|r: int| 0 <= r < a.len() && a[r] == l;
            if r < m {
                assert(a[r] == b[r]);
                assert(false);
            }
            if r == m {
                assert(b[m] == b[q]);
                assert(false);
            }
            // Each would stand before the other.
            assert(a[m] == b[q] && a[r] == b[m]);
            assert(false);
        }
    }
}

// ---------- the unit panel ----------

/// Kilometres are the nearest to the metres; half a kilometre goes to the even number.
pub proof fn kilometres_are_the_nearest(m: int)
    requires
        0 <= m,
    ensures
        -500 <= 1000 * rounded_km(m) - m <= 500,
        1000 * rounded_km(m) - m == 500 || 1000 * rounded_km(m) - m == -500 ==> rounded_km(m) % 2 == 0,
{
}

/// Each sensor that a unit has is told with its range in kilometres, radar, sonar and eyes in this order;
/// one that it does not have is left out.
pub proof fn sensors_are_told_with_their_ranges(s: Sensors)
    ensures
        ({
            let km = |m: u32| seq![' '] + digits(rounded_km(m as int) as nat) + seq!['k', 'm'];
            let radar = match s.radar_m {
                Some(m) => seq!['R', 'D', 'R'] + km(m),
                None => Seq::empty(),
            };
            let sonar = match s.sonar_m {
                Some(m) => seq!['S', 'O', 'N', 'A', 'R'] + km(m),
                None => Seq::empty(),
            };
            let eyes = if s.visual_m > 0 {
                seq!['V', 'I', 'S'] + km(s.visual_m)
            } else {
                Seq::empty()
            };
            sensors_line(s) == radar + seq![' ', ' '] + sonar + seq![' ', ' '] + eyes
        }),
{
    reveal_strlit("RDR");
    reveal_strlit("SONAR");
    reveal_strlit("VIS");
    reveal_strlit(" ");
    reveal_strlit("  ");
    reveal_strlit("km");
    let km = |m: u32| seq![' '] + digits(rounded_km(m as int) as nat) + seq!['k', 'm'];
    let radar = match s.radar_m {
        Some(m) => seq!['R', 'D', 'R'] + km(m),
        None => Seq::empty(),
    };
    let sonar = match s.sonar_m {
        Some(m) => seq!['S', 'O', 'N', 'A', 'R'] + km(m),
        None => Seq::empty(),
    };
    let eyes = if s.visual_m > 0 {
        seq!['V', 'I', 'S'] + km(s.visual_m)
    } else {
        Seq::empty()
    };
    assert(sensor_text("RDR"@, s.radar_m) =~= radar);
    assert(sensor_text("SONAR"@, s.sonar_m) =~= sonar);
    assert(sensor_text("VIS"@, Some(s.visual_m)) =~= seq!['V', 'I', 'S'] + km(s.visual_m));
    assert(sensors_line(s) =~= radar + seq![' ', ' '] + sonar + seq![' ', ' '] + eyes);
}

/// A weapon as it is told: its name and its range in kilometres.
pub open spec fn weapon_text(w: WeaponSpec) -> Seq<char> {
    w.name@ + seq![' '] + digits(w.range_km as nat) + seq!['k', 'm']
}

proof fn lemma_weapon_prefix(a: Seq<WeaponSpec>, b: Seq<WeaponSpec>, n: int)
    requires
        0 <= n <= a.len(),
        n <= b.len(),
        forall|i: int| 0 <= i < n ==> #[trigger] a[i] == b[i],
    ensures
        weapon_list(a, n) == weapon_list(b, n),
    decreases n,
{
    if n > 0 {
        lemma_weapon_prefix(a, b, n - 1);
        assert(a[n - 1] == b[n - 1]);
    }
}

/// All weapons are told in order, with slashes between them; without any the line says so.
pub proof fn weapons_are_told_in_order(weapons: Seq<WeaponSpec>, w: WeaponSpec)
    ensures
        weapons_line(Seq::empty()) == seq!['W', 'P', 'N', ':', ' ', 'n', 'o', 'n', 'e'],
        weapons_line(seq![w]) == seq!['W', 'P', 'N', ':', ' '] + weapon_text(w),
        weapons.len() > 0 ==> weapons_line(weapons.push(w)) == weapons_line(weapons) + seq![
            ' ',
            '/',
            ' ',
        ] + weapon_text(w),
{
    reveal_strlit("WPN: none");
    reveal_strlit("WPN: ");
    reveal_strlit(" / ");
    reveal_strlit(" ");
    reveal_strlit("km");
    assert("WPN: none"@ =~= seq!['W', 'P', 'N', ':', ' ', 'n', 'o', 'n', 'e']);
    assert("WPN: "@ =~= seq!['W', 'P', 'N', ':', ' ']);
    assert(" "@ =~= seq![' ']);
    assert("km"@ =~= seq!['k', 'm']);
    assert(" / "@ =~= seq![' ', '/', ' ']);
    assert(weapon_list(seq![w], 1) == weapon_text(w));
    if weapons.len() > 0 {
        let n = weapons.len() as int;
        let all = weapons.push(w);
        lemma_weapon_prefix(weapons, all, n);
        assert(all[n] == w);
        assert(weapon_list(all, n + 1) == weapon_list(weapons, n) + " / "@ + weapon_text(w));
        assert(weapons_line(all) =~= weapons_line(weapons) + seq![' ', '/', ' '] + weapon_text(w));
    }
}

/// A facility is on station; a unit that stands holds; one that moves is on patrol where its route is a
/// loop and in transit where it is not. The waypoint is counted from one, out of all of them, and a route
/// without waypoints counts as one.
pub proof fn the_route_is_told(u: Unit, range: Seq<char>)
    ensures
        nav_mode(u) == if u.kind == PlatformKind::Facility {
            seq!['S', 'T', 'A', 'T', 'I', 'O', 'N']
        } else if !u.moving {
            seq!['H', 'O', 'L', 'D', 'I', 'N', 'G']
        } else if u.route_loop {
            seq!['P', 'A', 'T', 'R', 'O', 'L']
        } else {
            seq!['T', 'R', 'A', 'N', 'S', 'I', 'T']
        },
        nav_line(u, range) == seq!['N', 'A', 'V', ':', ' '] + nav_mode(u) + seq![' ', ' ', 'w', 'p', ' ']
            + digits((u.wp_index + 1) as nat) + seq!['/'] + digits(
            if u.route@.len() == 0 {
                1
            } else {
                u.route@.len()
            },
        ) + seq![' ', ' '] + range,
{
    reveal_strlit("STATION");
    reveal_strlit("HOLDING");
    reveal_strlit("PATROL");
    reveal_strlit("TRANSIT");
    reveal_strlit("NAV: ");
    reveal_strlit("  wp ");
    reveal_strlit("/");
    reveal_strlit("  ");
    assert("STATION"@ =~= seq!['S', 'T', 'A', 'T', 'I', 'O', 'N']);
    assert("HOLDING"@ =~= seq!['H', 'O', 'L', 'D', 'I', 'N', 'G']);
    assert("PATROL"@ =~= seq!['P', 'A', 'T', 'R', 'O', 'L']);
    assert("TRANSIT"@ =~= seq!['T', 'R', 'A', 'N', 'S', 'I', 'T']);
    assert("NAV: "@ =~= seq!['N', 'A', 'V', ':', ' ']);
    assert("  wp "@ =~= seq![' ', ' ', 'w', 'p', ' ']);
    assert("/"@ =~= seq!['/']);
    assert("  "@ =~= seq![' ', ' ']);
}

/// The panel has seven lines. The first two name a unit, its class and its side; of a red unit that is not
/// classified they tell nothing. The place comes next, then sensors, weapons and route. The last line tells
/// of a blue unit what can be ordered, and of any other when it was seen last, where it was seen.
pub proof fn panels_tell_what_is_known(u: Unit, v: Unit, place: Seq<char>, range: Seq<char>)
    ensures
        panel_text(u, place, range).len() == 7,
        u.side == Side::Red && !u.classified && v.side == Side::Red && !v.classified ==> panel_text(
            u,
            place,
            range,
        ).take(2) == panel_text(v, place, range).take(2),
        u.side != Side::Red || u.classified ==> panel_text(u, place, range)[0] == u.hull@ + seq![' ']
            + u.name@,
        u.side == Side::Blue ==> panel_text(u, place, range)[1] == facts(u.kind).class_name + seq![
            ' ',
            '|',
            ' ',
            'B',
            'L',
            'U',
            'E',
        ],
        u.side == Side::Neutral ==> panel_text(u, place, range)[1] == facts(u.kind).class_name + seq![
            ' ',
            '|',
            ' ',
            'N',
            'E',
            'U',
            'T',
            'R',
            'A',
            'L',
        ],
        u.side == Side::Red && u.classified ==> panel_text(u, place, range)[1] == facts(
            u.kind,
        ).class_name + seq![' ', '|', ' ', 'R', 'E', 'D'],
        panel_text(u, place, range)[2] == place,
        panel_text(u, place, range)[3] == sensors_line(u.sensors),
        panel_text(u, place, range)[4] == weapons_line(u.weapons@),
        panel_text(u, place, range)[5] == nav_line(u, range),
        panel_text(u, place, range)[6] == hint_line(u),
        u.side != Side::Blue && u.last_seen_t is None ==> hint_line(u).len() == 0,
        u.side != Side::Blue && u.last_seen_t is Some ==> hint_line(u) == seq![
            'L',
            'a',
            's',
            't',
            ' ',
            's',
            'e',
            'e',
            'n',
            ':',
            ' ',
        ] + clock_text(u.last_seen_t->Some_0 as int),
        u.side == Side::Blue && v.side == Side::Blue ==> hint_line(u) == hint_line(v) && hint_line(
            u,
        ).len() > 0,
{
    reveal_strlit(" ");
    reveal_strlit(" | ");
    reveal_strlit("BLUE");
    reveal_strlit("RED");
    reveal_strlit("NEUTRAL");
    reveal_strlit("Last seen: ");
    reveal_strlit("L-click select | R-click order move | F focus | R resume patrol");
    assert(" "@ =~= seq![' ']);
    assert("Last seen: "@ =~= seq!['L', 'a', 's', 't', ' ', 's', 'e', 'e', 'n', ':', ' ']);
    let class = facts(u.kind).class_name;
    assert(class + " | "@ + "BLUE"@ =~= class + seq![' ', '|', ' ', 'B', 'L', 'U', 'E']);
    assert(class + " | "@ + "RED"@ =~= class + seq![' ', '|', ' ', 'R', 'E', 'D']);
    assert(class + " | "@ + "NEUTRAL"@ =~= class + seq![
        ' ',
        '|',
        ' ',
        'N',
        'E',
        'U',
        'T',
        'R',
        'A',
        'L',
    ]);
    if u.side == Side::Red && !u.classified && v.side == Side::Red && !v.classified {
        assert(panel_text(u, place, range).take(2) =~= panel_text(v, place, range).take(2));
    }
    assert(side_name(u.side).len() > 0);
}

/// While tiles are on their way the panel tells how many; then, where some failed, how many came and how
/// many failed; and nothing where all came.
pub proof fn the_panel_tells_how_loading_goes(inflight: usize, failed: usize, loaded: usize)
    ensures
        inflight > 0 ==> tiles_line(inflight, failed, loaded) == "FETCHING OSM TILES ("@ + digits(
            inflight as nat,
        ) + " in flight)..."@,
        inflight == 0 && failed > 0 ==> tiles_line(inflight, failed, loaded) == "OSM TILES: "@ + digits(
            loaded as nat,
        ) + " loaded, "@ + digits(failed as nat) + " failed"@,
        inflight == 0 && failed == 0 ==> tiles_line(inflight, failed, loaded).len() == 0,
        idle_text(false, inflight, failed, loaded).len() == 7,
        idle_text(true, inflight, failed, loaded).len() == 7,
        idle_text(false, inflight, failed, loaded)[0] == "No unit selected"@,
        idle_text(false, inflight, failed, loaded)[2] == tiles_line(inflight, failed, loaded),
        idle_text(true, inflight, failed, loaded)[0] == "GLOBAL SITUATION"@,
        idle_text(true, inflight, failed, loaded) == idle_text(true, 0, 0, 0),
{
}

// ---------- hit zones ----------

/// The pointer does not reach the map in the top bar of 44 pixels, in the list of contacts at the right
/// border below it, in the unit panel at the left border above the timeline, and in the timeline of 56
/// pixels at the lower border; everywhere else in the window it does.
pub proof fn panels_cover_their_places(p: ScreenPos, w: int, h: int)
    requires
        0 <= w <= 0x8000_0000,
        0 <= h <= 0x8000_0000,
        0 <= p.x <= w,
        0 <= p.y <= h,
    ensures
        is_over(Some(p), panel_zones(w, h)) <==> {
            ||| p.y <= 44_000
            ||| w - 272_000 <= p.x && 52_000 <= p.y <= 382_000
            ||| p.x <= 412_000 && h - 248_000 <= p.y <= h - 56_000
            ||| p.y >= h - 56_000
        },
{
    let z = panel_zones(w, h);
    assert(is_over(Some(p), z) <==> z[0].has(p) || z[1].has(p) || z[2].has(p) || z[3].has(p)) by {
        if is_over(Some(p), z) {
            let i = choose|i: int| 0 <= i < z.len() && (#[trigger] z[i]).has(p);
            assert(i == 0 || i == 1 || i == 2 || i == 3);
        }
    }
}

} // verus!
