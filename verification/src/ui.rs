//! What the panels show: the clock line, the buttons, the list of contacts and the unit panel.
//!
//! Screen lengths are in thousandths of a pixel, map positions in centimetres.

use vstd::prelude::*;

use crate::geo::{distance2, distance_squared, Point};
use crate::input::{ScreenPos, Zone};
use crate::order::{is_order, order_by_key};
use crate::sim::{
    clock_text, facts, PlatformKind, Sensors, Side, SimClock, Unit, WeaponSpec,
    SPEED_COUNT,
};
use crate::text::{digits, push_digits, strings_view};
use crate::units::{tone, tone_of, Tone};

verus! {

/// The height of the top bar.
pub const TOP_H: i64 = 44_000;

/// The place of the buttons.
pub const BTN_X0: i64 = 330_000;

pub const BTN_Y: i64 = 7_000;

pub const BTN_W: i64 = 66_000;

pub const BTN_H: i64 = 30_000;

pub const BTN_GAP: i64 = 6_000;

/// The size of the list of contacts.
pub const CONTACT_W: i64 = 256_000;

pub const CONTACT_H: i64 = 330_000;

/// The size of the unit panel.
pub const PANEL_W: i64 = 396_000;

pub const PANEL_H: i64 = 176_000;

/// The height of the timeline below.
pub const TIMELINE_H: i64 = 56_000;

/// The number of rows of the list of contacts.
pub const ROWS: usize = 14;

/// The number of lines of the unit panel.
pub const PANEL_LINES: usize = 7;

/// The time between two updates of the texts, in microseconds.
pub const REFRESH: u64 = 250_000;

// ---------- buttons ----------

/// What a button does.
#[derive(Debug, Clone, Copy, PartialEq, Eq, Structural)]
pub enum BtnAction {
    Pause,
    Speed(usize),
}

/// The buttons, from left to right.
pub open spec fn button(i: int) -> (Seq<char>, BtnAction) {
    if i == 0 {
        ("PAUSE"@, BtnAction::Pause)
    } else if i == 1 {
        ("1x"@, BtnAction::Speed(0))
    } else if i == 2 {
        ("5x"@, BtnAction::Speed(1))
    } else if i == 3 {
        ("30x"@, BtnAction::Speed(2))
    } else if i == 4 {
        ("120x"@, BtnAction::Speed(3))
    } else {
        ("600x"@, BtnAction::Speed(4))
    }
}

/// The number of buttons.
pub const BUTTONS: usize = 6;

/// The rectangle of a button.
pub open spec fn button_zone(i: int) -> Zone {
    let x = BTN_X0 + i * (BTN_W + BTN_GAP);
    Zone { x0: x as i64, y0: BTN_Y, x1: (x + BTN_W) as i64, y1: (BTN_Y + BTN_H) as i64 }
}

/// The label, action and rectangle of a button.
pub fn button_at(i: usize) -> (r: (&'static str, BtnAction, Zone))
    requires
        i < BUTTONS,
    ensures
        (r.0@, r.1) == button(i as int),
        r.2 == button_zone(i as int),
{
    let x: i64 = BTN_X0 + i as i64 * (BTN_W + BTN_GAP);
    let zone = Zone { x0: x, y0: BTN_Y, x1: x + BTN_W, y1: BTN_Y + BTN_H };
    match i {
        0 => ("PAUSE", BtnAction::Pause, zone),
        1 => ("1x", BtnAction::Speed(0), zone),
        2 => ("5x", BtnAction::Speed(1), zone),
        3 => ("30x", BtnAction::Speed(2), zone),
        4 => ("120x", BtnAction::Speed(3), zone),
        _ => ("600x", BtnAction::Speed(4), zone),
    }
}

/// The clock after a button was clicked: a speed also starts it.
pub open spec fn clicked(c: SimClock, a: BtnAction) -> SimClock {
    match a {
        BtnAction::Pause => SimClock { paused: !c.paused, ..c },
        BtnAction::Speed(i) => SimClock { speed_idx: i, paused: false, ..c },
    }
}

/// The clock after a click at a place: that of the button there, if there is one.
pub open spec fn click_at(c: SimClock, p: ScreenPos, n: int) -> SimClock
    decreases n,
{
    if n <= 0 {
        c
    } else {
        let before = click_at(c, p, n - 1);
        if button_zone(n - 1).has(p) {
            clicked(before, button(n - 1).1)
        } else {
            before
        }
    }
}

/// Applies a click at a place to the clock.
pub fn click_buttons(clock: &mut SimClock, p: ScreenPos)
    ensures
        *final(clock) == click_at(*old(clock), p, BUTTONS as int),
{
    let ghost start = *clock;
    let mut i: usize = 0;
    while i < BUTTONS
        invariant
            i <= BUTTONS,
            *clock == click_at(start, p, i as int),
        decreases BUTTONS - i,
    {
        let (_, action, zone) = button_at(i);
        if zone.contains(p) {
            match action {
                BtnAction::Pause => {
                    clock.paused = !clock.paused;
                },
                BtnAction::Speed(k) => {
                    clock.speed_idx = k;
                    clock.paused = false;
                },
            }
        }
        i = i + 1;
    }
}

/// No two buttons share a place, and every button chooses a speed that the clock has.
pub proof fn buttons_do_not_overlap(i: int, j: int, p: ScreenPos)
    requires
        0 <= i < j < BUTTONS,
    ensures
        !(button_zone(i).has(p) && button_zone(j).has(p)),
        match button(i).1 {
            BtnAction::Speed(k) => k < SPEED_COUNT,
            BtnAction::Pause => true,
        },
{
}

/// Whether a button is lit.
pub open spec fn lit(clock: SimClock, a: BtnAction) -> bool {
    match a {
        BtnAction::Pause => clock.paused,
        BtnAction::Speed(i) => !clock.paused && clock.speed_idx == i,
    }
}

/// Whether a button is lit.
pub fn button_active(clock: &SimClock, a: BtnAction) -> (r: bool)
    ensures
        r == lit(*clock, a),
{
    match a {
        BtnAction::Pause => clock.paused,
        BtnAction::Speed(i) => !clock.paused && clock.speed_idx == i,
    }
}

// ---------- the clock line ----------

/// The clock line: time, speed, view, and on the globe the state of the satellite layer.
pub open spec fn clock_line_text(c: SimClock, on_globe: bool, sats: Option<(bool, usize)>) -> Seq<
    char,
> {
    let speed = if c.paused { "PAUSED"@ } else { "x"@ + digits(c.factor() as nat) };
    let view = if on_globe { "GLOBE"@ } else { "MAP"@ };
    let sat = match sats {
        Some((visible, count)) => if on_globe {
            "  SAT "@ + (if visible { "ON"@ } else { "OFF"@ }) + " "@ + digits(count as nat)
        } else {
            Seq::empty()
        },
        None => Seq::empty(),
    };
    clock_text(c.t as int) + "  "@ + speed + "  "@ + view + sat
}

/// The clock line.
pub fn clock_line(c: &SimClock, on_globe: bool, sats: Option<(bool, usize)>) -> (r: String)
    ensures
        r@ == clock_line_text(*c, on_globe, sats),
{
    let mut out: String = c.format();
    out.append("  ");
    if c.paused {
        out.append("PAUSED");
    } else {
        out.append("x");
        push_digits(&mut out, c.multiplier() as u64);
    }
    out.append("  ");
    out.append(if on_globe { "GLOBE" } else { "MAP" });
    match sats {
        Some((visible, count)) => {
            if on_globe {
                out.append("  SAT ");
                out.append(if visible { "ON" } else { "OFF" });
                out.append(" ");
                push_digits(&mut out, count as u64);
            }
        },
        None => {},
    }
    assert(out@ =~= clock_line_text(*c, on_globe, sats));
    out
}

// ---------- contacts ----------

/// What the list of contacts needs to know of a unit.
#[derive(Debug, Clone, Copy)]
pub struct Contact {
    pub side: Side,
    pub kind: PlatformKind,
    pub detected: bool,
    pub classified: bool,
    pub pos: Point,
}

/// Whether a unit is listed: red ones while they are detected, and neutral ones.
pub open spec fn listed(c: Contact) -> bool {
    (c.side == Side::Red && c.detected) || c.side == Side::Neutral
}

fn is_listed(c: &Contact) -> (r: bool)
    ensures
        r == listed(*c),
{
    match c.side {
        Side::Red => c.detected,
        Side::Neutral => true,
        Side::Blue => false,
    }
}

/// Whether a list of indexes is the list of contacts: every listed unit once, the nearest to a
/// place first, and units at the same distance in their order.
pub open spec fn is_contact_list(units: Seq<Contact>, origin: Point, list: Seq<usize>) -> bool {
    &&& forall|i: int|
        0 <= i < list.len() ==> (#[trigger] list[i]) < units.len() && listed(units[list[i] as int])
    &&& forall|k: int|
        0 <= k < units.len() && listed(#[trigger] units[k]) ==> list.contains(k as usize)
    &&& forall|i: int, j: int|
        0 <= i < j < list.len() ==> {
            let a = distance2(origin, units[(#[trigger] list[i]) as int].pos);
            let b = distance2(origin, units[(#[trigger] list[j]) as int].pos);
            a < b || (a == b && list[i] < list[j])
        }
}

/// The list of contacts, as indexes of the units.
pub fn contact_list(units: &[Contact], origin: Point) -> (r: Vec<usize>)
    ensures
        is_contact_list(units@, origin, r@),
{
    let mut chosen: Vec<usize> = Vec::new();
    let mut keys: Vec<i128> = Vec::new();
    let mut i: usize = 0;
    while i < units.len()
        invariant
            i <= units@.len(),
            chosen@.len() == keys@.len(),
            forall|a: int|
                0 <= a < chosen@.len() ==> (#[trigger] chosen@[a]) < i && listed(
                    units@[chosen@[a] as int],
                ) && keys@[a] == distance2(origin, units@[chosen@[a] as int].pos),
            forall|a: int, b: int|
                0 <= a < b < chosen@.len() ==> (#[trigger] chosen@[a]) < (#[trigger] chosen@[b]),
            forall|k: int|
                0 <= k < i && listed(#[trigger] units@[k]) ==> chosen@.contains(k as usize),
        decreases units@.len() - i,
    {
        if is_listed(&units[i]) {
            let ghost before = chosen@;
            chosen.push(i);
            keys.push(distance_squared(origin, units[i].pos));
            proof {
                assert forall|k: int| 0 <= k < i + 1 && listed(#[trigger] units@[k]) implies chosen@.contains(
                k as usize) by {
                    if k == i {
                        assert(chosen@[before.len() as int] == i);
                    } else {
                        assert(before.contains(k as usize));
                        let a = choose|a: int| 0 <= a < before.len() && before[a] == k as usize;
                        assert(chosen@[a] == k as usize);
                    }
                }
            }
        }
        i = i + 1;
    }
    let order: Vec<usize> = order_by_key(&keys);
    let mut out: Vec<usize> = Vec::new();
    let mut n: usize = 0;
    while n < order.len()
        invariant
            n <= order@.len(),
            chosen@.len() == keys@.len(),
            is_order(keys@, order@),
            out@.len() == n,
            forall|a: int| 0 <= a < n ==> #[trigger] out@[a] == chosen@[order@[a] as int],
        decreases order@.len() - n,
    {
        assert(order@[n as int] < keys@.len());
        out.push(chosen[order[n]]);
        n = n + 1;
    }
    proof {
        assert forall|a: int| 0 <= a < out@.len() implies (#[trigger] out@[a]) < units@.len()
            && listed(units@[out@[a] as int]) by {
            assert(order@[a] < keys@.len());
            assert(chosen@[order@[a] as int] < units@.len());
        }
        assert forall|k: int| 0 <= k < units@.len() && listed(#[trigger] units@[k]) implies out@.contains(
        k as usize) by {
            assert(chosen@.contains(k as usize));
            let a = choose|a: int| 0 <= a < chosen@.len() && chosen@[a] == k as usize;
            assert(order@.contains(a as usize));
            let b = choose|b: int| 0 <= b < order@.len() && order@[b] == a as usize;
            assert(out@[b] == k as usize);
        }
        assert forall|a: int, b: int| 0 <= a < b < out@.len() implies {
            let x = distance2(origin, units@[(#[trigger] out@[a]) as int].pos);
            let y = distance2(origin, units@[(#[trigger] out@[b]) as int].pos);
            x < y || (x == y && out@[a] < out@[b])
        } by {
            let p = order@[a] as int;
            let q = order@[b] as int;
            assert(crate::order::before(keys@, p, q));
            assert(chosen@[p] < units@.len() && chosen@[q] < units@.len());
            if p < q {
                assert(chosen@[p] < chosen@[q]);
            }
        }
    }
    out
}

/// Undetected red units and blue units are not in the list of contacts.
pub proof fn contacts_respect_the_fog_of_war(
    units: Seq<Contact>,
    origin: Point,
    list: Seq<usize>,
    i: int,
)
    requires
        is_contact_list(units, origin, list),
        0 <= i < list.len(),
    ensures
        units[list[i] as int].side != Side::Blue,
        units[list[i] as int].side == Side::Red ==> units[list[i] as int].detected,
{
    assert(listed(units[list[i] as int]));
}

/// Text filled up with blanks to a width.
pub open spec fn left_aligned(s: Seq<char>, width: int) -> Seq<char>
    decreases width - s.len(),
{
    if s.len() >= width {
        s
    } else {
        left_aligned(s.push(' '), width)
    }
}

/// The row of a contact: what it is, and its range and bearing.
pub open spec fn contact_text(c: Contact, range: Seq<char>) -> Seq<char> {
    let name = if c.side == Side::Red && !c.classified {
        "UNKNOWN"@
    } else {
        facts(c.kind).short
    };
    left_aligned(name, 8) + " "@ + range
}

fn push_left_aligned(out: &mut String, s: &str, width: usize)
    ensures
        final(out)@ == old(out)@ + left_aligned(s@, width as int),
{
    let ghost start = out@;
    let mut text: String = s.to_owned();
    let mut n: usize = s.unicode_len();
    while n < width
        invariant
            n == text@.len(),
            left_aligned(s@, width as int) == left_aligned(text@, width as int),
        decreases width - n,
    {
        text.push(' ');
        n = n + 1;
    }
    out.append(text.as_str());
}

/// The row of a contact and its colour.
pub fn contact_row(c: &Contact, range: &str) -> (r: (String, Tone))
    ensures
        r.0@ == contact_text(*c, range@),
        r.1 == tone(c.side, c.classified),
{
    let unknown: bool = match c.side {
        Side::Red => !c.classified,
        _ => false,
    };
    let name: &str = if unknown { "UNKNOWN" } else { c.kind.short() };
    let mut out: String = String::new();
    push_left_aligned(&mut out, name, 8);
    out.append(" ");
    out.append(range);
    assert(out@ =~= contact_text(*c, range@));
    (out, tone_of(c.side, c.classified))
}

/// What a row of the list of contacts shows, given the text for each unit's range and bearing: the
/// contact of that row in its colour, or nothing, where there are fewer.
pub open spec fn row_at(
    units: Seq<Contact>,
    ranges: Seq<Seq<char>>,
    list: Seq<usize>,
    row: int,
) -> (Seq<char>, Option<Tone>) {
    if row < list.len() {
        let c = units[list[row] as int];
        (contact_text(c, ranges[list[row] as int]), Some(tone(c.side, c.classified)))
    } else {
        (Seq::empty(), None)
    }
}

/// The rows of the list of contacts, each with its colour; a row that shows nothing has none.
pub fn contact_rows(units: &[Contact], ranges: &[String], origin: Point) -> (r: Vec<
    (String, Option<Tone>),
>)
    requires
        ranges@.len() == units@.len(),
    ensures
        r@.len() == ROWS,
        exists|list: Seq<usize>| #[trigger]
            is_contact_list(units@, origin, list) && forall|i: int|
                0 <= i < ROWS ==> ((#[trigger] r@[i]).0@, r@[i].1) == row_at(
                    units@,
                    strings_view(ranges@),
                    list,
                    i,
                ),
{
    let list: Vec<usize> = contact_list(units, origin);
    let ghost texts = strings_view(ranges@);
    let mut rows: Vec<(String, Option<Tone>)> = Vec::new();
    let mut i: usize = 0;
    while i < ROWS
        invariant
            i <= ROWS,
            rows@.len() == i,
            is_contact_list(units@, origin, list@),
            ranges@.len() == units@.len(),
            texts == strings_view(ranges@),
            forall|j: int|
                0 <= j < i ==> ((#[trigger] rows@[j]).0@, rows@[j].1) == row_at(
                    units@,
                    texts,
                    list@,
                    j,
                ),
        decreases ROWS - i,
    {
        if i < list.len() {
            let k: usize = list[i];
            assert(texts[k as int] == ranges@[k as int]@);
            let (text, color) = contact_row(&units[k], ranges[k].as_str());
            rows.push((text, Some(color)));
        } else {
            let blank: String = String::new();
            assert(blank@ =~= Seq::<char>::empty());
            rows.push((blank, None));
        }
        i = i + 1;
    }
    rows
}

// ---------- the unit panel ----------

/// The colour of a line of the panel.
#[derive(Debug, Clone, Copy, PartialEq, Eq, Structural)]
pub enum LineTone {
    Dim,
    Bright,
    Highlight,
    Unit(Tone),
}

/// Metres rounded to kilometres; a tie goes to the even number.
pub open spec fn rounded_km(m: int) -> int {
    let k = m / 1000;
    let rest = m % 1000;
    if rest > 500 || (rest == 500 && k % 2 == 1) {
        k + 1
    } else {
        k
    }
}

fn km_of(m: u32) -> (r: u64)
    ensures
        r == rounded_km(m as int),
{
    let k: u64 = (m / 1000) as u64;
    let rest: u32 = m % 1000;
    if rest > 500 || (rest == 500 && k % 2 == 1) {
        k + 1
    } else {
        k
    }
}

/// A range with its name, nothing where there is no sensor.
pub open spec fn sensor_text(name: Seq<char>, range: Option<u32>) -> Seq<char> {
    match range {
        Some(m) => name + " "@ + digits(rounded_km(m as int) as nat) + "km"@,
        None => Seq::empty(),
    }
}

fn push_sensor(out: &mut String, name: &str, range: Option<u32>)
    ensures
        final(out)@ == old(out)@ + sensor_text(name@, range),
{
    let ghost start = out@;
    match range {
        Some(m) => {
            out.append(name);
            out.append(" ");
            push_digits(out, km_of(m));
            out.append("km");
        },
        None => {},
    }
    assert(out@ =~= start + sensor_text(name@, range));
}

/// The line of the sensors.
pub open spec fn sensors_line(s: Sensors) -> Seq<char> {
    sensor_text("RDR"@, s.radar_m) + "  "@ + sensor_text("SONAR"@, s.sonar_m) + "  "@
        + sensor_text(
        "VIS"@,
        if s.visual_m > 0 {
            Some(s.visual_m)
        } else {
            None
        },
    )
}

/// The first `n` weapons with their ranges, separated by slashes.
pub open spec fn weapon_list(weapons: Seq<WeaponSpec>, n: int) -> Seq<char>
    decreases n,
{
    if n <= 0 {
        Seq::empty()
    } else {
        let w = weapons[n - 1];
        let text = w.name@ + " "@ + digits(w.range_km as nat) + "km"@;
        if n == 1 {
            text
        } else {
            weapon_list(weapons, n - 1) + " / "@ + text
        }
    }
}

/// The line of the weapons.
pub open spec fn weapons_line(weapons: Seq<WeaponSpec>) -> Seq<char> {
    if weapons.len() == 0 {
        "WPN: none"@
    } else {
        "WPN: "@ + weapon_list(weapons, weapons.len() as int)
    }
}

/// What a unit is doing.
pub open spec fn nav_mode(u: Unit) -> Seq<char> {
    if u.kind == PlatformKind::Facility {
        "STATION"@
    } else if !u.moving {
        "HOLDING"@
    } else if u.route_loop {
        "PATROL"@
    } else {
        "TRANSIT"@
    }
}

/// The line of the route; `range` is that of the waypoint, empty where there is none.
pub open spec fn nav_line(u: Unit, range: Seq<char>) -> Seq<char> {
    "NAV: "@ + nav_mode(u) + "  wp "@ + digits((u.wp_index + 1) as nat) + "/"@ + digits(
        if u.route@.len() > 1 {
            u.route@.len()
        } else {
            1
        },
    ) + "  "@ + range
}

/// The last line: what can be ordered, or when the unit was last seen.
pub open spec fn hint_line(u: Unit) -> Seq<char> {
    if u.side == Side::Blue {
        "L-click select | R-click order move | F focus | R resume patrol"@
    } else {
        match u.last_seen_t {
            Some(t) => "Last seen: "@ + clock_text(t as int),
            None => Seq::empty(),
        }
    }
}

/// The name of a side.
pub open spec fn side_name(s: Side) -> Seq<char> {
    match s {
        Side::Blue => "BLUE"@,
        Side::Red => "RED"@,
        Side::Neutral => "NEUTRAL"@,
    }
}

/// The lines of the panel for a unit. `place` is the line of its position, speed and course,
/// `range` the range and bearing of its waypoint.
pub open spec fn panel_text(u: Unit, place: Seq<char>, range: Seq<char>) -> Seq<Seq<char>> {
    let unknown = u.side == Side::Red && !u.classified;
    seq![
        if unknown { "UNKNOWN CONTACT"@ } else { u.hull@ + " "@ + u.name@ },
        if unknown {
            "Classification pending"@
        } else {
            facts(u.kind).class_name + " | "@ + side_name(u.side)
        },
        place,
        sensors_line(u.sensors),
        weapons_line(u.weapons@),
        nav_line(u, range),
        hint_line(u),
    ]
}

fn weapons_text(weapons: &Vec<WeaponSpec>) -> (r: String)
    ensures
        r@ == weapons_line(weapons@),
{
    if weapons.len() == 0 {
        return "WPN: none".to_owned();
    }
    let mut out: String = "WPN: ".to_owned();
    let ghost start = out@;
    let mut i: usize = 0;
    assert(out@ =~= start + weapon_list(weapons@, 0));
    while i < weapons.len()
        invariant
            i <= weapons@.len(),
            start == "WPN: "@,
            out@ == start + weapon_list(weapons@, i as int),
        decreases weapons@.len() - i,
    {
        if i > 0 {
            out.append(" / ");
        }
        out.append(weapons[i].name);
        out.append(" ");
        push_digits(&mut out, weapons[i].range_km as u64);
        out.append("km");
        i = i + 1;
        assert(out@ =~= start + weapon_list(weapons@, i as int));
    }
    out
}

fn nav_text(u: &Unit, range: &str) -> (r: String)
    requires
        u.wp_index < usize::MAX,
    ensures
        r@ == nav_line(*u, range@),
{
    let mode: &str = if !u.kind.mobile() {
        "STATION"
    } else if !u.moving {
        "HOLDING"
    } else if u.route_loop {
        "PATROL"
    } else {
        "TRANSIT"
    };
    let n: usize = u.route.len();
    let mut out: String = "NAV: ".to_owned();
    out.append(mode);
    out.append("  wp ");
    push_digits(&mut out, (u.wp_index + 1) as u64);
    out.append("/");
    push_digits(&mut out, if n > 1 { n as u64 } else { 1 });
    out.append("  ");
    out.append(range);
    assert(out@ =~= nav_line(*u, range@));
    out
}

fn hint_text(u: &Unit) -> (r: String)
    ensures
        r@ == hint_line(*u),
{
    let blue: bool = match u.side {
        Side::Blue => true,
        _ => false,
    };
    if blue {
        return "L-click select | R-click order move | F focus | R resume patrol".to_owned();
    }
    match u.last_seen_t {
        Some(t) => {
            let at = SimClock { t, speed_idx: 0, paused: false };
            let mut out: String = "Last seen: ".to_owned();
            out.append(at.format().as_str());
            out
        },
        None => String::new(),
    }
}

/// The lines of the panel for a unit.
pub fn panel_lines(u: &Unit, place: &str, range: &str) -> (r: Vec<String>)
    requires
        u.wp_index < usize::MAX,
    ensures
        strings_view(r@) == panel_text(*u, place@, range@),
{
    let unknown: bool = match u.side {
        Side::Red => !u.classified,
        _ => false,
    };
    let title: String = if unknown {
        "UNKNOWN CONTACT".to_owned()
    } else {
        let mut out: String = u.hull.clone();
        out.append(" ");
        out.append(u.name.as_str());
        out
    };
    let class: String = if unknown {
        "Classification pending".to_owned()
    } else {
        let mut out: String = u.kind.class_name().to_owned();
        out.append(" | ");
        out.append(
            match u.side {
                Side::Blue => "BLUE",
                Side::Red => "RED",
                Side::Neutral => "NEUTRAL",
            },
        );
        out
    };
    let mut sensors: String = String::new();
    push_sensor(&mut sensors, "RDR", u.sensors.radar_m);
    sensors.append("  ");
    push_sensor(&mut sensors, "SONAR", u.sensors.sonar_m);
    sensors.append("  ");
    let visual: Option<u32> = if u.sensors.visual_m > 0 { Some(u.sensors.visual_m) } else { None };
    push_sensor(&mut sensors, "VIS", visual);
    assert(sensors@ =~= sensors_line(u.sensors));
    let mut out: Vec<String> = Vec::new();
    out.push(title);
    out.push(class);
    out.push(place.to_owned());
    out.push(sensors);
    out.push(weapons_text(&u.weapons));
    out.push(nav_text(u, range));
    out.push(hint_text(u));
    assert(strings_view(out@) =~= panel_text(*u, place@, range@));
    out
}

/// The colour of a line of the panel for a unit.
pub fn panel_tone(u: &Unit, line: usize) -> (r: LineTone)
    ensures
        r == if line == 0 {
            LineTone::Unit(tone(u.side, true))
        } else if line == 2 {
            LineTone::Bright
        } else {
            LineTone::Dim
        },
{
    if line == 0 {
        LineTone::Unit(tone_of(u.side, true))
    } else if line == 2 {
        LineTone::Bright
    } else {
        LineTone::Dim
    }
}

/// The third line of the panel on the map without a selection: how loading goes.
pub open spec fn tiles_line(inflight: usize, failed: usize, loaded: usize) -> Seq<char> {
    if inflight > 0 {
        "FETCHING OSM TILES ("@ + digits(inflight as nat) + " in flight)..."@
    } else if failed > 0 {
        "OSM TILES: "@ + digits(loaded as nat) + " loaded, "@ + digits(failed as nat) + " failed"@
    } else {
        Seq::empty()
    }
}

/// The lines of the panel without a selection.
pub open spec fn idle_text(on_globe: bool, inflight: usize, failed: usize, loaded: usize) -> Seq<
    Seq<char>,
> {
    let none = Seq::<char>::empty();
    if on_globe {
        seq![
            "GLOBAL SITUATION"@,
            none,
            "drag rotate | wheel dive in | right-click land"@,
            "dive near the yellow ring (OSM data area)"@,
            none,
            none,
            none,
        ]
    } else {
        seq![
            "No unit selected"@,
            none,
            tiles_line(inflight, failed, loaded),
            none,
            none,
            none,
            none,
        ]
    }
}

fn tiles_text(inflight: usize, failed: usize, loaded: usize) -> (r: String)
    ensures
        r@ == tiles_line(inflight, failed, loaded),
{
    let mut out: String = String::new();
    if inflight > 0 {
        out.append("FETCHING OSM TILES (");
        push_digits(&mut out, inflight as u64);
        out.append(" in flight)...");
    } else if failed > 0 {
        out.append("OSM TILES: ");
        push_digits(&mut out, loaded as u64);
        out.append(" loaded, ");
        push_digits(&mut out, failed as u64);
        out.append(" failed");
    }
    assert(out@ =~= tiles_line(inflight, failed, loaded));
    out
}

/// The lines of the panel without a selection.
pub fn idle_lines(on_globe: bool, inflight: usize, failed: usize, loaded: usize) -> (r: Vec<String>)
    ensures
        strings_view(r@) == idle_text(on_globe, inflight, failed, loaded),
{
    let mut out: Vec<String> = Vec::new();
    if on_globe {
        out.push("GLOBAL SITUATION".to_owned());
        out.push(String::new());
        out.push("drag rotate | wheel dive in | right-click land".to_owned());
        out.push("dive near the yellow ring (OSM data area)".to_owned());
    } else {
        out.push("No unit selected".to_owned());
        out.push(String::new());
        out.push(tiles_text(inflight, failed, loaded));
        out.push(String::new());
    }
    out.push(String::new());
    out.push(String::new());
    out.push(String::new());
    assert(strings_view(out@) =~= idle_text(on_globe, inflight, failed, loaded));
    out
}

/// The colour of a line of the panel without a selection.
pub fn idle_tone(on_globe: bool, line: usize) -> (r: LineTone)
    ensures
        r == if on_globe && line == 0 {
            LineTone::Highlight
        } else {
            LineTone::Dim
        },
{
    if on_globe && line == 0 {
        LineTone::Highlight
    } else {
        LineTone::Dim
    }
}

/// The time since the last update of the texts after some time, and whether they are updated: four
/// times a second. Times are in microseconds.
pub open spec fn refreshed(since: u64, dt: u64) -> (u64, bool) {
    let t = crate::stream::time_sum(since, dt);
    if t >= REFRESH {
        (0, true)
    } else {
        (t, false)
    }
}

/// Lets time pass and says whether the texts are updated.
pub fn refresh_due(since: &mut u64, dt: u64) -> (r: bool)
    ensures
        (*final(since), r) == refreshed(*old(since), dt),
{
    *since = (*since).saturating_add(dt);
    if *since >= REFRESH {
        *since = 0;
        true
    } else {
        false
    }
}

/// The places of the panels in a window: the pointer there does not reach the map. They are the
/// top bar, the list of contacts, the unit panel and the timeline.
pub open spec fn panel_zones(w: int, h: int) -> Seq<Zone> {
    seq![
        Zone { x0: 0, y0: 0, x1: w as i64, y1: TOP_H },
        Zone {
            x0: (w - CONTACT_W - 16_000) as i64,
            y0: (TOP_H + 8_000) as i64,
            x1: w as i64,
            y1: (TOP_H + 8_000 + CONTACT_H) as i64,
        },
        Zone {
            x0: 0,
            y0: (h - PANEL_H - 16_000 - TIMELINE_H) as i64,
            x1: (PANEL_W + 16_000) as i64,
            y1: (h - TIMELINE_H) as i64,
        },
        Zone { x0: 0, y0: (h - TIMELINE_H) as i64, x1: w as i64, y1: h as i64 },
    ]
}

/// The places of the panels in a window.
pub fn hit_zones(w: i64, h: i64) -> (r: Vec<Zone>)
    requires
        0 <= w <= 0x8000_0000,
        0 <= h <= 0x8000_0000,
    ensures
        r@ == panel_zones(w as int, h as int),
{
    let mut out: Vec<Zone> = Vec::new();
    out.push(Zone { x0: 0, y0: 0, x1: w, y1: TOP_H });
    out.push(
        Zone {
            x0: w - CONTACT_W - 16_000,
            y0: TOP_H + 8_000,
            x1: w,
            y1: TOP_H + 8_000 + CONTACT_H,
        },
    );
    out.push(
        Zone {
            x0: 0,
            y0: h - PANEL_H - 16_000 - TIMELINE_H,
            x1: PANEL_W + 16_000,
            y1: h - TIMELINE_H,
        },
    );
    out.push(Zone { x0: 0, y0: h - TIMELINE_H, x1: w, y1: h });
    assert(out@ =~= panel_zones(w as int, h as int));
    out
}

} // verus!
