//! The satellite layer: two-line element sets, the catalogue made of them, and the rules by
//! which it is loaded and shown.

use vstd::prelude::*;

use crate::civil::days_before_year;
use crate::text::{
    byte_slice, float_text, is_float, lines_from, parse_i64, parse_u64, parsed_int, slice_bytes,
    strings_view, trim, trimmed, trimmed_lines,
};

verus! {

/// Where element sets are loaded from.
pub const TLE_ENDPOINT: &'static str = "https://celestrak.org/NORAD/elements/gp.php";

/// The catalogue number of the space station.
pub const ISS_NORAD_ID: u64 = 25544;

/// How many points of the orbit line are shown.
pub const ORBIT_SAMPLES: usize = 64;

/// The time that the orbit line covers, in minutes.
pub const ORBIT_SPAN_MIN: u32 = 93;

/// The time after which loading is tried again, in nanoseconds.
pub const TLE_RETRY: u64 = 30_000_000_000;

/// The radius of the globe in metres.
pub const GLOBE_RADIUS_M: u64 = 6_371_000;

// ---------- element sets ----------

/// The address of a group of element sets.
pub open spec fn tle_address(group: Seq<char>) -> Seq<char> {
    TLE_ENDPOINT@ + "?GROUP="@ + group + "&FORMAT=tle"@
}

/// The groups that are loaded: space stations and the brightest satellites.
pub fn tle_groups() -> (r: Vec<&'static str>)
    ensures
        r@.len() == 2,
        r@[0]@ == "stations"@,
        r@[1]@ == "visual"@,
{
    vec!["stations", "visual"]
}

/// The name of the file that caches a group of element sets.
pub fn tle_file_name(group: &str) -> (r: String)
    ensures
        r@ == "tle_"@ + group@ + ".txt"@,
{
    let mut out: String = "tle_".to_owned();
    out.append(group);
    out.append(".txt");
    out
}

/// How long cached element sets are used, in seconds: one day.
pub const TLE_TTL: u64 = 86_400;

/// Whether cached element sets of an age may still be used.
pub open spec fn sets_last(age_secs: u64, age_nanos: u32) -> bool {
    age_secs < TLE_TTL || (age_secs == TLE_TTL && age_nanos == 0)
}

/// Whether cached element sets of an age may still be used.
pub fn tle_is_fresh(age_secs: u64, age_nanos: u32) -> (r: bool)
    ensures
        r == sets_last(age_secs, age_nanos),
{
    age_secs < TLE_TTL || (age_secs == TLE_TTL && age_nanos == 0)
}

/// The address of a group of element sets.
pub fn tle_url(group: &str) -> (r: String)
    ensures
        r@ == tle_address(group@),
{
    let mut out: String = TLE_ENDPOINT.to_owned();
    out.append("?GROUP=");
    out.append(group);
    out.append("&FORMAT=tle");
    out
}

/// The seconds from the start of 1970 to the start of a year, nothing for years before.
pub open spec fn year_start(year: int) -> int {
    if year <= 1970 {
        0
    } else {
        86_400 * days_before_year(year)
    }
}

/// The seconds from the start of 1970 to the start of a year, nothing for years before.
pub fn year_start_unix(year: i64) -> (r: i64)
    requires
        year_start(year as int) <= i64::MAX,
    ensures
        r == year_start(year as int),
{
    if year <= 1970 {
        return 0;
    }
    let y: i128 = year as i128;
    let days: i128 = 365 * (y - 1970) + (y - 1) / 4 - (y - 1) / 100 + (y - 1) / 400 - 477;
    proof {
        lemma_days_not_negative(year as int);
    }
    (86_400 * days) as i64
}

proof fn lemma_days_not_negative(y: int)
    requires
        y > 1970,
    ensures
        days_before_year(y) > 0,
    decreases y,
{
    crate::civil::years_have_365_or_366_days(y - 1);
    if y > 1971 {
        lemma_days_not_negative(y - 1);
    } else {
        assert(days_before_year(1970) == 0);
    }
}

/// The epoch of an element set: the start of its year in seconds since the start of 1970, and
/// the day of that year as decimal text, where the first of January is day one.
#[derive(Debug)]
pub struct TleEpoch {
    pub year_start: i64,
    pub doy: String,
}

/// What a `TleEpoch` stands for.
pub struct EpochView {
    pub year_start: int,
    pub doy: Seq<char>,
}

impl View for TleEpoch {
    type V = EpochView;

    open spec fn view(&self) -> EpochView {
        EpochView { year_start: self.year_start as int, doy: self.doy@ }
    }
}

/// The year for which two digits stand: those from 57 on are of the last century.
pub open spec fn full_year(yy: int) -> int {
    if yy >= 57 {
        1900 + yy
    } else {
        2000 + yy
    }
}

/// The epoch in a first line: two digits of the year in columns 19 and 20, the day of the year
/// in columns 21 to 32.
pub open spec fn epoch_in(line1: Seq<char>) -> Option<EpochView> {
    if vstd::utf8::encode_utf8(line1).len() < 32 {
        None
    } else {
        match byte_slice(line1, 18, 20) {
            None => None,
            Some(year_text) => match parsed_int(year_text, i64::MIN as int, i64::MAX as int) {
                None => None,
                Some(yy) => match byte_slice(line1, 20, 32) {
                    None => None,
                    Some(day_text) => if is_float(trimmed(day_text)) {
                        Some(
                            EpochView {
                                year_start: year_start(full_year(yy)),
                                doy: trimmed(day_text),
                            },
                        )
                    } else {
                        None
                    },
                },
            },
        }
    }
}

/// The number of a text of up to two bytes is small.
proof fn lemma_two_digits(line1: Seq<char>)
    ensures
        match byte_slice(line1, 18, 20) {
            Some(t) => match parsed_int(t, i64::MIN as int, i64::MAX as int) {
                Some(yy) => -100 < yy < 100,
                None => true,
            },
            None => true,
        },
{
    let bytes = vstd::utf8::encode_utf8(line1);
    vstd::utf8::encode_utf8_valid_utf8(line1);
    if byte_slice(line1, 18, 20) is Some {
        let part = bytes.subrange(18, 20);
        let t = vstd::utf8::decode_utf8(part);
        crate::text::lemma_slice_valid(line1, 18, 20);
        lemma_decode_len(part);
        if parsed_int(t, i64::MIN as int, i64::MAX as int) is Some {
            let body = if t[0] == '-' || t[0] == '+' { t.skip(1) } else { t };
            lemma_numeral_bound(body);
        }
    }
}

proof fn lemma_decode_len(bytes: Seq<u8>)
    requires
        vstd::utf8::valid_utf8(bytes),
    ensures
        vstd::utf8::decode_utf8(bytes).len() <= bytes.len(),
    decreases bytes.len(),
{
    if bytes.len() > 0 {
        lemma_decode_len(vstd::utf8::pop_first_scalar(bytes));
    }
}

proof fn lemma_numeral_bound(s: Seq<char>)
    requires
        crate::text::is_numeral(s),
        s.len() <= 2,
    ensures
        crate::text::numeral_value(s) < 100,
{
    reveal_with_fuel(crate::text::numeral_value, 4);
    assert(crate::text::is_digit(s[0]));
    assert(crate::text::is_digit(s.last()));
}

/// The epoch in the first line of an element set.
pub fn tle_epoch_unix(line1: &str) -> (r: Option<TleEpoch>)
    ensures
        match epoch_in(line1@) {
            None => r is None,
            Some(e) => r is Some && r->Some_0@ == e,
        },
{
    if line1.as_bytes().len() < 32 {
        return None;
    }
    proof {
        lemma_two_digits(line1@);
    }
    let yy: i64 = match slice_bytes(line1, 18, 20) {
        None => { return None; },
        Some(t) => match parse_i64(t) {
            None => { return None; },
            Some(yy) => yy,
        },
    };
    let year: i64 = if yy >= 57 { 1900 + yy } else { 2000 + yy };
    let doy: String = match slice_bytes(line1, 20, 32) {
        None => { return None; },
        Some(t) => trim(t),
    };
    if !float_text(doy.as_str()) {
        return None;
    }
    proof {
        assert(days_before_year(year as int) <= 365 * 130 + 1000) by {
            assert(year <= 2099);
        }
    }
    Some(TleEpoch { year_start: year_start_unix(year), doy })
}

/// The catalogue number in a first line: columns 3 to 7, nothing where they hold no number.
pub open spec fn norad_in(line1: Seq<char>) -> int {
    match byte_slice(line1, 2, 7) {
        None => 0,
        Some(t) => match parsed_int(trimmed(t), 0, u64::MAX as int) {
            Some(n) => n,
            None => 0,
        },
    }
}

fn norad_of(line1: &str) -> (r: u64)
    ensures
        r == norad_in(line1@),
{
    match slice_bytes(line1, 2, 7) {
        None => 0,
        Some(t) => match parse_u64(trim(t).as_str()) {
            Some(n) => n,
            None => 0,
        },
    }
}

/// Whether a line of full length ends in a character that can be a checksum: no character below
/// the digits.
pub open spec fn may_have_checksum(line: Seq<char>) -> bool {
    let bytes = vstd::utf8::encode_utf8(line);
    bytes.len() == 69 ==> bytes[68] >= 48
}

fn has_checksum(line: &str) -> (r: bool)
    ensures
        r == may_have_checksum(line@),
{
    let b: &[u8] = line.as_bytes();
    b.len() != 69 || b[68] >= 48
}

/// A named element set.
#[derive(Debug)]
pub struct TleBlock {
    pub name: String,
    pub line1: String,
    pub line2: String,
    pub norad_id: u64,
    pub epoch: TleEpoch,
}

/// What a `TleBlock` stands for.
pub struct BlockView {
    pub name: Seq<char>,
    pub line1: Seq<char>,
    pub line2: Seq<char>,
    pub norad_id: int,
    pub epoch: EpochView,
}

impl View for TleBlock {
    type V = BlockView;

    open spec fn view(&self) -> BlockView {
        BlockView {
            name: self.name@,
            line1: self.line1@,
            line2: self.line2@,
            norad_id: self.norad_id as int,
            epoch: self.epoch@,
        }
    }
}

/// Whether text starts with a character.
pub open spec fn starts(s: Seq<char>, c: char) -> bool {
    s.len() > 0 && s[0] == c
}

fn starts_with(s: &str, c: char) -> (r: bool)
    ensures
        r == starts(s@, c),
{
    s.unicode_len() > 0 && s.get_char(0) == c
}

/// The element sets in the lines from index `i` on: a name, a line that starts with 1 and a line
/// that starts with 2. Lines that are no such triple are passed over one by one; a triple whose
/// epoch or checksum cannot be read is passed over as a whole.
pub open spec fn blocks_from(lines: Seq<Seq<char>>, i: int) -> Seq<BlockView>
    decreases lines.len() - i,
{
    if i < 0 || i + 2 >= lines.len() {
        Seq::empty()
    } else if !starts(lines[i + 1], '1') || !starts(lines[i + 2], '2') {
        blocks_from(lines, i + 1)
    } else {
        let rest = blocks_from(lines, i + 3);
        match epoch_in(lines[i + 1]) {
            Some(epoch) => if may_have_checksum(lines[i + 1]) && may_have_checksum(lines[i + 2]) {
                seq![
                    BlockView {
                        name: trimmed(lines[i]),
                        line1: lines[i + 1],
                        line2: lines[i + 2],
                        norad_id: norad_in(lines[i + 1]),
                        epoch,
                    },
                ] + rest
            } else {
                rest
            },
            None => rest,
        }
    }
}

/// The element sets of a list.
pub open spec fn blocks_view(blocks: Seq<TleBlock>) -> Seq<BlockView> {
    blocks.map_values(|b: TleBlock| b@)
}

/// The element sets of a text.
pub fn tle_blocks(text: &str) -> (r: Vec<TleBlock>)
    ensures
        blocks_view(r@) == blocks_from(lines_from(text@, 0), 0),
{
    let lines: Vec<String> = trimmed_lines(text);
    let ghost all = lines_from(text@, 0);
    let n: usize = lines.len();
    let mut out: Vec<TleBlock> = Vec::new();
    let mut i: usize = 0;
    assert(blocks_view(out@) + blocks_from(all, 0) =~= blocks_from(all, 0));
    while n >= 2 && i < n - 2
        invariant
            n == lines@.len(),
            n >= 2 ==> i <= n,
            n < 2 ==> i == 0,
            all == strings_view(lines@),
            blocks_from(all, 0) == blocks_view(out@) + blocks_from(all, i as int),
        decreases n - i,
    {
        proof {
            assert(all[i as int] == lines@[i as int]@);
            assert(all[i + 1] == lines@[i + 1]@);
            assert(all[i + 2] == lines@[i + 2]@);
        }
        let line1: &str = lines[i + 1].as_str();
        let line2: &str = lines[i + 2].as_str();
        if !starts_with(line1, '1') || !starts_with(line2, '2') {
            i = i + 1;
        } else {
            match tle_epoch_unix(line1) {
                Some(epoch) => {
                    if has_checksum(line1) && has_checksum(line2) {
                        let block = TleBlock {
                            name: trim(lines[i].as_str()),
                            line1: line1.to_owned(),
                            line2: line2.to_owned(),
                            norad_id: norad_of(line1),
                            epoch,
                        };
                        let ghost before = out@;
                        let ghost view = block@;
                        out.push(block);
                        proof {
                            assert(blocks_view(out@) =~= blocks_view(before).push(view));
                            let rest = blocks_from(all, i + 3);
                            assert(blocks_view(before) + (seq![view] + rest) =~= blocks_view(out@)
                                + rest);
                        }
                    }
                },
                None => {},
            }
            i = i + 3;
        }
    }
    assert(blocks_view(out@) + Seq::<BlockView>::empty() =~= blocks_view(out@));
    out
}

// ---------- orbits ----------

#[verifier::external_type_specification]
#[verifier::external_body]
pub struct ExElements(sgp4::Elements);

#[verifier::external_type_specification]
#[verifier::external_body]
pub struct ExConstants(sgp4::Constants);

/// Whether `sgp4::Elements::from_tle` may read a name and two lines as some elements. Floating-point
/// powers go into them, so they need not be the same on every machine.
pub uninterp spec fn reads_as(
    name: Seq<char>,
    line1: Seq<char>,
    line2: Seq<char>,
    elements: sgp4::Elements,
) -> bool;

/// Whether `sgp4::Constants::from_elements` may give some constants, or none, for elements.
/// Floating-point sines and powers go into them, so they need not be the same on every machine.
pub uninterp spec fn orbits_as(elements: sgp4::Elements, orbit: Option<sgp4::Constants>) -> bool;

/// `sgp4::Elements::from_tle`. Claimed: what it gives is read from the name and the two lines, and
/// it fails only where they cannot be read at all. What the elements hold is left unsaid. It would
/// overflow on a checksum character below the digits, so such lines are left out.
#[verifier::external_body]
fn read_elements(name: String, line1: &str, line2: &str) -> (r: Option<sgp4::Elements>)
    requires
        may_have_checksum(line1@),
        may_have_checksum(line2@),
    ensures
        match r {
            Some(e) => reads_as(name@, line1@, line2@, e),
            None => forall|e: sgp4::Elements| !reads_as(name@, line1@, line2@, e),
        },
{
    sgp4::Elements::from_tle(Some(name), line1.as_bytes(), line2.as_bytes()).ok()
}

/// `sgp4::Constants::from_elements`. Claimed: what it gives comes from the elements. What the
/// constants hold, and for which elements there are none, is left unsaid.
#[verifier::external_body]
fn orbit_constants(elements: &sgp4::Elements) -> (r: Option<sgp4::Constants>)
    ensures
        orbits_as(*elements, r),
{
    sgp4::Constants::from_elements(elements).ok()
}

/// A satellite: its catalogue number, name, orbit and epoch.
pub struct SatSpec {
    pub norad_id: u64,
    pub name: String,
    pub constants: sgp4::Constants,
    pub epoch: TleEpoch,
}

/// What a `SatSpec` stands for.
pub struct SatView {
    pub norad_id: int,
    pub name: Seq<char>,
    pub constants: sgp4::Constants,
    pub epoch: EpochView,
}

impl View for SatSpec {
    type V = SatView;

    open spec fn view(&self) -> SatView {
        SatView {
            norad_id: self.norad_id as int,
            name: self.name@,
            constants: self.constants,
            epoch: self.epoch@,
        }
    }
}

/// The satellites of a list.
pub open spec fn sats_view(sats: Seq<SatSpec>) -> Seq<SatView> {
    sats.map_values(|s: SatSpec| s@)
}

/// The satellite of an element set with an orbit.
pub open spec fn sat_of(b: BlockView, constants: sgp4::Constants) -> SatView {
    SatView { norad_id: b.norad_id, name: b.name, constants, epoch: b.epoch }
}

/// The satellites of the first `n` element sets, as far as there are orbits for them.
pub open spec fn sats_of(
    blocks: Seq<BlockView>,
    orbits: Seq<Option<sgp4::Constants>>,
    n: int,
) -> Seq<SatView>
    decreases n,
{
    if n <= 0 {
        Seq::empty()
    } else {
        let before = sats_of(blocks, orbits, n - 1);
        match orbits[n - 1] {
            Some(constants) => before.push(sat_of(blocks[n - 1], constants)),
            None => before,
        }
    }
}

/// Appends the satellite of an element set, where there is an orbit for it.
pub fn push_satellite(out: &mut Vec<SatSpec>, block: &TleBlock, orbit: Option<sgp4::Constants>)
    ensures
        sats_view(final(out)@) == match orbit {
            Some(constants) => sats_view(old(out)@).push(sat_of(block@, constants)),
            None => sats_view(old(out)@),
        },
{
    match orbit {
        None => {},
        Some(constants) => {
            let ghost before = out@;
            let epoch = TleEpoch {
                year_start: block.epoch.year_start,
                doy: block.epoch.doy.clone(),
            };
            let sat = SatSpec {
                norad_id: block.norad_id,
                name: block.name.clone(),
                constants,
                epoch,
            };
            let ghost view = sat@;
            out.push(sat);
            assert(sats_view(out@) =~= sats_view(before).push(view));
        },
    }
}

/// Whether an orbit, or none, may come out for an element set: its lines are read and the orbit is
/// that of the elements, or its lines cannot be read and there is none.
pub open spec fn may_orbit(b: BlockView, orbit: Option<sgp4::Constants>) -> bool {
    ||| exists|e: sgp4::Elements|
        reads_as(b.name, b.line1, b.line2, e) && #[trigger] orbits_as(e, orbit)
    ||| orbit is None && forall|e: sgp4::Elements| !reads_as(b.name, b.line1, b.line2, e)
}

/// The orbit of an element set; `None` where its lines cannot be read, or describe no orbit.
pub fn orbit_of(block: &TleBlock) -> (r: Option<sgp4::Constants>)
    requires
        may_have_checksum(block@.line1),
        may_have_checksum(block@.line2),
    ensures
        may_orbit(block@, r),
{
    match read_elements(block.name.clone(), block.line1.as_str(), block.line2.as_str()) {
        None => None,
        Some(elements) => orbit_constants(&elements),
    }
}

proof fn lemma_blocks_have_checksums(lines: Seq<Seq<char>>, i: int)
    ensures
        forall|j: int|
            0 <= j < blocks_from(lines, i).len() ==> may_have_checksum(
                (#[trigger] blocks_from(lines, i)[j]).line1,
            ) && may_have_checksum(blocks_from(lines, i)[j].line2),
    decreases lines.len() - i,
{
    if i >= 0 && i + 2 < lines.len() {
        if !starts(lines[i + 1], '1') || !starts(lines[i + 2], '2') {
            lemma_blocks_have_checksums(lines, i + 1);
            assert(blocks_from(lines, i) == blocks_from(lines, i + 1));
        } else {
            lemma_blocks_have_checksums(lines, i + 3);
            let rest = blocks_from(lines, i + 3);
            let all = blocks_from(lines, i);
            assert forall|j: int| 0 <= j < all.len() implies may_have_checksum(
                (#[trigger] all[j]).line1,
            ) && may_have_checksum(all[j].line2) by {
                if all.len() == rest.len() {
                    assert(all[j] == rest[j]);
                } else if j > 0 {
                    assert(all[j] == rest[j - 1]);
                }
            }
        }
    }
}

/// Whether a text of element sets adds their satellites, given what came out as the orbit of each.
pub open spec fn group_adds(
    text: Seq<char>,
    before: Seq<SatView>,
    after: Seq<SatView>,
    orbits: Seq<Option<sgp4::Constants>>,
) -> bool {
    let blocks = blocks_from(lines_from(text, 0), 0);
    &&& orbits.len() == blocks.len()
    &&& forall|i: int| 0 <= i < blocks.len() ==> may_orbit(#[trigger] blocks[i], orbits[i])
    &&& after == before + sats_of(blocks, orbits, blocks.len() as int)
}

/// Appends the satellites of a text of element sets, in order: each that can be read and has an
/// orbit.
pub fn parse_tle_group(text: &str, out: &mut Vec<SatSpec>)
    ensures
        exists|orbits: Seq<Option<sgp4::Constants>>| #[trigger]
            group_adds(text@, sats_view(old(out)@), sats_view(final(out)@), orbits),
{
    let blocks: Vec<TleBlock> = tle_blocks(text);
    let ghost views = blocks_from(lines_from(text@, 0), 0);
    let ghost start = sats_view(out@);
    let ghost mut orbits: Seq<Option<sgp4::Constants>> = Seq::empty();
    let mut i: usize = 0;
    proof {
        lemma_blocks_have_checksums(lines_from(text@, 0), 0);
        assert(start + sats_of(views, orbits, 0) =~= start);
    }
    while i < blocks.len()
        invariant
            i <= blocks@.len(),
            blocks_view(blocks@) == views,
            views.len() == blocks@.len(),
            forall|j: int|
                0 <= j < views.len() ==> may_have_checksum((#[trigger] views[j]).line1)
                    && may_have_checksum(views[j].line2),
            orbits.len() == i,
            forall|j: int| 0 <= j < i ==> may_orbit(#[trigger] views[j], orbits[j]),
            sats_view(out@) == start + sats_of(views, orbits, i as int),
        decreases blocks@.len() - i,
    {
        assert(views[i as int] == blocks@[i as int]@);
        let orbit: Option<sgp4::Constants> = orbit_of(&blocks[i]);
        let ghost found = orbit;
        push_satellite(out, &blocks[i], orbit);
        proof {
            let next = orbits.push(found);
            lemma_sats_prefix(views, orbits, next, i as int);
            assert(sats_view(out@) =~= start + sats_of(views, next, i + 1));
            orbits = next;
        }
        i = i + 1;
    }
    proof {
        assert(group_adds(text@, start, sats_view(out@), orbits));
    }
}

proof fn lemma_sats_prefix(
    blocks: Seq<BlockView>,
    a: Seq<Option<sgp4::Constants>>,
    b: Seq<Option<sgp4::Constants>>,
    n: int,
)
    requires
        0 <= n <= a.len(),
        n <= b.len(),
        forall|i: int| 0 <= i < n ==> a[i] == b[i],
    ensures
        sats_of(blocks, a, n) == sats_of(blocks, b, n),
    decreases n,
{
    if n > 0 {
        lemma_sats_prefix(blocks, a, b, n - 1);
    }
}

/// The catalogue: all satellites, and which of them is the space station.
pub struct SatelliteSet {
    pub sats: Vec<SatSpec>,
    pub iss_index: Option<usize>,
}

/// The first satellite with a catalogue number, from index `i` on.
pub open spec fn find_norad(sats: Seq<SatView>, id: int, i: int) -> Option<int>
    decreases sats.len() - i,
{
    if i < 0 || i >= sats.len() {
        None
    } else if sats[i].norad_id == id {
        Some(i)
    } else {
        find_norad(sats, id, i + 1)
    }
}

/// The catalogue of satellites; `None` where there are none.
pub fn make_set(sats: Vec<SatSpec>) -> (r: Option<SatelliteSet>)
    ensures
        r is Some == (sats@.len() > 0),
        r is Some ==> r->Some_0.sats == sats && match find_norad(
            sats_view(sats@),
            ISS_NORAD_ID as int,
            0,
        ) {
            None => r->Some_0.iss_index is None,
            Some(i) => r->Some_0.iss_index is Some && r->Some_0.iss_index->Some_0 == i && 0 <= i
                < sats@.len(),
        },
{
    if sats.len() == 0 {
        return None;
    }
    let ghost views = sats_view(sats@);
    let mut iss_index: Option<usize> = None;
    let mut i: usize = 0;
    while i < sats.len() && iss_index.is_none()
        invariant
            i <= sats@.len(),
            views == sats_view(sats@),
            iss_index is None ==> find_norad(views, ISS_NORAD_ID as int, 0) == find_norad(
                views,
                ISS_NORAD_ID as int,
                i as int,
            ),
            iss_index is Some ==> find_norad(views, ISS_NORAD_ID as int, 0) == Some(
                iss_index->Some_0 as int,
            ) && iss_index->Some_0 < sats@.len(),
        decreases sats@.len() - i,
    {
        assert(views[i as int] == sats@[i as int]@);
        if sats[i].norad_id == ISS_NORAD_ID {
            iss_index = Some(i);
        }
        i = i + 1;
    }
    Some(SatelliteSet { sats, iss_index })
}

/// Whether the groups that could be loaded, of the first `n`, give some satellites.
pub open spec fn groups_give(groups: Seq<Option<String>>, n: int, sats: Seq<SatView>) -> bool
    decreases n,
{
    if n <= 0 {
        sats.len() == 0
    } else {
        match groups[n - 1] {
            None => groups_give(groups, n - 1, sats),
            Some(text) => exists|before: Seq<SatView>, orbits: Seq<Option<sgp4::Constants>>|
                groups_give(groups, n - 1, before) && #[trigger] group_adds(
                    text@,
                    before,
                    sats,
                    orbits,
                ),
        }
    }
}

/// The catalogue of the groups that could be loaded; `None` where it holds no satellite.
pub fn satellite_set(groups: &[Option<String>]) -> (r: Option<SatelliteSet>)
    ensures
        match r {
            None => groups_give(groups@, groups@.len() as int, Seq::empty()),
            Some(set) => {
                &&& set.sats@.len() > 0
                &&& groups_give(groups@, groups@.len() as int, sats_view(set.sats@))
                &&& match find_norad(sats_view(set.sats@), ISS_NORAD_ID as int, 0) {
                    None => set.iss_index is None,
                    Some(i) => set.iss_index is Some && set.iss_index->Some_0 == i,
                }
            },
        },
{
    let mut sats: Vec<SatSpec> = Vec::new();
    let mut i: usize = 0;
    while i < groups.len()
        invariant
            i <= groups@.len(),
            groups_give(groups@, i as int, sats_view(sats@)),
        decreases groups@.len() - i,
    {
        match &groups[i] {
            None => {},
            Some(text) => {
                let ghost before = sats_view(sats@);
                parse_tle_group(text.as_str(), &mut sats);
                proof {
                    let orbits = choose|orbits: Seq<Option<sgp4::Constants>>| #[trigger]
                        group_adds(text@, before, sats_view(sats@), orbits);
                    assert(group_adds(text@, before, sats_view(sats@), orbits));
                }
            },
        }
        i = i + 1;
    }
    proof {
        if sats@.len() == 0 {
            assert(sats_view(sats@) =~= Seq::empty());
        }
    }
    make_set(sats)
}

// ---------- loading and showing ----------

/// The satellite layer: whether it is shown, whether the catalogue is there or being loaded, and
/// when loading may start (never, while it is going on).
#[derive(Debug, Clone, Copy, PartialEq, Eq, Structural)]
pub struct SatLayer {
    pub visible: bool,
    pub ready: bool,
    pub fetching: bool,
    pub retry_at: Option<u64>,
}

/// What a frame asks of the satellite layer.
#[derive(Debug, Clone, Copy, PartialEq, Eq, Structural)]
pub enum SatStep {
    /// Everything is hidden: the map is shown.
    Hide,
    /// Loading starts.
    Load,
    /// There is nothing to show yet.
    Wait,
    /// The satellites are shown.
    Show,
}

/// What happens to the satellite layer in a frame. The time is in nanoseconds.
#[derive(Debug, Clone, Copy, PartialEq, Eq, Structural)]
pub struct SatInput {
    pub on_globe: bool,
    pub toggled: bool,
    /// `None` while loading goes on, and then whether it gave a catalogue.
    pub loaded: Option<bool>,
    pub now: u64,
}

/// The layer after a frame.
pub open spec fn layer_after(l: SatLayer, i: SatInput) -> (SatLayer, SatStep) {
    if !i.on_globe {
        (l, SatStep::Hide)
    } else {
        let t = SatLayer { visible: if i.toggled { !l.visible } else { l.visible }, ..l };
        if t.ready {
            (t, SatStep::Show)
        } else if t.fetching {
            match i.loaded {
                None => (t, SatStep::Wait),
                Some(true) => (SatLayer { ready: true, fetching: false, ..t }, SatStep::Show),
                Some(false) => (
                    SatLayer {
                        fetching: false,
                        retry_at: Some(crate::stream::time_sum(i.now, TLE_RETRY)),
                        ..t
                    },
                    SatStep::Wait,
                ),
            }
        } else {
            match t.retry_at {
                Some(at) => if i.now >= at {
                    (
                        SatLayer { fetching: true, retry_at: None, visible: true, ..t },
                        SatStep::Load,
                    )
                } else {
                    (t, SatStep::Wait)
                },
                None => (t, SatStep::Wait),
            }
        }
    }
}

impl Default for SatLayer {
    /// The layer before the first frame: hidden, and loading may start at once.
    fn default() -> (r: Self)
        ensures
            r == (SatLayer { visible: false, ready: false, fetching: false, retry_at: Some(0) }),
    {
        SatLayer { visible: false, ready: false, fetching: false, retry_at: Some(0) }
    }
}

impl SatLayer {
    /// One frame of the layer.
    pub fn frame(&mut self, i: SatInput) -> (r: SatStep)
        ensures
            (*final(self), r) == layer_after(*old(self), i),
    {
        if !i.on_globe {
            return SatStep::Hide;
        }
        if i.toggled {
            self.visible = !self.visible;
        }
        if self.ready {
            return SatStep::Show;
        }
        if self.fetching {
            match i.loaded {
                None => SatStep::Wait,
                Some(ok) => {
                    self.fetching = false;
                    if ok {
                        self.ready = true;
                        SatStep::Show
                    } else {
                        self.retry_at = Some(i.now.saturating_add(TLE_RETRY));
                        SatStep::Wait
                    }
                },
            }
        } else {
            match self.retry_at {
                Some(at) => {
                    if i.now >= at {
                        self.fetching = true;
                        self.retry_at = None;
                        self.visible = true;
                        SatStep::Load
                    } else {
                        SatStep::Wait
                    }
                },
                None => SatStep::Wait,
            }
        }
    }
}

/// Loading starts only while nothing is being loaded and no catalogue is there, a failure is
/// followed by another attempt once its time has come, and a catalogue is never lost.
pub proof fn loading_is_retried_until_it_succeeds(l: SatLayer, i: SatInput)
    ensures
        layer_after(l, i).1 == SatStep::Load ==> !l.fetching && !l.ready && layer_after(
            l,
            i,
        ).0.fetching,
        l.ready ==> layer_after(l, i).0.ready && !(layer_after(l, i).1 == SatStep::Load),
        i.on_globe && !l.ready && l.fetching && i.loaded == Some(false) ==> layer_after(
            l,
            i,
        ).0.retry_at == Some(crate::stream::time_sum(i.now, TLE_RETRY)),
        i.on_globe && !l.ready && !l.fetching && l.retry_at is Some && i.now
            >= l.retry_at->Some_0 ==> layer_after(l, i).1 == SatStep::Load,
{
}

/// Whether satellites are shown from a camera at a distance, in metres, from the centre of the
/// globe: not from close by.
pub open spec fn seen_from(visible: bool, cam_distance: u64) -> bool {
    visible && cam_distance * 100 > GLOBE_RADIUS_M * 115
}

/// Whether the label of the space station is shown: only from a middle distance.
pub open spec fn labelled_from(visible: bool, cam_distance: u64) -> bool {
    visible && cam_distance * 100 > GLOBE_RADIUS_M * 115 && cam_distance * 10 < GLOBE_RADIUS_M * 16
}

/// Whether satellites are shown from a camera at a distance, in metres, from the centre of the
/// globe: not from close by.
pub fn sats_shown(visible: bool, cam_distance: u64) -> (r: bool)
    ensures
        r == seen_from(visible, cam_distance),
{
    visible && cam_distance as u128 * 100 > 732_665_000
}

/// Whether the label of the space station is shown: only from a middle distance.
pub fn label_shown(visible: bool, cam_distance: u64) -> (r: bool)
    ensures
        r == labelled_from(visible, cam_distance),
{
    sats_shown(visible, cam_distance) && (cam_distance as u128) * 10 < 101_936_000
}

} // verus!
