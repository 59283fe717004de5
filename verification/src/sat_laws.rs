//! Laws of the satellite layer: element sets, the catalogue, and loading.

use vstd::prelude::*;

use crate::civil::{days_before_year, Civil};
use crate::satellites::{
    blocks_from, epoch_in, find_norad, full_year, group_adds, groups_give, layer_after,
    may_have_checksum, norad_in, sat_of, sats_of, tle_address, year_start, BlockView, SatInput, SatLayer, SatStep, SatView,
};
use crate::string_laws::{all_digits, ascii_text_is_cut_by_character};
use crate::text::{digit_value, is_digit, is_float, lines_from, numeral_value, parsed_int, trimmed};

verus! {

// ---------- element sets ----------

/// The address names the group and the format.
pub proof fn groups_have_their_address(group: Seq<char>)
    ensures
        tle_address(group) == "https://celestrak.org/NORAD/elements/gp.php?GROUP="@ + group
            + "&FORMAT=tle"@,
{
    reveal_strlit("https://celestrak.org/NORAD/elements/gp.php?GROUP=");
    reveal_strlit("https://celestrak.org/NORAD/elements/gp.php");
    reveal_strlit("?GROUP=");
    assert("https://celestrak.org/NORAD/elements/gp.php"@ + "?GROUP="@
        =~= "https://celestrak.org/NORAD/elements/gp.php?GROUP="@);
}

/// A year from 1970 on starts with the first second of the first of January. Two digits from 57 on are of
/// the last century, the others of this one.
pub proof fn years_start_in_january(yy: int, year: i64)
    requires
        0 <= yy < 100,
        1970 <= year,
    ensures
        year_start(year as int) == (Civil { year, month: 1, day: 1, hour: 0, min: 0, sec: 0 }).unix(),
        year_start(full_year(yy)) == if yy < 57 {
            (Civil { year: (2000 + yy) as i64, month: 1, day: 1, hour: 0, min: 0, sec: 0 }).unix()
        } else if yy < 70 {
            0
        } else {
            (Civil { year: (1900 + yy) as i64, month: 1, day: 1, hour: 0, min: 0, sec: 0 }).unix()
        },
{
    assert(days_before_year(1970) == 0);
}

proof fn lemma_year_text(t: Seq<char>)
    requires
        t.len() == 2,
        is_digit(t[0]),
        is_digit(t[1]),
    ensures
        parsed_int(t, i64::MIN as int, i64::MAX as int) == Some(
            10 * (digit_value(t[0]) as int) + digit_value(t[1]),
        ),
{
    reveal_with_fuel(numeral_value, 3);
    assert(t.drop_last().last() == t[0]);
    assert(t.drop_last().drop_last() =~= Seq::empty());
    assert(t.last() == t[1]);
}

/// The epoch of a line of ASCII characters has the year in columns 19 and 20 and the day of the year in
/// columns 21 to 32; there is none in a shorter line, and none where the day is no number.
pub proof fn epochs_stand_in_their_columns(line: Seq<char>)
    requires
        vstd::utf8::is_ascii_chars(line),
    ensures
        line.len() < 32 ==> epoch_in(line) is None,
        line.len() >= 32 && is_digit(line[18]) && is_digit(line[19]) ==> {
            let day = trimmed(line.subrange(20, 32));
            &&& epoch_in(line) is Some <==> is_float(day)
            &&& is_float(day) ==> epoch_in(line)->Some_0.doy == day && epoch_in(line)->Some_0.year_start
                == year_start(full_year(10 * (digit_value(line[18]) as int) + digit_value(line[19])))
        },
{
    vstd::utf8::is_ascii_chars_encode_utf8(line);
    ascii_text_is_cut_by_character(line, 18, 20);
    ascii_text_is_cut_by_character(line, 20, 32);
    if line.len() >= 32 && is_digit(line[18]) && is_digit(line[19]) {
        let t = line.subrange(18, 20);
        assert(t[0] == line[18] && t[1] == line[19]);
        lemma_year_text(t);
    }
}

/// The catalogue number of a line of ASCII characters stands in columns 3 to 7, where they hold digits.
pub proof fn catalogue_numbers_stand_in_their_columns(line: Seq<char>)
    requires
        vstd::utf8::is_ascii_chars(line),
    ensures
        line.len() >= 7 && all_digits(line.subrange(2, 7)) ==> norad_in(line) == numeral_value(
            line.subrange(2, 7),
        ),
        line.len() < 7 ==> norad_in(line) == 0,
{
    ascii_text_is_cut_by_character(line, 2, 7);
    if line.len() >= 7 && all_digits(line.subrange(2, 7)) {
        let t = line.subrange(2, 7);
        assert(is_digit(t[0]) && is_digit(t[4]));
        assert(trimmed(t) == t);
        assert(numeral_value(t) <= 99_999) by {
            reveal_with_fuel(numeral_value, 6);
            assert(is_digit(t[1]) && is_digit(t[2]) && is_digit(t[3]));
            assert(t.drop_last().last() == t[3]);
            assert(t.drop_last().drop_last().last() == t[2]);
            assert(t.drop_last().drop_last().drop_last().last() == t[1]);
            assert(t.drop_last().drop_last().drop_last().drop_last().last() == t[0]);
            assert(t.drop_last().drop_last().drop_last().drop_last().drop_last() =~= Seq::empty());
        }
    }
}

/// A line of ASCII characters may have a checksum unless it has 69 characters and the last is one before
/// the digits.
pub proof fn checksums_end_full_lines(line: Seq<char>)
    requires
        vstd::utf8::is_ascii_chars(line),
    ensures
        may_have_checksum(line) <==> line.len() != 69 || line[68] >= '0',
{
    vstd::utf8::is_ascii_chars_encode_utf8(line);
    if line.len() == 69 {
        assert('\0' <= line[68] <= '\u{7f}');
        assert(line[68] as u8 == vstd::utf8::encode_utf8(line)[68]);
    }
}

proof fn lemma_blocks_shift(lines: Seq<Seq<char>>, more: Seq<Seq<char>>, i: int)
    requires
        0 <= i,
    ensures
        blocks_from(more + lines, more.len() + i) == blocks_from(lines, i),
    decreases lines.len() - i,
{
    let all = more + lines;
    let n = more.len() as int;
    if i + 2 < lines.len() {
        assert(all[n + i] == lines[i] && all[n + i + 1] == lines[i + 1] && all[n + i + 2] == lines[i
            + 2]);
        lemma_blocks_shift(lines, more, i + 1);
        lemma_blocks_shift(lines, more, i + 3);
    }
}

/// A name, a line that starts with 1 and a line that starts with 2 make an element set, where the epoch can
/// be read and both lines may have a checksum; reading goes on behind them in any case. A line that is not
/// followed by two such lines is passed over alone.
pub proof fn three_lines_make_an_element_set(
    name: Seq<char>,
    line1: Seq<char>,
    line2: Seq<char>,
    rest: Seq<Seq<char>>,
)
    ensures
        ({
            let all = seq![name, line1, line2] + rest;
            let after = blocks_from(rest, 0);
            let triple = line1.len() > 0 && line1[0] == '1' && line2.len() > 0 && line2[0] == '2';
            let good = epoch_in(line1) is Some && may_have_checksum(line1) && may_have_checksum(line2);
            &&& triple && good ==> blocks_from(all, 0) == seq![
                BlockView {
                    name: trimmed(name),
                    line1,
                    line2,
                    norad_id: norad_in(line1),
                    epoch: epoch_in(line1)->Some_0,
                },
            ] + after
            &&& triple && !good ==> blocks_from(all, 0) == after
            &&& !triple ==> blocks_from(all, 0) == blocks_from(seq![line1, line2] + rest, 0)
        }),
        rest.len() < 3 ==> blocks_from(rest, 0).len() == 0,
{
    let all = seq![name, line1, line2] + rest;
    assert(all[0] == name && all[1] == line1 && all[2] == line2);
    lemma_blocks_shift(rest, seq![name, line1, line2], 0);
    lemma_blocks_shift(seq![line1, line2] + rest, seq![name], 0);
    assert(seq![name] + (seq![line1, line2] + rest) =~= all);
}

// ---------- the catalogue ----------

/// Element sets with an orbit become satellites, in order; those without are left out.
pub proof fn element_sets_with_orbits_become_satellites(
    blocks: Seq<BlockView>,
    orbits: Seq<Option<sgp4::Constants>>,
    b: BlockView,
    o: Option<sgp4::Constants>,
)
    requires
        blocks.len() == orbits.len(),
    ensures
        ({
            let before = sats_of(blocks, orbits, blocks.len() as int);
            let after = sats_of(blocks.push(b), orbits.push(o), blocks.len() as int + 1);
            &&& o is None ==> after == before
            &&& o is Some ==> after.drop_last() == before && after.last().norad_id == b.norad_id
                && after.last().name == b.name && after.last().epoch == b.epoch
                && after.last().constants == o->Some_0 && after.len() == before.len() + 1
        }),
        sats_of(blocks, orbits, 0).len() == 0,
{
    let n = blocks.len() as int;
    lemma_sats(blocks, orbits, blocks.push(b), orbits.push(o), n);
    let before = sats_of(blocks, orbits, n);
    assert(blocks.push(b)[n] == b && orbits.push(o)[n] == o);
    if o is Some {
        assert(before.push(sat_of(b, o->Some_0)).drop_last() =~= before);
    }
}

proof fn lemma_sats(
    a: Seq<BlockView>,
    x: Seq<Option<sgp4::Constants>>,
    b: Seq<BlockView>,
    y: Seq<Option<sgp4::Constants>>,
    n: int,
)
    requires
        0 <= n <= a.len(),
        n <= b.len(),
        n <= x.len(),
        n <= y.len(),
        forall|i: int| 0 <= i < n ==> #[trigger] a[i] == b[i],
        forall|i: int| 0 <= i < n ==> #[trigger] x[i] == y[i],
    ensures
        sats_of(a, x, n) == sats_of(b, y, n),
    decreases n,
{
    if n > 0 {
        lemma_sats(a, x, b, y, n - 1);
        assert(a[n - 1] == b[n - 1] && x[n - 1] == y[n - 1]);
    }
}

/// The satellites of a text come behind those that are there already. Where there is an orbit for each
/// element set, there is a satellite for each, in their order.
pub proof fn groups_are_added_behind(
    text: Seq<char>,
    before: Seq<SatView>,
    after: Seq<SatView>,
    orbits: Seq<Option<sgp4::Constants>>,
    i: int,
)
    requires
        group_adds(text, before, after, orbits),
    ensures
        before.len() <= after.len(),
        after.take(before.len() as int) == before,
        ({
            let blocks = blocks_from(lines_from(text, 0), 0);
            &&& after.len() <= before.len() + blocks.len()
            &&& (forall|k: int| 0 <= k < orbits.len() ==> (#[trigger] orbits[k]) is Some) ==> {
                &&& after.len() == before.len() + blocks.len()
                &&& 0 <= i < blocks.len() ==> {
                    let sat = after[before.len() + i];
                    sat.norad_id == blocks[i].norad_id && sat.name == blocks[i].name && sat.epoch
                        == blocks[i].epoch && orbits[i] == Some(sat.constants)
                }
            }
        }),
{
    let blocks = blocks_from(lines_from(text, 0), 0);
    let n = blocks.len() as int;
    lemma_sats_made(blocks, orbits, n);
    assert(after.take(before.len() as int) =~= before);
    if forall|k: int| 0 <= k < orbits.len() ==> (#[trigger] orbits[k]) is Some {
        if 0 <= i < n {
            assert(after[before.len() + i] == sats_of(blocks, orbits, n)[i]);
            assert(orbits[i] is Some);
        }
    }
}

proof fn lemma_sats_made(
    blocks: Seq<BlockView>,
    orbits: Seq<Option<sgp4::Constants>>,
    n: int,
)
    requires
        0 <= n <= blocks.len() == orbits.len(),
    ensures
        sats_of(blocks, orbits, n).len() <= n,
        (forall|k: int| 0 <= k < orbits.len() ==> (#[trigger] orbits[k]) is Some) ==> {
            &&& sats_of(blocks, orbits, n).len() == n
            &&& forall|k: int|
                0 <= k < n ==> #[trigger] sats_of(blocks, orbits, n)[k] == sat_of(
                    blocks[k],
                    orbits[k]->Some_0,
                )
        },
        forall|k: int|
            0 <= k < sats_of(blocks, orbits, n).len() ==> made_of(
                #[trigger] sats_of(blocks, orbits, n)[k],
                blocks,
            ),
    decreases n,
{
    if n > 0 {
        lemma_sats_made(blocks, orbits, n - 1);
        let before = sats_of(blocks, orbits, n - 1);
        let all = sats_of(blocks, orbits, n);
        assert forall|k: int| 0 <= k < all.len() implies made_of(#[trigger] all[k], blocks) by {
            if k < before.len() {
                assert(all[k] == before[k]);
            } else {
                assert(all[k] == sat_of(blocks[n - 1], orbits[n - 1]->Some_0));
                assert(stands_for(all[k], blocks[n - 1]));
            }
        }
        if forall|k: int| 0 <= k < orbits.len() ==> (#[trigger] orbits[k]) is Some {
            assert(orbits[n - 1] is Some);
        }
    }
}

/// Whether a satellite has the number, the name and the epoch of an element set.
pub open spec fn stands_for(s: SatView, b: BlockView) -> bool {
    s.norad_id == b.norad_id && s.name == b.name && s.epoch == b.epoch
}

/// Whether a satellite is that of one of some element sets.
pub open spec fn made_of(s: SatView, blocks: Seq<BlockView>) -> bool {
    exists|i: int| 0 <= i < blocks.len() && stands_for(s, #[trigger] blocks[i])
}

/// Whether a satellite is that of an element set of a group that was loaded.
pub open spec fn is_loaded(s: SatView, groups: Seq<Option<String>>, n: int) -> bool {
    exists|g: int|
        0 <= g < n && (#[trigger] groups[g]) is Some && made_of(
            s,
            blocks_from(lines_from(groups[g]->Some_0@, 0), 0),
        )
}

/// Every satellite comes from an element set of a group that was loaded; so there are none where no group
/// was. A group that was not loaded changes nothing.
pub proof fn satellites_come_from_loaded_groups(
    groups: Seq<Option<String>>,
    n: int,
    sats: Seq<SatView>,
)
    requires
        0 <= n <= groups.len(),
        groups_give(groups, n, sats),
    ensures
        forall|k: int| 0 <= k < sats.len() ==> is_loaded(#[trigger] sats[k], groups, n),
        (forall|g: int| 0 <= g < n ==> (#[trigger] groups[g]) is None) ==> sats.len() == 0,
        n < groups.len() && groups[n] is None ==> groups_give(groups, n + 1, sats),
    decreases n,
{
    if n > 0 {
        match groups[n - 1] {
            None => {
                satellites_come_from_loaded_groups(groups, n - 1, sats);
                assert forall|k: int| 0 <= k < sats.len() implies is_loaded(
                    #[trigger] sats[k],
                    groups,
                    n,
                ) by {
                    assert(is_loaded(sats[k], groups, n - 1));
                }
            },
            Some(text) => {
                let (before, orbits) = choose|
                    before: Seq<SatView>,
                    orbits: Seq<Option<sgp4::Constants>>,
                |
                    groups_give(groups, n - 1, before) && #[trigger] group_adds(
                        text@,
                        before,
                        sats,
                        orbits,
                    );
                satellites_come_from_loaded_groups(groups, n - 1, before);
                let blocks = blocks_from(lines_from(text@, 0), 0);
                lemma_sats_made(blocks, orbits, blocks.len() as int);
                assert forall|k: int| 0 <= k < sats.len() implies is_loaded(
                    #[trigger] sats[k],
                    groups,
                    n,
                ) by {
                    if k < before.len() {
                        assert(sats[k] == before[k]);
                        assert(is_loaded(before[k], groups, n - 1));
                    } else {
                        assert(sats[k] == sats_of(blocks, orbits, blocks.len() as int)[k
                            - before.len()]);
                        assert(groups[n - 1] is Some);
                    }
                }
            },
        }
    }
    if forall|g: int| 0 <= g < n ==> (#[trigger] groups[g]) is None {
        if sats.len() > 0 {
            assert(is_loaded(sats[0], groups, n));
        }
    }
}

/// The satellite that is found is the first with the number; none is found only where none has it.
pub proof fn the_first_satellite_is_found(sats: Seq<SatView>, id: int, i: int)
    requires
        0 <= i,
    ensures
        match find_norad(sats, id, i) {
            Some(k) => i <= k < sats.len() && sats[k].norad_id == id && forall|j: int|
                i <= j < k ==> (#[trigger] sats[j]).norad_id != id,
            None => forall|j: int| i <= j < sats.len() ==> (#[trigger] sats[j]).norad_id != id,
        },
    decreases sats.len() - i,
{
    if i < sats.len() && sats[i].norad_id != id {
        the_first_satellite_is_found(sats, id, i + 1);
    }
}

// ---------- loading ----------

/// On the map the layer is hidden and stays as it is. On the globe its key shows and hides it. Loading starts
/// once its time has come, where nothing is loaded or being loaded, and shows the layer. A catalogue that
/// comes is shown at once and for good; after a failure loading may start again thirty seconds later.
pub proof fn the_layer_loads_and_shows(l: SatLayer, i: SatInput)
    ensures
        ({
            let (after, step) = layer_after(l, i);
            let visible = if i.toggled {
                !l.visible
            } else {
                l.visible
            };
            let may_load = !l.ready && !l.fetching && l.retry_at is Some && l.retry_at->Some_0 <= i.now;
            &&& !i.on_globe ==> after == l && step == SatStep::Hide
            &&& i.on_globe ==> {
                &&& after.visible == if may_load {
                    true
                } else {
                    visible
                }
                &&& step == SatStep::Load <==> may_load
                &&& may_load ==> after.fetching && after.retry_at is None && !after.ready
                &&& step == SatStep::Show <==> l.ready || (l.fetching && i.loaded == Some(true))
                &&& after.ready <==> l.ready || (l.fetching && i.loaded == Some(true))
                &&& !l.ready && l.fetching && i.loaded == Some(false) && i.now <= 1_000_000_000_000_000_000
                    ==> !after.fetching && after.retry_at == Some((i.now + 30 * 1_000_000_000) as u64)
                    && step == SatStep::Wait
                &&& !l.ready && l.fetching && i.loaded is None ==> after.fetching && after.retry_at
                    == l.retry_at && step == SatStep::Wait
                &&& !l.ready && !l.fetching && !may_load ==> after.retry_at == l.retry_at
                    && !after.fetching && step == SatStep::Wait
            }
        }),
{
}

} // verus!
