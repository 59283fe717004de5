//! Laws of tile streams: addresses, caches, requests and eviction.

use vstd::arithmetic::power2::pow2;
use vstd::prelude::*;

use crate::globe_tiles::{
    finish_all, globe_limits, is_ancestor, pending, protected, GlobeKey, MAX_TILES,
};
use crate::stream::{due, moved_back, surplus, swept, touched, Limits, Status, StreamView};
use crate::string_laws::{
    every_place_is_replaced, nothing_else_is_replaced, stands_at, the_first_place_is_found,
};
use crate::text::{digits, find_from, int_text, replaced};
use crate::tiles::{
    cache_name, greatest, grid, gzip_magic, least, left_after, level_fits, level_from, region_with,
    reported, size_sum, source_after, span_at, template_in, tile_limits, tile_region,
    tiles_are_as_wide_as_they_should, url_of, CacheView, Region, SourceStep, SourceView, TileKey,
};
use crate::web_cache::{gibs_key, ofm_key};

verus! {

// ---------- which tiles ----------

/// The tiles of a box come column by column from the west, and in each column from the north.
pub proof fn tiles_come_column_by_column(a: (i32, i32), b: (i32, i32), z: u8, i: int, j: int)
    requires
        0 <= i < j < grid(a, b, z).len(),
    ensures
        grid(a, b, z)[i].x < grid(a, b, z)[j].x || (grid(a, b, z)[i].x == grid(a, b, z)[j].x && grid(
            a,
            b,
            z,
        )[i].y < grid(a, b, z)[j].y),
{
    let x0 = least(a.0, b.0);
    let y0 = least(a.1, b.1);
    let w = greatest(a.0, b.0) - x0 + 1;
    let h = greatest(a.1, b.1) - y0 + 1;
    assert(0 <= w * h) by (nonlinear_arith)
        requires
            1 <= w,
            1 <= h,
    ;
    vstd::arithmetic::div_mod::lemma_fundamental_div_mod(i, h);
    vstd::arithmetic::div_mod::lemma_fundamental_div_mod(j, h);
    vstd::arithmetic::div_mod::lemma_mod_bound(i, h);
    vstd::arithmetic::div_mod::lemma_mod_bound(j, h);
    let (p, q) = (i / h, j / h);
    assert(p <= q) by (nonlinear_arith)
        requires
            h * p + i % h < h * q + j % h,
            0 <= i % h < h,
            0 <= j % h < h,
    ;
    assert(q < w) by (nonlinear_arith)
        requires
            h * q + j % h < w * h,
            0 <= j % h,
            h >= 1,
    ;
    assert(0 <= p) by (nonlinear_arith)
        requires
            0 <= h * p + i % h,
            i % h < h,
            h >= 1,
    ;
}

proof fn lemma_square_of_power(z: nat)
    ensures
        pow2(2 * z + 1) == 2 * (pow2(z) * pow2(z)),
{
    vstd::arithmetic::power2::lemma_pow2_adds(z, z);
    vstd::arithmetic::power2::lemma_pow2_unfold(2 * z + 1);
    assert(z + z == 2 * z);
}

/// At the chosen level, from 6 to 14, a tile is not narrower than it should be by more than the square root
/// of two, and at the next finer level it would be; it should show two fifths of the width of the view, and
/// no less than 600 metres. Lengths are in centimetres.
pub proof fn levels_suit_the_view(view_w: u64, ground: u64)
    ensures
        ({
            let z = level_from(view_w, ground, 14);
            let should = if 2 * view_w < 5 * 60_000 {
                300_000int
            } else {
                2 * view_w as int
            };
            let p = pow2((z - 1) as nat) as int;
            &&& 6 <= z <= 14
            &&& z > 6 ==> (5 * ground) * (5 * ground) >= (2 * (p * p)) * (should * should)
            &&& z < 14 ==> (5 * ground) * (5 * ground) < (8 * (p * p)) * (should * should)
        }),
{
    let z = level_from(view_w, ground, 14);
    tiles_are_as_wide_as_they_should(view_w, ground);
    let p = pow2((z - 1) as nat) as int;
    lemma_square_of_power((z - 1) as nat);
    lemma_square_of_power(z as nat);
    assert((2 * (z - 1) + 1) as nat == (2 * z - 1) as nat);
    assert((2 * z + 1) as nat == (2 * (z + 1) - 1) as nat);
    vstd::arithmetic::power2::lemma_pow2_unfold(z as nat);
    let q = pow2(z as nat) as int;
    assert(q == 2 * p);
    assert(2 * (q * q) == 8 * (p * p)) by (nonlinear_arith)
        requires
            q == 2 * p,
    ;
    assert(z > 6 ==> level_fits(view_w, ground, z));
    assert(z < 14 ==> !level_fits(view_w, ground, z + 1));
}

// ---------- addresses ----------

proof fn lemma_found(s: Seq<char>, pat: Seq<char>, i: int, k: int)
    requires
        0 <= i <= k,
        stands_at(s, pat, k),
        forall|j: int| i <= j < k ==> !#[trigger] stands_at(s, pat, j),
    ensures
        find_from(s, pat, i) == Some(k),
{
    the_first_place_is_found(s, pat, i);
}

/// The template of a TileJSON text is the first secure address behind the member for tiles, up to the
/// quotation mark that ends it.
pub proof fn templates_follow_the_tiles_member(json: Seq<char>, i: int, j: int, k: int)
    requires
        0 <= i <= j <= k,
        stands_at(json, "\"tiles\""@, i),
        forall|n: int| 0 <= n < i ==> !#[trigger] stands_at(json, "\"tiles\""@, n),
        stands_at(json, "https://"@, j),
        forall|n: int| i <= n < j ==> !#[trigger] stands_at(json, "https://"@, n),
        k < json.len(),
        json[k] == '"',
        forall|n: int| j <= n < k ==> json[n] != '"',
    ensures
        template_in(json) == Some(json.subrange(j, k)),
{
    lemma_found(json, "\"tiles\""@, 0, i);
    lemma_found(json, "https://"@, i, j);
    reveal_strlit("\"");
    let quote = "\""@;
    assert(quote =~= seq!['"']);
    assert forall|n: int| j <= n < k implies !#[trigger] stands_at(json, quote, n) by {
        if stands_at(json, quote, n) {
            assert(json[n + 0] == quote[0]);
        }
    }
    assert forall|n: int| 0 <= n < quote.len() implies json[k + n] == #[trigger] quote[n] by {}
    lemma_found(json, quote, j, k);
}

/// Text without the member for tiles has no template.
pub proof fn templates_need_the_tiles_member(json: Seq<char>)
    requires
        forall|n: int| 0 <= n ==> !#[trigger] stands_at(json, "\"tiles\""@, n),
    ensures
        template_in(json) is None,
{
    the_first_place_is_found(json, "\"tiles\""@, 0);
}

/// Whether text has no opening brace.
pub open spec fn braceless(s: Seq<char>) -> bool {
    forall|i: int| 0 <= i < s.len() ==> #[trigger] s[i] != '{'
}

proof fn lemma_numerals_are_braceless(v: int)
    ensures
        braceless(int_text(v)),
{
    let m = if v < 0 {
        (-v) as nat
    } else {
        v as nat
    };
    crate::text::lemma_digits_shape(m);
    let d = digits(m);
    assert forall|i: int| 0 <= i < int_text(v).len() implies #[trigger] int_text(v)[i] != '{' by {
        if v < 0 {
            if i > 0 {
                assert(int_text(v)[i] == d[i - 1]);
                assert(crate::text::is_digit(d[i - 1]));
            }
        } else {
            assert(crate::text::is_digit(d[i]));
        }
    }
}

/// Filling in a place behind text without braces, before text that does not hold the place again.
proof fn lemma_fill_in(a: Seq<char>, pat: Seq<char>, b: Seq<char>, with: Seq<char>)
    requires
        braceless(a),
        pat.len() > 0,
        pat[0] == '{',
        forall|j: int| !#[trigger] stands_at(b, pat, j),
    ensures
        replaced(a + pat + b, pat, with) == a + with + b,
{
    let s = a + pat + b;
    assert forall|j: int| 0 <= j < a.len() implies !#[trigger] stands_at(s, pat, j) by {
        if stands_at(s, pat, j) {
            assert(s[j + 0] == pat[0]);
            assert(s[j] == a[j]);
        }
    }
    every_place_is_replaced(a, pat, b, with);
    nothing_else_is_replaced(b, pat, with);
}

proof fn lemma_other_place(a: Seq<char>, other: Seq<char>, b: Seq<char>, pat: Seq<char>)
    requires
        braceless(a),
        pat.len() == 3,
        other.len() == 3,
        pat[0] == '{',
        other[0] == '{',
        other[1] != pat[1],
        other[1] != '{',
        other[2] != '{',
        forall|j: int| !#[trigger] stands_at(b, pat, j),
    ensures
        forall|j: int| !#[trigger] stands_at(a + other + b, pat, j),
{
    let s = a + other + b;
    let n = a.len() as int;
    assert forall|j: int| !#[trigger] stands_at(s, pat, j) by {
        if stands_at(s, pat, j) {
            assert(s[j + 0] == pat[0] && s[j + 1] == pat[1]);
            if j < n {
                assert(s[j] == a[j]);
            } else if j < n + 3 {
                assert(s[j] == other[j - n]);
                if j == n {
                    assert(s[j + 1] == other[1]);
                }
            } else {
                assert forall|k: int| 0 <= k < pat.len() implies b[j - n - 3 + k] == #[trigger] pat[k] by {
                    assert(s[j + k] == b[j + k - n - 3]);
                }
                assert(stands_at(b, pat, j - n - 3));
            }
        }
    }
}

proof fn lemma_braceless_place(s: Seq<char>, pat: Seq<char>)
    requires
        braceless(s),
        pat.len() > 0,
        pat[0] == '{',
    ensures
        forall|j: int| !#[trigger] stands_at(s, pat, j),
{
    assert forall|j: int| !#[trigger] stands_at(s, pat, j) by {
        if stands_at(s, pat, j) {
            assert(s[j + 0] == pat[0]);
        }
    }
}

/// The address of a tile is the template with level, column and row in their places and all else as it
/// stands.
pub proof fn addresses_are_filled_in(
    k: TileKey,
    a: Seq<char>,
    b: Seq<char>,
    c: Seq<char>,
    d: Seq<char>,
)
    requires
        braceless(a),
        braceless(b),
        braceless(c),
        braceless(d),
    ensures
        url_of(a + "{z}"@ + (b + "{x}"@ + (c + "{y}"@ + d)), k) == (a + digits(k.z as nat) + b + int_text(
            k.x as int,
        ) + c) + int_text(k.y as int) + d,
{
    reveal_strlit("{z}");
    reveal_strlit("{x}");
    reveal_strlit("{y}");
    let (pz, px, py) = ("{z}"@, "{x}"@, "{y}"@);
    let (z, x, y) = (digits(k.z as nat), int_text(k.x as int), int_text(k.y as int));
    lemma_numerals_are_braceless(k.z as int);
    assert(int_text(k.z as int) == z);
    lemma_numerals_are_braceless(k.x as int);
    // The level.
    lemma_braceless_place(d, pz);
    lemma_other_place(c, py, d, pz);
    lemma_other_place(b, px, c + py + d, pz);
    lemma_fill_in(a, pz, b + px + (c + py + d), z);
    // The column.
    let ab = a + z + b;
    assert(braceless(ab));
    assert(a + z + (b + px + (c + py + d)) =~= ab + px + (c + py + d));
    lemma_braceless_place(d, px);
    lemma_other_place(c, py, d, px);
    lemma_fill_in(ab, px, c + py + d, x);
    // The row.
    let abc = ab + x + c;
    assert(braceless(abc));
    assert(ab + x + (c + py + d) =~= abc + py + d);
    lemma_braceless_place(d, py);
    lemma_fill_in(abc, py, d, y);
}

/// A template that is known is used. Otherwise it is asked for once; an answer with a template makes the
/// source ready, an answer without one leads to the built-in template.
pub proof fn sources_are_asked_once(s: SourceView, answer: Option<Option<Seq<char>>>)
    ensures
        ({
            let (after, step) = source_after(s, answer);
            &&& s.template is Some ==> after == s && step == SourceStep::Ready
            &&& s.template is None && !s.fetching && !s.tried ==> step == SourceStep::Load
                && after.fetching && after.tried && after.template is None
            &&& s.template is None && s.fetching && answer is None ==> step == SourceStep::Wait && after
                == s
            &&& s.template is None && s.fetching && answer == Some(None::<Seq<char>>) ==> step
                == SourceStep::Wait && !after.fetching && after.template is None && after.tried == s.tried
            &&& s.template is None && s.fetching && answer is Some && answer->Some_0 is Some ==> step
                == SourceStep::Ready && !after.fetching && after.template == answer->Some_0
            &&& s.template is None && !s.fetching && s.tried ==> step == SourceStep::Ready
                && after.template == Some(
                "https://tiles.openfreemap.org/planet/20260906_080001_pt/{z}/{x}/{y}.pbf"@,
            )
        }),
{
}

// ---------- caches ----------

/// The names and keys under which tiles are kept are told by level, column and row; imagery has the row
/// before the column.
pub proof fn tiles_are_kept_under_their_place(k: TileKey, z: u8, x: u32, y: u32)
    ensures
        cache_name(k) == "tile_"@ + digits(k.z as nat) + "_"@ + int_text(k.x as int) + "_"@ + int_text(
            k.y as int,
        ) + ".pbf"@,
        gibs_key(z, x, y) == "https://msdos.tiles/gibs/"@ + digits(z as nat) + "/"@ + digits(y as nat)
            + "/"@ + digits(x as nat),
        ofm_key(z, x, y) == "https://msdos.tiles/ofm/"@ + digits(z as nat) + "/"@ + digits(x as nat)
            + "/"@ + digits(y as nat),
{
    reveal_strlit("_");
    reveal_strlit("/");
    assert("_"@ =~= seq!['_']);
    assert("/"@ =~= seq!['/']);
    assert(cache_name(k) =~= "tile_"@ + digits(k.z as nat) + "_"@ + int_text(k.x as int) + "_"@
        + int_text(k.y as int) + ".pbf"@);
    assert(gibs_key(z, x, y) =~= "https://msdos.tiles/gibs/"@ + digits(z as nat) + "/"@ + digits(
        y as nat,
    ) + "/"@ + digits(x as nat));
    assert(ofm_key(z, x, y) =~= "https://msdos.tiles/ofm/"@ + digits(z as nat) + "/"@ + digits(
        x as nat,
    ) + "/"@ + digits(y as nat));
}

/// The size of a cache is the sum of the sizes of its files, and a removed file takes its size away.
pub proof fn sizes_add_up(sizes: Seq<u64>, size: u64)
    ensures
        size_sum(Seq::empty(), 0) == 0,
        size_sum(sizes.push(size), sizes.len() as int + 1) == size_sum(sizes, sizes.len() as int) + size,
        left_after(size_sum(sizes.push(size), sizes.len() as int + 1) as int, size) == size_sum(
            sizes,
            sizes.len() as int,
        ),
        forall|remaining: int| 0 <= remaining < size ==> #[trigger] left_after(remaining, size) == 0,
{
    lemma_sum_prefix(sizes, sizes.push(size), sizes.len() as int);
}

proof fn lemma_sum_prefix(a: Seq<u64>, b: Seq<u64>, n: int)
    requires
        0 <= n <= a.len(),
        n <= b.len(),
        forall|i: int| 0 <= i < n ==> #[trigger] a[i] == b[i],
    ensures
        size_sum(a, n) == size_sum(b, n),
    decreases n,
{
    if n > 0 {
        lemma_sum_prefix(a, b, n - 1);
        assert(a[n - 1] == b[n - 1]);
    }
}

/// A gzip stream starts with the bytes 31 and 139.
pub proof fn gzip_streams_have_their_mark(rest: Seq<u8>, a: u8, b: u8)
    ensures
        gzip_magic(seq![a, b] + rest) <==> a == 31 && b == 139,
        !gzip_magic(seq![a]),
        !gzip_magic(Seq::empty()),
        forall|bytes: Seq<u8>| #[trigger] reported(Ok(bytes)) == Ok::<Seq<u8>, Seq<char>>(bytes),
{
}

// ---------- regions ----------

/// The box of a tile is made of those of its four children, and a tile of level 30 is one column and one
/// row.
pub proof fn boxes_are_made_of_children(k: TileKey)
    requires
        k.z <= 30,
        -0x2000_0000 <= k.x <= 0x2000_0000,
        -0x2000_0000 <= k.y <= 0x2000_0000,
    ensures
        k.z == 30 ==> tile_region(k) == (Region {
            west: k.x as i64,
            north: k.y as i64,
            east: (k.x + 1) as i64,
            south: (k.y + 1) as i64,
        }),
        k.z < 30 ==> {
            let z = (k.z + 1) as u8;
            let first = TileKey { z, x: (2 * k.x) as i32, y: (2 * k.y) as i32 };
            let last = TileKey { z, x: (2 * k.x + 1) as i32, y: (2 * k.y + 1) as i32 };
            &&& tile_region(k).west == tile_region(first).west
            &&& tile_region(k).north == tile_region(first).north
            &&& tile_region(k).east == tile_region(last).east
            &&& tile_region(k).south == tile_region(last).south
            &&& tile_region(first).east == tile_region(last).west
            &&& tile_region(first).south == tile_region(last).north
        },
{
    vstd::arithmetic::power2::lemma2_to64();
    if k.z < 30 {
        let s = span_at((k.z + 1) as u8);
        vstd::arithmetic::power2::lemma_pow2_unfold((30 - k.z) as nat);
        assert(span_at(k.z) == 2 * s);
        let (x, y) = (k.x as int, k.y as int);
        assert(x * (2 * s) == (2 * x) * s) by (nonlinear_arith);
        assert(y * (2 * s) == (2 * y) * s) by (nonlinear_arith);
        assert((x + 1) * (2 * s) == (2 * x + 1 + 1) * s) by (nonlinear_arith);
        assert((y + 1) * (2 * s) == (2 * y + 1 + 1) * s) by (nonlinear_arith);
    } else {
        assert(span_at(k.z) == 1);
        assert(k.x * 1 == k.x && k.y * 1 == k.y && (k.x + 1) * 1 == k.x + 1 && (k.y + 1) * 1 == k.y + 1)
            by (nonlinear_arith);
    }
}

/// The box around a region and a box is the smallest that holds both.
pub proof fn regions_grow_no_more_than_they_must(region: Option<Region>, b: Region, c: Region)
    requires
        c.west <= b.west && b.east <= c.east && c.north <= b.north && b.south <= c.south,
        region is Some ==> c.west <= region->Some_0.west && region->Some_0.east <= c.east && c.north
            <= region->Some_0.north && region->Some_0.south <= c.south,
    ensures
        ({
            let r = region_with(region, b);
            c.west <= r.west && r.east <= c.east && c.north <= r.north && r.south <= c.south
        }),
{
}

// ---------- requests ----------

/// No more than four tiles are fetched at once, requests are at least 150 milliseconds apart, and a tile
/// that failed is tried again after 20 seconds. Times are in nanoseconds.
pub proof fn vector_tiles_are_fetched_gently(c: CacheView, wanted: Seq<TileKey>, dt: u64, now: u64)
    ensures
        tile_limits() == (Limits {
            max_inflight: 4,
            interval: 150_000_000,
            retry: 20_000_000_000,
        }),
        c.pick(wanted, dt, now) is Some ==> c.stream.since_request + dt >= 150_000_000
            && c.stream.inflight < 4,
        c.pick(wanted, dt, now) is Some ==> {
            let (k, after) = (c.pick(wanted, dt, now)->Some_0, c.request(wanted, dt, now));
            &&& after.stream.tiles == c.stream.tiles.insert(k, Status::Fetching)
            &&& after.stream.inflight == c.stream.inflight + 1
            &&& after.stream.since_request == 0
            &&& after.stream.lru == c.stream.lru
            &&& after.region == c.region
            &&& after.failed == if c.failed > 0 {
                c.failed - 1
            } else {
                c.failed
            }
        },
        c.pick(wanted, dt, now) is None ==> {
            let after = c.request(wanted, dt, now);
            &&& after.stream.tiles == c.stream.tiles
            &&& after.stream.inflight == c.stream.inflight
            &&& c.stream.since_request + dt <= u64::MAX ==> after.stream.since_request
                == c.stream.since_request + dt
            &&& after.failed == c.failed
        },
{
}

/// A tile that came is loaded, the last in the order of use, and its box is added to the region; one that
/// failed may be requested again after 20 seconds and is counted. Either way one fewer is being fetched.
pub proof fn outcomes_are_noted(c: CacheView, k: TileKey, now: u64)
    requires
        now <= 1_000_000_000_000_000_000,
        c.failed < usize::MAX,
    ensures
        ({
            let after = c.finish(k, true, now);
            &&& after.stream.tiles == c.stream.tiles.insert(k, Status::Loaded)
            &&& after.stream.lru == c.stream.lru.push(k)
            &&& after.stream.inflight == c.stream.inflight - 1
            &&& after.region == Some(region_with(c.region, tile_region(k)))
            &&& after.failed == c.failed
        }),
        ({
            let after = c.finish(k, false, now);
            &&& after.stream.tiles == c.stream.tiles.insert(
                k,
                Status::Failed { retry_at: (now + 20_000_000_000) as u64 },
            )
            &&& after.stream.lru == c.stream.lru
            &&& after.stream.inflight == c.stream.inflight - 1
            &&& after.region == c.region
            &&& after.failed == c.failed + 1
        }),
{
}

/// Nothing changes where no tile came in, one tile that came in is noted, and tiles that came in on two
/// occasions are noted as if all had come in at once, in their order.
pub proof fn outcomes_are_noted_in_turn(
    c: CacheView,
    a: Seq<(TileKey, bool)>,
    b: Seq<(TileKey, bool)>,
    now: u64,
)
    ensures
        c.finish_all(a, now, 0) == c,
        a.len() == 1 ==> c.finish_all(a, now, 1) == c.finish(a[0].0, a[0].1, now),
        c.finish_all(a + b, now, (a + b).len() as int) == c.finish_all(a, now, a.len() as int).finish_all(
            b,
            now,
            b.len() as int,
        ),
{
    reveal_with_fuel(CacheView::finish_all, 2);
    lemma_finish_first(c, a, a + b, now, a.len() as int);
    lemma_finish_rest(c, a, b, now, b.len() as int);
}

proof fn lemma_finish_first(
    c: CacheView,
    a: Seq<(TileKey, bool)>,
    b: Seq<(TileKey, bool)>,
    now: u64,
    n: int,
)
    requires
        n <= a.len() <= b.len(),
        forall|i: int| 0 <= i < n ==> #[trigger] a[i] == b[i],
    ensures
        c.finish_all(a, now, n) == c.finish_all(b, now, n),
    decreases n,
{
    if n > 0 {
        lemma_finish_first(c, a, b, now, n - 1);
        assert(a[n - 1] == b[n - 1]);
    }
}

proof fn lemma_finish_rest(
    c: CacheView,
    a: Seq<(TileKey, bool)>,
    b: Seq<(TileKey, bool)>,
    now: u64,
    n: int,
)
    requires
        0 <= n <= b.len(),
    ensures
        c.finish_all(a + b, now, a.len() + n) == c.finish_all(a, now, a.len() as int).finish_all(
            b,
            now,
            n,
        ),
    decreases n,
{
    if n > 0 {
        lemma_finish_rest(c, a, b, now, n - 1);
        assert((a + b)[a.len() + n - 1] == b[n - 1]);
    } else {
        lemma_finish_first(c, a, a + b, now, a.len() as int);
    }
}

/// Imagery that came in is noted in the same way.
pub proof fn imagery_is_noted_in_turn(
    s: StreamView<GlobeKey>,
    a: Seq<(GlobeKey, bool)>,
    b: Seq<(GlobeKey, bool)>,
    now: u64,
)
    ensures
        finish_all(s, a, now, 0) == s,
        a.len() == 1 ==> finish_all(s, a, now, 1) == s.finish(globe_limits(), a[0].0, a[0].1, now),
        finish_all(s, a + b, now, (a + b).len() as int) == finish_all(
            finish_all(s, a, now, a.len() as int),
            b,
            now,
            b.len() as int,
        ),
{
    reveal_with_fuel(finish_all, 2);
    lemma_imagery_first(s, a, a + b, now, a.len() as int);
    lemma_imagery_rest(s, a, b, now, b.len() as int);
}

proof fn lemma_imagery_first(
    s: StreamView<GlobeKey>,
    a: Seq<(GlobeKey, bool)>,
    b: Seq<(GlobeKey, bool)>,
    now: u64,
    n: int,
)
    requires
        n <= a.len() <= b.len(),
        forall|i: int| 0 <= i < n ==> #[trigger] a[i] == b[i],
    ensures
        finish_all(s, a, now, n) == finish_all(s, b, now, n),
    decreases n,
{
    if n > 0 {
        lemma_imagery_first(s, a, b, now, n - 1);
        assert(a[n - 1] == b[n - 1]);
    }
}

proof fn lemma_imagery_rest(
    s: StreamView<GlobeKey>,
    a: Seq<(GlobeKey, bool)>,
    b: Seq<(GlobeKey, bool)>,
    now: u64,
    n: int,
)
    requires
        0 <= n <= b.len(),
    ensures
        finish_all(s, a + b, now, a.len() + n) == finish_all(
            finish_all(s, a, now, a.len() as int),
            b,
            now,
            n,
        ),
    decreases n,
{
    if n > 0 {
        lemma_imagery_rest(s, a, b, now, n - 1);
        assert((a + b)[a.len() + n - 1] == b[n - 1]);
    } else {
        lemma_imagery_first(s, a, a + b, now, a.len() as int);
    }
}

// ---------- the order of use ----------

/// A tile that is used moves behind all others, which keep their order; one that is not loaded changes
/// nothing.
pub proof fn used_tiles_move_to_the_end<K>(a: Seq<K>, k: K, b: Seq<K>)
    requires
        !a.contains(k),
        !b.contains(k),
    ensures
        moved_back(a + seq![k] + b, k) == (a + b).push(k),
        moved_back(a + b, k) == a + b,
{
    let s = a + seq![k] + b;
    assert(s[a.len() as int] == k);
    let i = s.index_of(k);
    assert(s.contains(k));
    assert(s[i] == k);
    assert(i == a.len()) by {
        if i < a.len() {
            assert(a[i] == k);
        } else if i > a.len() {
            assert(b[i - a.len() - 1] == k);
        }
    }
    assert(s.remove(i) =~= a + b);
    if (a + b).contains(k) {
        let j = choose|j: int| 0 <= j < (a + b).len() && (a + b)[j] == k;
        if j < a.len() {
            assert(a[j] == k);
        } else {
            assert(b[j - a.len()] == k);
        }
    }
}

/// Wanted tiles are used in turn, the last one last.
pub proof fn wanted_tiles_are_used_in_turn<K>(lru: Seq<K>, wanted: Seq<K>, k: K)
    ensures
        touched(lru, Seq::<K>::empty(), 0) == lru,
        touched(lru, wanted.push(k), wanted.len() as int + 1) == moved_back(
            touched(lru, wanted, wanted.len() as int),
            k,
        ),
{
    lemma_touched_prefix(lru, wanted, wanted.push(k), wanted.len() as int);
}

proof fn lemma_touched_prefix<K>(lru: Seq<K>, a: Seq<K>, b: Seq<K>, n: int)
    requires
        0 <= n <= a.len(),
        n <= b.len(),
        forall|i: int| 0 <= i < n ==> #[trigger] a[i] == b[i],
    ensures
        touched(lru, a, n) == touched(lru, b, n),
    decreases n,
{
    if n > 0 {
        lemma_touched_prefix(lru, a, b, n - 1);
        assert(a[n - 1] == b[n - 1]);
    }
}

/// Eviction drops the tiles used longest ago: as many as there are too many where none of them is wanted.
pub proof fn eviction_drops_the_oldest<K>(lru: Seq<K>, wanted: Seq<K>, max: nat)
    requires
        lru.len() > max,
        forall|i: int| 0 <= i < lru.len() - max ==> !wanted.contains(#[trigger] lru[i]),
    ensures
        surplus(lru, wanted, max) == lru.len() - max,
    decreases lru.len(),
{
    let rest = lru.skip(1);
    assert(!wanted.contains(lru[0]));
    if rest.len() > max {
        assert forall|i: int| 0 <= i < rest.len() - max implies !wanted.contains(#[trigger] rest[i]) by {
            assert(rest[i] == lru[i + 1]);
        }
        eviction_drops_the_oldest(rest, wanted, max);
    } else {
        assert(surplus(rest, wanted, max) == 0);
    }
}

proof fn lemma_filter_first<K>(x: K, rest: Seq<K>, f: spec_fn(K) -> bool)
    ensures
        (seq![x] + rest).filter(f) == if f(x) {
            seq![x] + rest.filter(f)
        } else {
            rest.filter(f)
        },
    decreases rest.len(),
{
    reveal(Seq::filter);
    let all = seq![x] + rest;
    if rest.len() == 0 {
        assert(all.drop_last() =~= Seq::empty());
        assert(all.drop_last().filter(f) =~= Seq::empty());
        assert(rest.filter(f) =~= Seq::empty());
        assert(all.last() == x);
        if f(x) {
            assert(all.filter(f) =~= seq![x] + rest.filter(f));
        }
    } else {
        lemma_filter_first(x, rest.drop_last(), f);
        assert(all.drop_last() =~= seq![x] + rest.drop_last());
        assert(all.last() == rest.last());
        if f(x) {
            assert(all.filter(f) =~= seq![x] + rest.filter(f));
        }
    }
}

proof fn lemma_filter_last<K>(rest: Seq<K>, x: K, f: spec_fn(K) -> bool)
    requires
        !f(x),
    ensures
        rest.push(x).filter(f) == rest.filter(f),
{
    reveal(Seq::filter);
    assert(rest.push(x).drop_last() =~= rest);
    assert(rest.push(x).last() == x);
}

proof fn lemma_swept_prefix<K>(lru: Seq<K>, keep: Seq<K>, max: nat, attempts: nat)
    ensures
        ({
            let dropped = swept(lru, keep, max, attempts).1;
            let free = lru.filter(|k: K| !keep.contains(k));
            dropped.len() <= free.len() && dropped == free.take(dropped.len() as int)
        }),
    decreases attempts,
{
    let f = |k: K| !keep.contains(k);
    let free = lru.filter(f);
    if lru.len() <= max || attempts == 0 {
        assert(free.take(0) =~= Seq::empty());
    } else {
        let x = lru[0];
        let rest = lru.skip(1);
        assert(seq![x] + rest =~= lru);
        lemma_filter_first(x, rest, f);
        if keep.contains(x) {
            lemma_swept_prefix(rest.push(x), keep, max, (attempts - 1) as nat);
            lemma_filter_last(rest, x, f);
        } else {
            lemma_swept_prefix(rest, keep, max, (attempts - 1) as nat);
            let dropped = swept(rest, keep, max, (attempts - 1) as nat).1;
            assert((seq![x] + dropped) =~= free.take(dropped.len() as int + 1));
        }
    }
}

/// A sweep drops, in the order of use, the tiles used longest ago among those that need not be kept.
pub proof fn sweeps_drop_the_oldest<K>(lru: Seq<K>, keep: Seq<K>, max: nat)
    ensures
        ({
            let dropped = swept(lru, keep, max, lru.len()).1;
            let free = lru.filter(|k: K| !keep.contains(k));
            dropped.len() <= free.len() && dropped == free.take(dropped.len() as int)
        }),
{
    lemma_swept_prefix(lru, keep, max, lru.len());
}

/// A stream starts without tiles and may not ask before its interval has passed.
pub proof fn streams_start_empty<K>()
    ensures
        StreamView::<K>::empty().tiles == Map::<K, Status>::empty(),
        StreamView::<K>::empty().lru == Seq::<K>::empty(),
        StreamView::<K>::empty().inflight == 0,
        StreamView::<K>::empty().since_request == 0,
{
}

/// A tile that failed is due again when its time to retry has come and not before; one that came or is
/// being fetched is not due, and one that was never requested is. What becomes of a tile changes
/// nothing for the others.
pub proof fn failed_tiles_are_retried_in_time<K>(
    s: StreamView<K>,
    limits: Limits,
    k: K,
    at: u64,
    now: u64,
    other: K,
)
    requires
        at + limits.retry <= u64::MAX,
        other != k,
    ensures
        due(s.finish(limits, k, false, at).tiles, k, now) <==> now >= at + limits.retry,
        !due(s.finish(limits, k, true, at).tiles, k, now),
        !due(s.tiles.insert(k, Status::Fetching), k, now),
        due(s.tiles.remove(k), k, now),
        due(s.finish(limits, k, false, at).tiles, other, now) <==> due(s.tiles, other, now),
        due(s.finish(limits, k, true, at).tiles, other, now) <==> due(s.tiles, other, now),
{
}

/// The cache of vector tiles holds 24 tiles. With no more, it stays as it is; of more, those that were
/// not used for longest are dropped, as far as none of them is wanted. A wanted tile stays.
pub proof fn full_caches_drop_the_oldest(c: CacheView, wanted: Seq<TileKey>, k: TileKey)
    ensures
        ({
            let n = c.stream.lru.len() as int;
            let after = c.evict(wanted);
            &&& n <= 24 ==> after.stream.lru == c.stream.lru && after.stream.tiles == c.stream.tiles
            &&& n > 24 && (forall|i: int|
                0 <= i < n - 24 ==> !wanted.contains(#[trigger] c.stream.lru[i])) ==> {
                &&& after.stream.lru == c.stream.lru.skip(n - 24)
                &&& after.stream.tiles.contains_key(k) <==> c.stream.tiles.contains_key(k)
                    && !c.stream.lru.take(n - 24).contains(k)
            }
            &&& wanted.contains(k) && c.stream.tiles.contains_key(k)
                ==> after.stream.tiles.contains_key(k)
            &&& after.stream.tiles.contains_key(k) ==> c.stream.tiles.contains_key(k)
                && after.stream.tiles[k] == c.stream.tiles[k]
            &&& after.stream.inflight == c.stream.inflight
            &&& after.stream.since_request == c.stream.since_request
            &&& after.region == c.region
            &&& after.failed == c.failed
        }),
{
    let lru = c.stream.lru;
    let n = lru.len() as int;
    let after = c.evict(wanted);
    let dropped = c.stream.evicted(wanted, 24);
    crate::stream::eviction_spares_wanted_tiles(lru, wanted, 24);
    if n <= 24 {
        assert(dropped =~= Seq::empty());
        assert(lru.skip(0) =~= lru);
        assert(after.stream.tiles =~= c.stream.tiles);
    } else if forall|i: int| 0 <= i < n - 24 ==> !wanted.contains(#[trigger] lru[i]) {
        eviction_drops_the_oldest(lru, wanted, 24);
    }
    if wanted.contains(k) && dropped.contains(k) {
        let i = choose|i: int| 0 <= i < dropped.len() && dropped[i] == k;
        assert(dropped[i] == lru[i]);
        assert(!wanted.contains(lru[i]));
    }
}

/// Marking the wanted tiles as used changes their order of use and nothing else.
pub proof fn using_tiles_keeps_them(c: CacheView, wanted: Seq<TileKey>, k: TileKey)
    ensures
        ({
            let after = c.touch(wanted);
            &&& after.stream.tiles == c.stream.tiles
            &&& after.stream.inflight == c.stream.inflight
            &&& after.stream.since_request == c.stream.since_request
            &&& after.region == c.region
            &&& after.failed == c.failed
            &&& wanted.len() > 0 && wanted.last() == k && c.stream.lru.contains(k)
                ==> after.stream.lru.len() > 0 && after.stream.lru.last() == k
        }),
{
    let n = wanted.len() as int;
    if n > 0 && wanted.last() == k && c.stream.lru.contains(k) {
        lemma_touched_keeps(c.stream.lru, wanted, n - 1, k);
    }
}

proof fn lemma_touched_keeps<K>(lru: Seq<K>, wanted: Seq<K>, n: int, k: K)
    requires
        lru.contains(k),
    ensures
        touched(lru, wanted, n).contains(k),
    decreases n,
{
    if n > 0 {
        lemma_touched_keeps(lru, wanted, n - 1, k);
        let before = touched(lru, wanted, n - 1);
        let w = wanted[n - 1];
        if before.contains(w) {
            let at = before.index_of(w);
            let after = before.remove(at).push(w);
            let i = choose|i: int| 0 <= i < before.len() && before[i] == k;
            if i < at {
                assert(after[i] == k);
            } else if i > at {
                assert(after[i - 1] == k);
            } else {
                assert(after[after.len() - 1] == k);
            }
        }
    }
}

/// A tile of imagery stands in for finer ones exactly where one of them was requested and is not there,
/// be it on its way or failed. The cache of imagery holds 120 tiles.
pub proof fn stand_ins_are_for_tiles_not_ready(tiles: Map<GlobeKey, Status>, a: GlobeKey)
    ensures
        protected(tiles, a) <==> exists|k: GlobeKey| #[trigger]
            is_ancestor(a, k) && (missing(tiles, k, Status::Fetching) || exists|at: u64| #[trigger]
                missing(tiles, k, Status::Failed { retry_at: at })),
        MAX_TILES == 120,
{
    if protected(tiles, a) {
        let k = choose|k: GlobeKey| #[trigger] pending(tiles, k) && is_ancestor(a, k);
        match tiles[k] {
            Status::Failed { retry_at } => {
                assert(missing(tiles, k, Status::Failed { retry_at }));
            },
            _ => {},
        }
        assert(is_ancestor(a, k));
    }
    if exists|k: GlobeKey| #[trigger]
        is_ancestor(a, k) && (missing(tiles, k, Status::Fetching) || exists|at: u64| #[trigger]
            missing(tiles, k, Status::Failed { retry_at: at })) {
        let k = choose|k: GlobeKey| #[trigger]
            is_ancestor(a, k) && (missing(tiles, k, Status::Fetching) || exists|at: u64| #[trigger]
                missing(tiles, k, Status::Failed { retry_at: at }));
        assert(pending(tiles, k));
    }
}

/// Whether a tile was requested and has a status.
pub open spec fn missing(tiles: Map<GlobeKey, Status>, k: GlobeKey, st: Status) -> bool {
    tiles.contains_key(k) && tiles[k] == st
}

} // verus!
