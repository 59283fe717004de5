//! The stream of vector tiles: tile coordinates, addresses, the on-disk cache and the state of
//! the stream.

use vstd::prelude::*;

use crate::extract::{MapData, MapView};
use crate::mvt::{tile_of, tile_parts, try_decode_mvt, try_mvt_to_mapdata};
use crate::geo::Point;
use crate::order::{is_order, order_by_key};
use crate::stream::{Key, Limits, Status, Stream, StreamView};
use crate::text::{
    chars_of, digits, find, find_from, i64_text, int_text, lemma_digits_injective,
    lemma_digits_shape, push_digits, push_int, replace_all, replaced, string_of, u64_text, is_digit,
};
use crate::web_cache::lemma_split_unique;

verus! {

// ---------- tile coordinates ----------

/// The place of a tile: level, column and row.
#[derive(Debug, Clone, Copy, PartialEq, Eq, Structural, Hash)]
pub struct TileKey {
    pub z: u8,
    pub x: i32,
    pub y: i32,
}

impl Key for TileKey {
    fn is(&self, other: &Self) -> (r: bool) {
        self.z == other.z && self.x == other.x && self.y == other.y
    }
}

/// The lesser of two numbers.
pub open spec fn least(a: i32, b: i32) -> int {
    if a < b {
        a as int
    } else {
        b as int
    }
}

/// The greater of two numbers.
pub open spec fn greatest(a: i32, b: i32) -> int {
    if a < b {
        b as int
    } else {
        a as int
    }
}

/// The tiles of a level between two corners, both included, column by column.
pub open spec fn grid(a: (i32, i32), b: (i32, i32), z: u8) -> Seq<TileKey> {
    let w = greatest(a.0, b.0) - least(a.0, b.0) + 1;
    let h = greatest(a.1, b.1) - least(a.1, b.1) + 1;
    Seq::new(
        (w * h) as nat,
        |i: int|
            TileKey {
                z,
                x: (least(a.0, b.0) + i / h) as i32,
                y: (least(a.1, b.1) + i % h) as i32,
            },
    )
}

/// The tiles of a level that cover the box between two tiles, both included.
pub fn keys_covering(a: (i32, i32), b: (i32, i32), z: u8) -> (r: Vec<TileKey>)
    ensures
        r@ == grid(a, b, z),
{
    let x0: i32 = if a.0 < b.0 { a.0 } else { b.0 };
    let x1: i32 = if a.0 < b.0 { b.0 } else { a.0 };
    let y0: i32 = if a.1 < b.1 { a.1 } else { b.1 };
    let y1: i32 = if a.1 < b.1 { b.1 } else { a.1 };
    let w: i64 = x1 as i64 - x0 as i64 + 1;
    let h: i64 = y1 as i64 - y0 as i64 + 1;
    let ghost all = grid(a, b, z);
    let mut keys: Vec<TileKey> = Vec::new();
    let mut col: i64 = 0;
    while col < w
        invariant
            0 <= col <= w,
            w == x1 - x0 + 1,
            h == y1 - y0 + 1,
            1 <= h,
            x0 == least(a.0, b.0),
            x1 == greatest(a.0, b.0),
            y0 == least(a.1, b.1),
            y1 == greatest(a.1, b.1),
            all == grid(a, b, z),
            keys@.len() == col * h,
            keys@ =~= all.take(col * h),
            col * h <= w * h,
        decreases w - col,
    {
        let mut row: i64 = 0;
        let ghost base = col * h;
        proof {
            assert((col + 1) * h == base + h) by (nonlinear_arith)
                requires
                    base == col * h,
            ;
            assert((col + 1) * h <= w * h) by (nonlinear_arith)
                requires
                    col + 1 <= w,
                    1 <= h,
            ;
        }
        while row < h
            invariant
                0 <= row <= h,
                0 <= col < w,
                w == x1 - x0 + 1,
                h == y1 - y0 + 1,
                x0 == least(a.0, b.0),
                x1 == greatest(a.0, b.0),
                y0 == least(a.1, b.1),
                y1 == greatest(a.1, b.1),
                all == grid(a, b, z),
                base == col * h,
                base + h <= w * h,
                keys@.len() == base + row,
                keys@ =~= all.take(base + row),
            decreases h - row,
        {
            let key = TileKey { z, x: (x0 as i64 + col) as i32, y: (y0 as i64 + row) as i32 };
            proof {
                let i = base + row;
                vstd::arithmetic::div_mod::lemma_fundamental_div_mod_converse(
                    i,
                    h as int,
                    col as int,
                    row as int,
                );
                assert(0 <= base) by (nonlinear_arith)
                    requires
                        base == col * h,
                        0 <= col,
                        1 <= h,
                ;
                assert(all[i] == key);
            }
            keys.push(key);
            row = row + 1;
        }
        col = col + 1;
    }
    assert(all.take(w * h) =~= all);
    keys
}

/// The covering tiles are those of the level whose column and row lie between the corners, each
/// of them once.
pub proof fn covering_tiles_are_the_box(a: (i32, i32), b: (i32, i32), z: u8)
    ensures
        forall|k: TileKey|
            grid(a, b, z).contains(k) <==> k.z == z && least(a.0, b.0) <= k.x <= greatest(
                a.0,
                b.0,
            ) && least(a.1, b.1) <= k.y <= greatest(a.1, b.1),
        grid(a, b, z).no_duplicates(),
{
    let all = grid(a, b, z);
    let x0 = least(a.0, b.0);
    let y0 = least(a.1, b.1);
    let w = greatest(a.0, b.0) - x0 + 1;
    let h = greatest(a.1, b.1) - y0 + 1;
    assert(0 <= w * h) by (nonlinear_arith)
        requires
            1 <= w,
            1 <= h,
    ;
    assert forall|i: int| 0 <= i < w * h implies 0 <= #[trigger] (i / h) < w && 0 <= i % h < h by {
        vstd::arithmetic::div_mod::lemma_fundamental_div_mod(i, h);
        vstd::arithmetic::div_mod::lemma_mod_bound(i, h);
        vstd::arithmetic::div_mod::lemma_div_pos_is_pos(i, h);
        assert(i / h < w) by (nonlinear_arith)
            requires
                i == h * (i / h) + i % h,
                0 <= i % h,
                i < w * h,
                1 <= h,
        ;
    }
    assert forall|k: TileKey| all.contains(k) <==> k.z == z && x0 <= k.x <= greatest(a.0, b.0)
        && y0 <= k.y <= greatest(a.1, b.1) by {
        if all.contains(k) {
            let i = choose|i: int| 0 <= i < all.len() && all[i] == k;
            assert(0 <= i / h < w);
        }
        if k.z == z && x0 <= k.x <= greatest(a.0, b.0) && y0 <= k.y <= greatest(a.1, b.1) {
            let col = k.x - x0;
            let row = k.y - y0;
            let i = col * h + row;
            vstd::arithmetic::div_mod::lemma_fundamental_div_mod_converse(i, h, col, row);
            assert(0 <= i < w * h) by (nonlinear_arith)
                requires
                    i == col * h + row,
                    0 <= col < w,
                    0 <= row < h,
            ;
            assert(all[i] == k);
        }
    }
    assert forall|i: int, j: int| 0 <= i < all.len() && 0 <= j < all.len() && i != j implies all[i]
        != all[j] by {
        vstd::arithmetic::div_mod::lemma_fundamental_div_mod(i, h);
        vstd::arithmetic::div_mod::lemma_fundamental_div_mod(j, h);
        assert(0 <= i / h < w);
        assert(0 <= j / h < w);
        if all[i] == all[j] {
            assert(i / h == j / h);
            assert(i % h == j % h);
        }
    }
}

/// The square of the ratio between the ground that a circle of latitude spans and the ground that
/// a tile should show is at least 2 to the power `2 * z - 1`. A tile should show two fifths of the
/// width of the view, and no less than 600 metres.
pub open spec fn level_fits(view_w: u64, ground: u64, z: int) -> bool {
    let tile = if 2 * view_w > 300_000 { 2 * view_w } else { 300_000 };
    (5 * ground) * (5 * ground) >= vstd::arithmetic::power2::pow2((2 * z - 1) as nat) * (tile * tile)
}

/// The finest level down from `z` that fits, and 6 where none does.
pub open spec fn level_from(view_w: u64, ground: u64, z: int) -> int
    decreases z,
{
    if z <= 6 {
        6
    } else if level_fits(view_w, ground, z) {
        z
    } else {
        level_from(view_w, ground, z - 1)
    }
}

/// The level for a view of some width, where the circle of latitude spans some ground: the one
/// whose tiles come closest to two fifths of the width, from 6 to 14. Lengths are in centimetres.
pub fn zoom_for(view_w: u64, ground: u64) -> (r: u8)
    requires
        view_w <= 0x100_0000_0000,
        ground <= 0x100_0000_0000,
    ensures
        r == level_from(view_w, ground, 14),
        6 <= r <= 14,
{
    let tile: u128 = if 2 * view_w > 300_000 { 2 * view_w as u128 } else { 300_000 };
    let num: u128 = 5 * ground as u128;
    proof {
        assert(tile * tile <= 0x200_0000_0000 * 0x200_0000_0000) by (nonlinear_arith)
            requires
                tile <= 0x200_0000_0000,
        ;
        assert(num * num <= 0x500_0000_0000 * 0x500_0000_0000) by (nonlinear_arith)
            requires
                num <= 0x500_0000_0000,
        ;
    }
    let tile2: u128 = tile * tile;
    let num2: u128 = num * num;
    let mut z: u8 = 14;
    let mut power: u128 = 0x800_0000;
    proof {
        vstd::arithmetic::power2::lemma2_to64();
    }
    while z > 6
        invariant
            6 <= z <= 14,
            tile == if 2 * view_w > 300_000 { 2 * view_w } else { 300_000 },
            tile2 == tile * tile,
            tile2 <= 0x200_0000_0000 * 0x200_0000_0000,
            num == 5 * ground,
            num2 == num * num,
            z > 6 ==> power == vstd::arithmetic::power2::pow2((2 * z - 1) as nat),
            power <= 0x800_0000,
            level_from(view_w, ground, 14) == level_from(view_w, ground, z as int),
        decreases z,
    {
        proof {
            assert(power * tile2 <= 0x800_0000 * (0x200_0000_0000 * 0x200_0000_0000))
                by (nonlinear_arith)
                requires
                    power <= 0x800_0000,
                    tile2 <= 0x200_0000_0000 * 0x200_0000_0000,
            ;
            vstd::arithmetic::power2::lemma_pow2_unfold((2 * z - 1) as nat);
            vstd::arithmetic::power2::lemma_pow2_unfold((2 * z - 2) as nat);
        }
        if num2 >= power * tile2 {
            return z;
        }
        z = z - 1;
        power = power / 4;
    }
    6
}

/// A tile of the chosen level is as wide as it should be up to a factor of the square root of two,
/// except that the coarsest level may be too fine and the finest too coarse.
pub proof fn tiles_are_as_wide_as_they_should(view_w: u64, ground: u64)
    ensures
        ({
            let z = level_from(view_w, ground, 14);
            &&& 6 <= z <= 14
            &&& z > 6 ==> level_fits(view_w, ground, z)
            &&& z < 14 ==> !level_fits(view_w, ground, z + 1)
        }),
{
    lemma_level(view_w, ground, 14);
}

proof fn lemma_level(view_w: u64, ground: u64, from: int)
    requires
        6 <= from,
    ensures
        ({
            let z = level_from(view_w, ground, from);
            &&& 6 <= z <= from
            &&& z > 6 ==> level_fits(view_w, ground, z)
            &&& z < from ==> !level_fits(view_w, ground, z + 1)
        }),
    decreases from,
{
    if from > 6 && !level_fits(view_w, ground, from) {
        lemma_level(view_w, ground, from - 1);
    }
}

/// A closer view never has a coarser level.
pub proof fn zoom_grows_with_closeness(near: u64, far: u64, ground: u64, z: int)
    requires
        near <= far,
    ensures
        level_from(far, ground, z) <= level_from(near, ground, z),
    decreases z,
{
    if z > 6 {
        zoom_grows_with_closeness(near, far, ground, z - 1);
        if level_fits(far, ground, z) {
            let a = if 2 * near > 300_000 { 2 * near } else { 300_000 };
            let b = if 2 * far > 300_000 { 2 * far } else { 300_000 };
            let p = vstd::arithmetic::power2::pow2((2 * z - 1) as nat) as int;
            assert(a * a <= b * b) by (nonlinear_arith)
                requires
                    0 <= a <= b,
            ;
            assert(p * (a * a) <= p * (b * b)) by (nonlinear_arith)
                requires
                    a * a <= b * b,
                    0 <= p,
            ;
        } else {
            lemma_level_at_most(far, ground, z - 1);
        }
    }
}

proof fn lemma_level_at_most(view_w: u64, ground: u64, z: int)
    ensures
        level_from(view_w, ground, z) <= if z > 6 { z } else { 6 },
    decreases z,
{
    if z > 6 {
        lemma_level_at_most(view_w, ground, z - 1);
    }
}

// ---------- addresses ----------

/// Where the list of tile addresses can be loaded from.
pub const TILEJSON_URL: &'static str = "https://tiles.openfreemap.org/planet";

/// The address template that is used where none can be loaded.
pub const FALLBACK_TEMPLATE: &'static str =
    "https://tiles.openfreemap.org/planet/20260906_080001_pt/{z}/{x}/{y}.pbf";

/// The first address in a TileJSON text: what follows the first "https://" behind the member
/// "tiles", up to the closing quote.
pub open spec fn template_in(json: Seq<char>) -> Option<Seq<char>> {
    match find_from(json, "\"tiles\""@, 0) {
        None => None,
        Some(i) => match find_from(json, "https://"@, i) {
            None => None,
            Some(j) => match find_from(json, "\""@, j) {
                None => None,
                Some(k) => Some(json.subrange(j, k)),
            },
        },
    }
}

/// The first tile address template of a TileJSON text.
pub fn extract_template(tilejson: &str) -> (r: Option<String>)
    ensures
        match template_in(tilejson@) {
            None => r is None,
            Some(t) => r is Some && r->Some_0@ == t,
        },
{
    let cs: Vec<char> = chars_of(tilejson);
    let tiles: Vec<char> = chars_of("\"tiles\"");
    let scheme: Vec<char> = chars_of("https://");
    let quote: Vec<char> = chars_of("\"");
    match find(&cs, &tiles, 0) {
        None => None,
        Some(i) => match find(&cs, &scheme, i) {
            None => None,
            Some(j) => match find(&cs, &quote, j) {
                None => None,
                Some(k) => Some(string_of(&cs.as_slice()[j..k])),
            },
        },
    }
}

/// The address of a tile.
pub open spec fn url_of(template: Seq<char>, k: TileKey) -> Seq<char> {
    replaced(
        replaced(
            replaced(template, "{z}"@, digits(k.z as nat)),
            "{x}"@,
            int_text(k.x as int),
        ),
        "{y}"@,
        int_text(k.y as int),
    )
}

/// The address of a tile: the template with its level, column and row filled in.
pub fn tile_url(template: &str, k: TileKey) -> (r: String)
    ensures
        r@ == url_of(template@, k),
{
    proof {
        reveal_strlit("{z}");
        reveal_strlit("{x}");
        reveal_strlit("{y}");
    }
    let a: String = replace_all(template, "{z}", u64_text(k.z as u64).as_str());
    let b: String = replace_all(a.as_str(), "{x}", i64_text(k.x as i64).as_str());
    replace_all(b.as_str(), "{y}", i64_text(k.y as i64).as_str())
}

/// What to do about the address template.
#[derive(Debug, Clone, Copy, PartialEq, Eq, Structural)]
pub enum SourceStep {
    /// Start to load it.
    Load,
    /// Nothing can be done yet.
    Wait,
    /// It is known.
    Ready,
}

/// The address template, once it is known.
#[derive(Debug)]
pub struct TileSource {
    pub template: Option<String>,
    pub fetching: bool,
    pub tried: bool,
}

/// What a `TileSource` stands for.
pub struct SourceView {
    pub template: Option<Seq<char>>,
    pub fetching: bool,
    pub tried: bool,
}

impl View for TileSource {
    type V = SourceView;

    open spec fn view(&self) -> SourceView {
        SourceView {
            template: match self.template {
                Some(t) => Some(t@),
                None => None,
            },
            fetching: self.fetching,
            tried: self.tried,
        }
    }
}

/// The source after a frame. `answer` is `None` while the template is being loaded, and then
/// what came of it. It is loaded once; where that fails, the built-in template is used.
pub open spec fn source_after(s: SourceView, answer: Option<Option<Seq<char>>>) -> (
    SourceView,
    SourceStep,
) {
    if s.template is Some {
        (s, SourceStep::Ready)
    } else if s.fetching {
        match answer {
            None => (s, SourceStep::Wait),
            Some(None) => (SourceView { fetching: false, ..s }, SourceStep::Wait),
            Some(Some(t)) => (
                SourceView { template: Some(t), fetching: false, ..s },
                SourceStep::Ready,
            ),
        }
    } else if !s.tried {
        (SourceView { fetching: true, tried: true, ..s }, SourceStep::Load)
    } else {
        (SourceView { template: Some(FALLBACK_TEMPLATE@), ..s }, SourceStep::Ready)
    }
}

/// What an answer stands for.
pub open spec fn answer_view(answer: Option<Option<String>>) -> Option<Option<Seq<char>>> {
    match answer {
        None => None,
        Some(None) => Some(None),
        Some(Some(t)) => Some(Some(t@)),
    }
}

impl Default for TileSource {
    /// A source that knows no template.
    fn default() -> (r: Self)
        ensures
            r@ == (SourceView { template: None, fetching: false, tried: false }),
    {
        TileSource { template: None, fetching: false, tried: false }
    }
}

impl TileSource {
    /// Takes the state of the template's loading in and says what to do.
    pub fn step(&mut self, answer: Option<Option<String>>) -> (r: SourceStep)
        ensures
            (final(self)@, r) == source_after(old(self)@, answer_view(answer)),
    {
        if self.template.is_some() {
            return SourceStep::Ready;
        }
        if self.fetching {
            match answer {
                None => SourceStep::Wait,
                Some(None) => {
                    self.fetching = false;
                    SourceStep::Wait
                },
                Some(Some(t)) => {
                    self.fetching = false;
                    self.template = Some(t);
                    SourceStep::Ready
                },
            }
        } else if !self.tried {
            self.tried = true;
            self.fetching = true;
            SourceStep::Load
        } else {
            self.template = Some(FALLBACK_TEMPLATE.to_owned());
            SourceStep::Ready
        }
    }
}

/// The template is loaded at most once: after the first step it was tried, and a source that
/// was tried never asks for loading again.
pub proof fn template_is_loaded_once(s: SourceView, answer: Option<Option<Seq<char>>>)
    ensures
        source_after(s, answer).1 == SourceStep::Load ==> !s.tried && source_after(
            s,
            answer,
        ).0.tried,
        s.tried ==> source_after(s, answer).0.tried && source_after(s, answer).1
            != SourceStep::Load,
        source_after(s, answer).1 == SourceStep::Ready <==> source_after(s, answer).0.template is Some,
{
}

// ---------- the cache on disk ----------

/// How long a cached tile may be used, in seconds.
pub const CACHE_TTL: u64 = 2_592_000;

/// How many bytes the cache may hold.
pub const CACHE_BUDGET: u64 = 1_073_741_824;

/// The name of the file that caches a tile.
pub open spec fn cache_name(k: TileKey) -> Seq<char> {
    "tile_"@ + (digits(k.z as nat) + seq!['_'] + (int_text(k.x as int) + seq!['_'] + (int_text(
        k.y as int,
    ) + ".pbf"@)))
}

/// The name of the file that caches a tile.
pub fn cache_file_name(k: TileKey) -> (r: String)
    ensures
        r@ == cache_name(k),
{
    let mut out: String = "tile_".to_owned();
    push_digits(&mut out, k.z as u64);
    out.push('_');
    push_int(&mut out, k.x as i64);
    out.push('_');
    push_int(&mut out, k.y as i64);
    out.append(".pbf");
    assert(out@ =~= cache_name(k));
    out
}

proof fn lemma_int_text_plain(i: int)
    ensures
        !int_text(i).contains('_'),
        !int_text(i).contains('.'),
        int_text(i).len() >= 1,
{
    let n = if i < 0 { (-i) as nat } else { i as nat };
    lemma_digits_shape(n);
    let s = int_text(i);
    assert forall|j: int| 0 <= j < s.len() implies s[j] != '_' && s[j] != '.' by {
        if i < 0 {
            if j > 0 {
                assert(s[j] == digits(n)[j - 1]);
                assert(is_digit(digits(n)[j - 1]));
            }
        } else {
            assert(is_digit(digits(n)[j]));
        }
    }
}

/// Different integers have different numerals.
pub proof fn lemma_int_text_injective(a: int, b: int)
    requires
        int_text(a) == int_text(b),
    ensures
        a == b,
{
    let m = if a < 0 { (-a) as nat } else { a as nat };
    let n = if b < 0 { (-b) as nat } else { b as nat };
    lemma_digits_shape(m);
    lemma_digits_shape(n);
    assert(is_digit(digits(m)[0]));
    assert(is_digit(digits(n)[0]));
    if a < 0 {
        assert(int_text(a)[0] == '-');
    }
    if b < 0 {
        assert(int_text(b)[0] == '-');
    }
    if a < 0 && b < 0 {
        assert(digits(m) =~= int_text(a).skip(1));
        assert(digits(n) =~= int_text(b).skip(1));
    }
    lemma_digits_injective(m, n);
}

/// Different tiles have different cache files.
pub proof fn cache_files_are_distinct(a: TileKey, b: TileKey)
    requires
        cache_name(a) == cache_name(b),
    ensures
        a == b,
{
    let ya = int_text(a.y as int) + ".pbf"@;
    let yb = int_text(b.y as int) + ".pbf"@;
    let xa = int_text(a.x as int) + seq!['_'] + ya;
    let xb = int_text(b.x as int) + seq!['_'] + yb;
    let za = digits(a.z as nat) + seq!['_'] + xa;
    let zb = digits(b.z as nat) + seq!['_'] + xb;
    let n = "tile_"@.len() as int;
    assert(za =~= cache_name(a).skip(n));
    assert(zb =~= cache_name(b).skip(n));
    lemma_int_text_plain(a.z as int);
    lemma_int_text_plain(b.z as int);
    lemma_int_text_plain(a.x as int);
    lemma_int_text_plain(b.x as int);
    lemma_split_unique(digits(a.z as nat), xa, digits(b.z as nat), xb, '_');
    lemma_split_unique(int_text(a.x as int), ya, int_text(b.x as int), yb, '_');
    let m = ".pbf"@.len();
    assert(int_text(a.y as int) =~= ya.take(ya.len() - m));
    assert(int_text(b.y as int) =~= yb.take(yb.len() - m));
    lemma_digits_injective(a.z as nat, b.z as nat);
    lemma_int_text_injective(a.x as int, b.x as int);
    lemma_int_text_injective(a.y as int, b.y as int);
}

/// Whether a cached tile of an age may still be used.
pub open spec fn tile_lasts(age_secs: u64, age_nanos: u32) -> bool {
    age_secs < CACHE_TTL || (age_secs == CACHE_TTL && age_nanos == 0)
}

/// Whether a cached tile of an age may still be used.
pub fn is_fresh(age_secs: u64, age_nanos: u32) -> (r: bool)
    ensures
        r == tile_lasts(age_secs, age_nanos),
{
    age_secs < CACHE_TTL || (age_secs == CACHE_TTL && age_nanos == 0)
}

/// The sum of the first `n` sizes.
pub open spec fn size_sum(sizes: Seq<u64>, n: int) -> nat
    decreases n,
{
    if n <= 0 {
        0
    } else {
        size_sum(sizes, n - 1) + sizes[n - 1] as nat
    }
}

/// The removal of old files from a cache that is over its budget: in what order files are
/// looked at, which is next, and how many bytes are left.
#[derive(Debug)]
pub struct CacheSweep {
    pub order: Vec<usize>,
    pub sizes: Vec<u64>,
    pub next: usize,
    pub remaining: u128,
    pub budget: u64,
}

impl CacheSweep {
    /// The order lists files whose sizes are known.
    pub open spec fn wf(self) -> bool {
        forall|i: int| 0 <= i < self.order@.len() ==> (#[trigger] self.order@[i]) < self.sizes@.len()
    }

    /// Starts on files with the given times of change and sizes: the oldest comes first.
    pub fn new(modified: &[i128], sizes: Vec<u64>, budget: u64) -> (r: Self)
        requires
            modified@.len() == sizes@.len(),
        ensures
            r.wf(),
            is_order(modified@, r.order@),
            r.sizes == sizes,
            r.budget == budget,
            r.remaining == size_sum(sizes@, sizes@.len() as int),
            r.next == if size_sum(sizes@, sizes@.len() as int) <= budget {
                sizes@.len()
            } else {
                0
            },
    {
        let n: usize = sizes.len();
        let mut total: u128 = 0;
        let mut i: usize = 0;
        while i < n
            invariant
                i <= n,
                n == sizes@.len(),
                total == size_sum(sizes@, i as int),
                total <= i * 0xffff_ffff_ffff_ffff,
            decreases sizes@.len() - i,
        {
            assert((i + 1) * 0xffff_ffff_ffff_ffff <= 0xffff_ffff_ffff_ffff_ffff_ffff_ffff_ffff)
                by (nonlinear_arith)
                requires
                    i < 0xffff_ffff_ffff_ffff,
            ;
            total = total + sizes[i] as u128;
            i = i + 1;
        }
        let next: usize = if total <= budget as u128 { sizes.len() } else { 0 };
        CacheSweep { order: order_by_key(modified), sizes, next, remaining: total, budget }
    }

    /// The next file to be removed: none once half of the budget is free, or no file is left.
    pub open spec fn next_victim(self) -> Option<usize> {
        if self.next < self.order@.len() && self.remaining > self.budget / 2 {
            Some(self.order@[self.next as int])
        } else {
            None
        }
    }

    /// The next file to be removed: none once half of the budget is free, or no file is left.
    pub fn victim(&self) -> (r: Option<usize>)
        ensures
            r == self.next_victim(),
    {
        if self.next < self.order.len() && self.remaining > (self.budget / 2) as u128 {
            Some(self.order[self.next])
        } else {
            None
        }
    }

    /// Notes whether the next file could be removed.
    pub fn tried(&mut self, removed: bool)
        requires
            old(self).wf(),
            old(self).next < old(self).order@.len(),
        ensures
            final(self).wf(),
            final(self).order == old(self).order,
            final(self).sizes == old(self).sizes,
            final(self).budget == old(self).budget,
            final(self).next == old(self).next + 1,
            final(self).remaining == if removed {
                left_after(
                    old(self).remaining as int,
                    old(self).sizes@[old(self).order@[old(self).next as int] as int],
                )
            } else {
                old(self).remaining as int
            },
    {
        let size: u64 = self.sizes[self.order[self.next]];
        let n: usize = self.order.len();
        assert(self.next < n);
        self.next = self.next + 1;
        if removed {
            self.remaining = if self.remaining < size as u128 {
                0
            } else {
                self.remaining - size as u128
            };
        }
    }
}

/// The bytes left after a file was removed.
pub open spec fn left_after(remaining: int, size: u64) -> int {
    if remaining < size {
        0
    } else {
        remaining - size
    }
}

// ---------- tile contents ----------

/// What a gzip stream unpacks to, or the text of the error that stops it.
pub uninterp spec fn inflated(data: Seq<u8>) -> Result<Seq<u8>, Seq<char>>;

/// What the outcome of unpacking stands for.
pub open spec fn outcome_view(r: Result<Vec<u8>, String>) -> Result<Seq<u8>, Seq<char>> {
    match r {
        Ok(b) => Ok(b@),
        Err(e) => Err(e@),
    }
}

/// `flate2::read::GzDecoder`, read to its end. Claimed: the bytes, or the text of the error,
/// depend on the data alone.
#[verifier::external_body]
pub(crate) fn gunzip(data: &[u8]) -> (r: Result<Vec<u8>, String>)
    ensures
        outcome_view(r) == inflated(data@),
{
    let mut out: Vec<u8> = Vec::new();
    match std::io::Read::read_to_end(&mut flate2::read::GzDecoder::new(data), &mut out) {
        Ok(_) => Ok(out),
        Err(e) => Err(format!("{e}")),
    }
}

/// Whether bytes start as a gzip stream does.
pub open spec fn gzip_magic(b: Seq<u8>) -> bool {
    b.len() >= 2 && b[0] == 0x1f && b[1] == 0x8b
}

/// The outcome of unpacking with the error as it is reported.
pub open spec fn reported(outcome: Result<Seq<u8>, Seq<char>>) -> Result<Seq<u8>, Seq<char>> {
    match outcome {
        Ok(b) => Ok(b),
        Err(e) => Err("gzip 解压失败: "@ + e),
    }
}

/// The outcome of unpacking with the error as it is reported.
pub fn report_gunzip(outcome: Result<Vec<u8>, String>) -> (r: Result<Vec<u8>, String>)
    ensures
        outcome_view(r) == reported(outcome_view(outcome)),
{
    match outcome {
        Ok(b) => Ok(b),
        Err(e) => Err("gzip 解压失败: ".to_owned().concat(e.as_str())),
    }
}

/// The contents of a tile: unpacked where they are a gzip stream, as they stand otherwise.
pub fn unpack(bytes: Vec<u8>) -> (r: Result<Vec<u8>, String>)
    ensures
        outcome_view(r) == if gzip_magic(bytes@) {
            reported(inflated(bytes@))
        } else {
            Ok(bytes@)
        },
{
    if bytes.len() >= 2 && bytes[0] == 0x1f && bytes[1] == 0x8b {
        report_gunzip(gunzip(&bytes))
    } else {
        Ok(bytes)
    }
}

/// What a tile adds to the map, in tile units.
#[derive(Debug)]
pub struct TilePayload {
    pub key: TileKey,
    pub map: MapData,
    pub n_polys: usize,
    pub n_lines: usize,
}

/// The map of the tile that bytes encode; `None` where they cannot be followed.
pub open spec fn payload_map(bytes: Seq<u8>) -> Option<MapView> {
    match tile_of(bytes) {
        None => None,
        Some(layers) => match tile_parts(layers, layers.len() as int) {
            None => None,
            Some((polys, lines)) => Some(
                MapView { polys, lines, min: Point { x: 0, y: 0 }, max: Point { x: 0, y: 0 } },
            ),
        },
    }
}

/// Decodes a tile; `None` where its encoding cannot be followed.
pub fn build_tile_payload(k: TileKey, mvt_bytes: &[u8]) -> (r: Option<TilePayload>)
    ensures
        match payload_map(mvt_bytes@) {
            None => r is None,
            Some(map) => {
                &&& r is Some
                &&& r->Some_0.key == k
                &&& r->Some_0.map@ == map
                &&& r->Some_0.n_polys == map.polys.len()
                &&& r->Some_0.n_lines == map.lines.len()
            },
        },
{
    match try_decode_mvt(mvt_bytes) {
        None => None,
        Some(tile) => match try_mvt_to_mapdata(&tile) {
            None => None,
            Some(map) => {
                let n_polys: usize = map.polys.len();
                let n_lines: usize = map.lines.len();
                Some(TilePayload { key: k, map, n_polys, n_lines })
            },
        },
    }
}

// ---------- the stream ----------

/// How many tiles may be fetched at once.
pub const MAX_INFLIGHT: usize = 4;

/// The least time between two requests, in nanoseconds.
pub const REQUEST_INTERVAL: u64 = 150_000_000;

/// The time after which a failed tile is tried again, in nanoseconds.
pub const RETRY_AFTER: u64 = 20_000_000_000;

/// How many tiles are kept.
pub const MAX_TILES: usize = 24;

/// The limits of the vector tile stream.
pub open spec fn tile_limits() -> Limits {
    Limits { max_inflight: MAX_INFLIGHT, interval: REQUEST_INTERVAL, retry: RETRY_AFTER }
}

/// A box of the map, in columns and rows of level 30.
#[derive(Debug, Clone, Copy, PartialEq, Eq, Structural)]
pub struct Region {
    pub west: i64,
    pub north: i64,
    pub east: i64,
    pub south: i64,
}

/// The width of a tile in columns of level 30.
pub open spec fn span_at(z: u8) -> int {
    vstd::arithmetic::power2::pow2((30 - z) as nat) as int
}

/// The box of a tile.
pub open spec fn tile_region(k: TileKey) -> Region {
    Region {
        west: (k.x * span_at(k.z)) as i64,
        north: (k.y * span_at(k.z)) as i64,
        east: ((k.x + 1) * span_at(k.z)) as i64,
        south: ((k.y + 1) * span_at(k.z)) as i64,
    }
}

/// The smallest box around a region and a box.
pub open spec fn region_with(region: Option<Region>, b: Region) -> Region {
    match region {
        None => b,
        Some(a) => Region {
            west: if b.west < a.west { b.west } else { a.west },
            north: if b.north < a.north { b.north } else { a.north },
            east: if b.east > a.east { b.east } else { a.east },
            south: if b.south > a.south { b.south } else { a.south },
        },
    }
}

/// The box of a tile.
pub fn region_of(k: TileKey) -> (r: Region)
    requires
        k.z <= 30,
    ensures
        r == tile_region(k),
        r.west < r.east,
        r.north < r.south,
{
    let up: u64 = (30 - k.z) as u64;
    proof {
        let e = up as nat;
        vstd::arithmetic::power2::lemma_pow2_pos(e);
        vstd::arithmetic::power2::lemma2_to64();
        if e < 30 {
            vstd::arithmetic::power2::lemma_pow2_strictly_increases(e, 30);
        }
        assert(1 * vstd::arithmetic::power2::pow2(e) <= 0x4000_0000);
        vstd::bits::lemma_u64_shl_is_mul(1, up);
    }
    let span: i64 = (1u64 << up) as i64;
    proof {
        assert(span == span_at(k.z));
        lemma_scaled(k.x as int, span as int);
        lemma_scaled(k.y as int, span as int);
        lemma_scaled(k.x + 1, span as int);
        lemma_scaled(k.y + 1, span as int);
        assert((k.x + 1) * span == k.x * span + span) by (nonlinear_arith);
        assert((k.y + 1) * span == k.y * span + span) by (nonlinear_arith);
    }
    Region {
        west: k.x as i64 * span,
        north: k.y as i64 * span,
        east: (k.x as i64 + 1) * span,
        south: (k.y as i64 + 1) * span,
    }
}

proof fn lemma_scaled(a: int, span: int)
    requires
        -0x8000_0000 <= a <= 0x8000_0000,
        1 <= span <= 0x4000_0000,
    ensures
        -0x2000_0000_0000_0000 <= a * span <= 0x2000_0000_0000_0000,
{
    assert(-0x2000_0000_0000_0000 <= a * span <= 0x2000_0000_0000_0000) by (nonlinear_arith)
        requires
            -0x8000_0000 <= a <= 0x8000_0000,
            1 <= span <= 0x4000_0000,
    ;
}

/// The smallest box around a region and a box holds both.
pub proof fn region_holds_its_tiles(region: Option<Region>, b: Region)
    ensures
        ({
            let r = region_with(region, b);
            &&& r.west <= b.west && b.east <= r.east && r.north <= b.north && b.south <= r.south
            &&& region is Some ==> r.west <= region->Some_0.west && region->Some_0.east <= r.east
                && r.north <= region->Some_0.north && region->Some_0.south <= r.south
        }),
{
}

/// The state of the vector tile stream.
#[derive(Debug)]
pub struct TileCache {
    pub stream: Stream<TileKey>,
    /// The box around all tiles loaded so far.
    pub loaded_region: Option<Region>,
    /// The failures not yet followed by another request.
    pub failed: usize,
}

/// What a `TileCache` stands for.
pub struct CacheView {
    pub stream: StreamView<TileKey>,
    pub region: Option<Region>,
    pub failed: int,
}

impl View for TileCache {
    type V = CacheView;

    open spec fn view(&self) -> CacheView {
        CacheView {
            stream: self.stream@,
            region: self.loaded_region,
            failed: self.failed as int,
        }
    }
}

impl CacheView {
    /// The cache after fetching a tile ended.
    pub open spec fn finish(self, k: TileKey, ok: bool, now: u64) -> Self {
        CacheView {
            stream: self.stream.finish(tile_limits(), k, ok, now),
            region: if ok {
                Some(region_with(self.region, tile_region(k)))
            } else {
                self.region
            },
            failed: if !ok && self.failed < usize::MAX {
                self.failed + 1
            } else {
                self.failed
            },
        }
    }

    /// The cache after fetching the first `n` of the listed tiles ended.
    pub open spec fn finish_all(self, done: Seq<(TileKey, bool)>, now: u64, n: int) -> Self
        decreases n,
    {
        if n <= 0 {
            self
        } else {
            self.finish_all(done, now, n - 1).finish(done[n - 1].0, done[n - 1].1, now)
        }
    }

    /// The tile that is requested.
    pub open spec fn pick(self, wanted: Seq<TileKey>, dt: u64, now: u64) -> Option<TileKey> {
        self.stream.pick(tile_limits(), wanted, dt, now)
    }

    /// The cache after a request.
    pub open spec fn request(self, wanted: Seq<TileKey>, dt: u64, now: u64) -> Self {
        CacheView {
            stream: self.stream.request(tile_limits(), wanted, dt, now),
            failed: if self.pick(wanted, dt, now) is Some && self.failed > 0 {
                self.failed - 1
            } else {
                self.failed
            },
            ..self
        }
    }

    /// The cache after eviction.
    pub open spec fn evict(self, wanted: Seq<TileKey>) -> Self {
        CacheView { stream: self.stream.evict(wanted, MAX_TILES as nat), ..self }
    }

    /// The cache after the wanted tiles were marked as used.
    pub open spec fn touch(self, wanted: Seq<TileKey>) -> Self {
        CacheView { stream: self.stream.touch(wanted), ..self }
    }
}

/// What a frame asks of the tile stream: a tile to fetch, and tiles to unload.
#[derive(Debug)]
pub struct Frame {
    pub fetch: Option<TileKey>,
    pub unload: Vec<TileKey>,
}

impl Default for TileCache {
    /// A cache without tiles.
    fn default() -> (r: Self)
        ensures
            r.wf(),
            r@ == (CacheView { stream: StreamView::empty(), region: None, failed: 0 }),
    {
        let limits = Limits {
            max_inflight: MAX_INFLIGHT,
            interval: REQUEST_INTERVAL,
            retry: RETRY_AFTER,
        };
        TileCache { stream: Stream::new(limits), loaded_region: None, failed: 0 }
    }
}

impl TileCache {
    /// The stream is well-formed and has the limits of the vector tile stream.
    pub open spec fn wf(self) -> bool {
        self.stream.wf() && self.stream.limits == tile_limits()
    }

    /// Whether fetching has ended for tiles that are being fetched, each listed once.
    pub open spec fn accepts(self, done: Seq<(TileKey, bool)>) -> bool {
        &&& forall|i: int|
            0 <= i < done.len() ==> {
                &&& (#[trigger] done[i]).0.z <= 30
                &&& self.stream.tiles@.contains_key(done[i].0)
                &&& self.stream.tiles@[done[i].0] == Status::Fetching
            }
        &&& forall|i: int, j: int|
            0 <= i < j < done.len() ==> (#[trigger] done[i]).0 != (#[trigger] done[j]).0
    }

    /// The number of loaded tiles.
    pub fn loaded_count(&self) -> (r: usize)
        requires
            self.wf(),
        ensures
            r == self.stream.tiles.count(Status::Loaded),
    {
        self.stream.loaded()
    }

    /// Whether a tile is being fetched.
    pub fn is_fetching(&self, k: TileKey) -> (r: bool)
        requires
            self.wf(),
        ensures
            r == (self.stream.tiles@.contains_key(k) && self.stream.tiles@[k] == Status::Fetching),
    {
        match self.stream.tiles.get(&k) {
            Some(Status::Fetching) => true,
            _ => false,
        }
    }

    /// Marks the wanted tiles as used.
    pub fn touch(&mut self, wanted: &[TileKey])
        requires
            old(self).wf(),
        ensures
            final(self).wf(),
            final(self)@ == old(self)@.touch(wanted@),
    {
        self.stream.touch(wanted);
    }

    /// Notes that fetching a tile ended.
    pub fn finish(&mut self, k: TileKey, ok: bool, now: u64)
        requires
            old(self).wf(),
            k.z <= 30,
            old(self).stream.tiles@.contains_key(k),
            old(self).stream.tiles@[k] == Status::Fetching,
        ensures
            final(self).wf(),
            final(self)@ == old(self)@.finish(k, ok, now),
    {
        self.stream.finish(k, ok, now);
        if ok {
            let b = region_of(k);
            self.loaded_region = Some(
                match self.loaded_region {
                    None => b,
                    Some(a) => Region {
                        west: if b.west < a.west { b.west } else { a.west },
                        north: if b.north < a.north { b.north } else { a.north },
                        east: if b.east > a.east { b.east } else { a.east },
                        south: if b.south > a.south { b.south } else { a.south },
                    },
                },
            );
        } else if self.failed < usize::MAX {
            self.failed = self.failed + 1;
        }
    }

    /// Lets time pass and picks the tile to be fetched next.
    pub fn request(&mut self, wanted: &[TileKey], dt: u64, now: u64) -> (r: Option<TileKey>)
        requires
            old(self).wf(),
        ensures
            final(self).wf(),
            r == old(self)@.pick(wanted@, dt, now),
            final(self)@ == old(self)@.request(wanted@, dt, now),
    {
        let r: Option<TileKey> = self.stream.request(wanted, dt, now);
        if r.is_some() && self.failed > 0 {
            self.failed = self.failed - 1;
        }
        r
    }

    /// Drops the tiles used longest ago while there are too many, up to the first wanted one.
    pub fn evict(&mut self, wanted: &[TileKey]) -> (dropped: Vec<TileKey>)
        requires
            old(self).wf(),
        ensures
            final(self).wf(),
            dropped@ == old(self)@.stream.evicted(wanted@, MAX_TILES as nat),
            final(self)@ == old(self)@.evict(wanted@),
    {
        self.stream.evict(wanted, MAX_TILES)
    }

    /// One frame of the stream: the wanted tiles are marked as used, the tiles whose fetching
    /// ended are noted, a new request may start, and old tiles are dropped, in this order.
    pub fn frame(&mut self, wanted: &[TileKey], done: &[(TileKey, bool)], dt: u64, now: u64) -> (r:
        Frame)
        requires
            old(self).wf(),
            old(self).accepts(done@),
        ensures
            final(self).wf(),
            ({
                let noted = old(self)@.touch(wanted@).finish_all(done@, now, done@.len() as int);
                let asked = noted.request(wanted@, dt, now);
                &&& r.fetch == noted.pick(wanted@, dt, now)
                &&& r.unload@ == asked.stream.evicted(wanted@, MAX_TILES as nat)
                &&& final(self)@ == asked.evict(wanted@)
            }),
    {
        self.touch(wanted);
        let ghost start = self@;
        let mut i: usize = 0;
        while i < done.len()
            invariant
                i <= done@.len(),
                self.wf(),
                self@ == start.finish_all(done@, now, i as int),
                forall|j: int|
                    i <= j < done@.len() ==> {
                        &&& (#[trigger] done@[j]).0.z <= 30
                        &&& self.stream.tiles@.contains_key(done@[j].0)
                        &&& self.stream.tiles@[done@[j].0] == Status::Fetching
                    },
                forall|a: int, b: int|
                    0 <= a < b < done@.len() ==> (#[trigger] done@[a]).0 != (#[trigger] done@[b]).0,
            decreases done@.len() - i,
        {
            let (k, ok) = done[i];
            self.finish(k, ok, now);
            i = i + 1;
        }
        let fetch: Option<TileKey> = self.request(wanted, dt, now);
        let unload: Vec<TileKey> = self.evict(wanted);
        Frame { fetch, unload }
    }
}

} // verus!
