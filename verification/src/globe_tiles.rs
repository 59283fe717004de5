//! The stream of imagery tiles that cover the globe: which tiles stand in for others, which are
//! hidden by finer ones, and the state of the stream.

use vstd::prelude::*;
use vstd::arithmetic::power2::pow2;

use crate::globe::GLOBE_RADIUS;
use crate::stream::{Key, Limits, Status, StatusMap, Stream, StreamView};
use crate::web_cache::{path_text, push_path};

verus! {

/// The place of an imagery tile: level, column and row.
#[derive(Debug, Clone, Copy, PartialEq, Eq, Structural, Hash)]
pub struct GlobeKey {
    pub z: u8,
    pub x: u32,
    pub y: u32,
}

impl Key for GlobeKey {
    fn is(&self, other: &Self) -> (r: bool) {
        self.z == other.z && self.x == other.x && self.y == other.y
    }
}

impl GlobeKey {
    /// The level has at most 31 bits of columns and rows, and the tile lies in its grid.
    pub open spec fn valid(self) -> bool {
        self.z <= 31 && self.x < pow2(self.z as nat) && self.y < pow2(self.z as nat)
    }
}

/// The finest level of the imagery.
pub const GIBS_MAX_Z: u8 = 8;

/// How many tiles are kept.
pub const MAX_TILES: usize = 120;

/// How many tiles may be fetched at once.
pub const MAX_INFLIGHT: usize = 3;

/// The least time between two requests, in nanoseconds.
pub const REQUEST_INTERVAL: u64 = 300_000_000;

/// The time after which a failed tile is tried again, in nanoseconds.
pub const RETRY_AFTER: u64 = 30_000_000_000;

/// The limits of the imagery stream.
pub open spec fn globe_limits() -> Limits {
    Limits { max_inflight: MAX_INFLIGHT, interval: REQUEST_INTERVAL, retry: RETRY_AFTER }
}

/// Where the imagery is loaded from.
pub const GIBS_TEMPLATE: &'static str =
    "https://gibs.earthdata.nasa.gov/wmts/epsg3857/best/BlueMarble_ShadedRelief_Bathymetry/default/GoogleMapsCompatible_Level8";

/// The address of an imagery tile: level, row, column.
pub fn gibs_url(k: GlobeKey) -> (r: String)
    ensures
        r@ == GIBS_TEMPLATE@ + seq!['/'] + path_text(k.z as nat, k.y as nat, k.x as nat) + ".jpg"@,
{
    let mut out: String = GIBS_TEMPLATE.to_owned();
    out.push('/');
    push_path(&mut out, k.z as u64, k.y as u64, k.x as u64);
    out.append(".jpg");
    assert(out@ =~= GIBS_TEMPLATE@ + seq!['/'] + path_text(k.z as nat, k.y as nat, k.x as nat)
        + ".jpg"@);
    out
}

/// Whether the pixels of the tiles of a level are no larger than those of the screen, from some
/// millimetres above the ground: the equator is 40075016.7 metres long and 256 pixels wide at
/// level 0, and a screen shows a nine hundredth of the height in a pixel.
pub open spec fn level_suffices(above: int, z: int) -> bool {
    pow2(z as nat) * (256 * above * 10) >= 400_750_167int * 900 * 1000
}

/// The coarsest level from `z` on that suffices, the finest one where none does.
pub open spec fn level_from(above: int, z: int) -> int
    decreases 8 - z,
{
    if z >= 8 || level_suffices(above, z) {
        if z < 8 {
            z
        } else {
            8
        }
    } else {
        level_from(above, z + 1)
    }
}

/// The level for a camera at a distance, in millimetres, from the centre of the globe, at least a
/// kilometre above the ground.
pub fn globe_zoom_for(distance: i64) -> (r: u8)
    requires
        0 <= distance <= 1_000_000_000_000,
    ensures
        r == level_from(
            if distance - GLOBE_RADIUS < 1_000_000 {
                1_000_000
            } else {
                distance - GLOBE_RADIUS
            },
            0,
        ),
        r <= GIBS_MAX_Z,
{
    let height: i64 = distance - GLOBE_RADIUS;
    let above: u128 = if height < 1_000_000 { 1_000_000 } else { height as u128 };
    let mut z: u8 = 0;
    let mut power: u128 = 1;
    proof {
        vstd::arithmetic::power2::lemma2_to64();
    }
    while z < 8
        invariant
            z <= 8,
            1_000_000 <= above <= 1_000_000_000_000,
            above == if distance - GLOBE_RADIUS < 1_000_000 {
                1_000_000
            } else {
                distance - GLOBE_RADIUS
            },
            power == pow2(z as nat),
            power <= 256,
            level_from(above as int, 0) == level_from(above as int, z as int),
        decreases 8 - z,
    {
        proof {
            assert(power * (256 * above * 10) <= 256 * (256 * 1_000_000_000_000 * 10))
                by (nonlinear_arith)
                requires
                    power <= 256,
                    above <= 1_000_000_000_000,
            ;
            vstd::arithmetic::power2::lemma_pow2_unfold((z + 1) as nat);
        }
        if power * (256 * above * 10) >= 400_750_167 * 900 * 1000 {
            return z;
        }
        z = z + 1;
        power = power * 2;
        proof {
            vstd::arithmetic::power2::lemma2_to64();
            assert(power <= 256) by {
                if z < 8 {
                    vstd::arithmetic::power2::lemma_pow2_strictly_increases(z as nat, 8);
                }
            }
        }
    }
    8
}

// ---------- the quadtree ----------

/// Whether one tile is a coarser tile that covers another.
pub open spec fn is_ancestor(a: GlobeKey, k: GlobeKey) -> bool {
    &&& a.z < k.z
    &&& a.x == k.x as nat / pow2((k.z - a.z) as nat)
    &&& a.y == k.y as nat / pow2((k.z - a.z) as nat)
}

/// Whether a tile is not ready yet: being fetched, or waiting to be tried again.
pub open spec fn pending(tiles: Map<GlobeKey, Status>, k: GlobeKey) -> bool {
    tiles.contains_key(k) && tiles[k] != Status::Loaded
}

/// Whether a tile covers one that is not ready yet, and so stands in for it.
pub open spec fn protected(tiles: Map<GlobeKey, Status>, a: GlobeKey) -> bool {
    exists|k: GlobeKey| #[trigger] pending(tiles, k) && is_ancestor(a, k)
}

fn ancestor_at(k: GlobeKey, z: u8) -> (r: GlobeKey)
    requires
        z < k.z <= 31,
    ensures
        r.z == z,
        is_ancestor(r, k),
{
    let d: u32 = (k.z - z) as u32;
    proof {
        vstd::bits::lemma_u32_shr_is_div(k.x, d);
        vstd::bits::lemma_u32_shr_is_div(k.y, d);
    }
    GlobeKey { z, x: k.x >> d, y: k.y >> d }
}

/// Two tiles of one level that cover the same tile are the same.
pub proof fn ancestor_of_a_level_is_unique(a: GlobeKey, b: GlobeKey, k: GlobeKey)
    requires
        is_ancestor(a, k),
        is_ancestor(b, k),
        a.z == b.z,
    ensures
        a == b,
{
}

/// All tiles that cover a tile not ready yet: they are shown in its place and must stay.
pub fn fallback_protected(tiles: &StatusMap<GlobeKey>) -> (r: Vec<GlobeKey>)
    requires
        tiles.wf(),
        forall|k: GlobeKey| pending(tiles@, k) ==> k.z <= 31,
    ensures
        forall|a: GlobeKey| r@.contains(a) <==> protected(tiles@, a),
{
    let mut out: Vec<GlobeKey> = Vec::new();
    let mut i: usize = 0;
    let ghost entries = tiles.entries@;
    while i < tiles.entries.len()
        invariant
            i <= entries.len(),
            entries == tiles.entries@,
            tiles.wf(),
            forall|k: GlobeKey| pending(tiles@, k) ==> k.z <= 31,
            forall|a: GlobeKey| #[trigger]
                out@.contains(a) ==> exists|j: int|
                    0 <= j < i && (#[trigger] entries[j]).1 != Status::Loaded && is_ancestor(
                        a,
                        entries[j].0,
                    ),
            forall|a: GlobeKey, j: int|
                0 <= j < i && entries[j].1 != Status::Loaded && #[trigger] is_ancestor(
                    a,
                    #[trigger] entries[j].0,
                ) ==> out@.contains(a),
        decreases entries.len() - i,
    {
        let (k, st) = tiles.entries[i];
        let loaded: bool = match st {
            Status::Loaded => true,
            _ => false,
        };
        if !loaded {
            proof {
                crate::stream::lemma_at(entries, i as int);
                assert(pending(tiles@, k));
            }
            let ghost start = out@;
            let mut z: u8 = k.z;
            while z > 0
                invariant
                    z <= k.z <= 31,
                    i < entries.len(),
                    entries[i as int] == (k, st),
                    st != Status::Loaded,
                    forall|a: GlobeKey| #[trigger]
                        out@.contains(a) ==> start.contains(a) || (is_ancestor(a, k) && a.z >= z),
                    forall|a: GlobeKey| start.contains(a) ==> #[trigger] out@.contains(a),
                    forall|a: GlobeKey| #[trigger] is_ancestor(a, k) && a.z >= z ==> out@.contains(a),
                decreases z,
            {
                z = z - 1;
                let a: GlobeKey = ancestor_at(k, z);
                let ghost before = out@;
                out.push(a);
                proof {
                    assert(out@[before.len() as int] == a);
                    assert forall|b: GlobeKey| #[trigger] out@.contains(b) implies start.contains(b)
                        || (is_ancestor(b, k) && b.z >= z) by {
                        let n = choose|n: int| 0 <= n < out@.len() && out@[n] == b;
                        if n < before.len() {
                            assert(before[n] == b);
                            assert(before.contains(b));
                        }
                    }
                    assert forall|b: GlobeKey| before.contains(b) implies out@.contains(b) by {
                        let n = choose|n: int| 0 <= n < before.len() && before[n] == b;
                        assert(out@[n] == b);
                    }
                    assert forall|b: GlobeKey| start.contains(b) implies #[trigger] out@.contains(b) by {
                        assert(before.contains(b));
                    }
                    assert forall|b: GlobeKey| #[trigger] is_ancestor(b, k) && b.z >= z implies out@.contains(
                    b) by {
                        if b.z == z {
                            ancestor_of_a_level_is_unique(a, b, k);
                        } else {
                            assert(before.contains(b));
                        }
                    }
                }
            }
            proof {
                assert forall|a: GlobeKey| #[trigger] out@.contains(a) implies exists|j: int|
                    0 <= j < i + 1 && (#[trigger] entries[j]).1 != Status::Loaded && is_ancestor(
                        a,
                        entries[j].0,
                    ) by {
                    if start.contains(a) {
                        let j = choose|j: int|
                            0 <= j < i && (#[trigger] entries[j]).1 != Status::Loaded
                                && is_ancestor(a, entries[j].0);
                        assert(entries[j].1 != Status::Loaded);
                    } else {
                        assert(entries[i as int].1 != Status::Loaded);
                        assert(is_ancestor(a, entries[i as int].0));
                    }
                }
            }
        }
        i = i + 1;
    }
    proof {
        assert forall|a: GlobeKey| out@.contains(a) <==> protected(tiles@, a) by {
            if out@.contains(a) {
                let j = choose|j: int|
                    0 <= j < entries.len() && (#[trigger] entries[j]).1 != Status::Loaded
                        && is_ancestor(a, entries[j].0);
                crate::stream::lemma_at(entries, j);
                assert(pending(tiles@, entries[j].0));
            }
            if protected(tiles@, a) {
                let k = choose|k: GlobeKey| #[trigger] pending(tiles@, k) && is_ancestor(a, k);
                let j = crate::stream::lemma_find(entries, k);
                assert(is_ancestor(a, entries[j].0));
            }
        }
    }
    out
}

/// Whether a tile of a coarser level than the target is covered by loaded tiles of the target
/// level alone: every tile of that level that it covers is loaded.
pub open spec fn covered(key: GlobeKey, z_target: u8, tiles: Map<GlobeKey, Status>) -> bool {
    &&& key.z < z_target
    &&& forall|k: GlobeKey|
        k.z == z_target && #[trigger] is_ancestor(key, k) ==> tiles.contains_key(k) && tiles[k]
            == Status::Loaded
}

/// Whether a tile can be hidden: all tiles of the target level that it covers are loaded.
pub fn fully_covered_by_target(key: GlobeKey, z_target: u8, tiles: &StatusMap<GlobeKey>) -> (r:
    bool)
    requires
        tiles.wf(),
        key.z < z_target ==> key.valid() && z_target <= 31,
    ensures
        r == covered(key, z_target, tiles@),
{
    if key.z >= z_target {
        return false;
    }
    let d: u32 = (z_target - key.z) as u32;
    proof {
        vstd::arithmetic::power2::lemma2_to64();
        vstd::arithmetic::power2::lemma_pow2_pos(d as nat);
        vstd::arithmetic::power2::lemma_pow2_strictly_increases(d as nat, 32);
        vstd::bits::lemma_u32_shl_is_mul(1, d);
        vstd::arithmetic::power2::lemma_pow2_adds(key.z as nat, d as nat);
        if z_target < 32 {
            vstd::arithmetic::power2::lemma_pow2_strictly_increases(z_target as nat, 32);
        }
    }
    let n: u32 = 1u32 << d;
    proof {
        assert(n == pow2(d as nat));
        lemma_child_bound(key.x as int, n as int, pow2(key.z as nat) as int);
        lemma_child_bound(key.y as int, n as int, pow2(key.z as nat) as int);
    }
    let x0: u32 = key.x * n;
    let y0: u32 = key.y * n;
    proof {
        assert forall|k: GlobeKey| k.z == z_target && #[trigger] is_ancestor(key, k) implies x0 <= k.x
            < x0 + n && y0 <= k.y < y0 + n by {
            lemma_child(key, k, n as int);
        }
    }
    let mut ty: u32 = 0;
    while ty < n
        invariant
            ty <= n,
            tiles.wf(),
            key.z < z_target <= 31,
            d == z_target - key.z,
            n == pow2(d as nat),
            n >= 1,
            x0 == key.x * n,
            y0 == key.y * n,
            x0 + n <= u32::MAX,
            y0 + n <= u32::MAX,
            forall|k: GlobeKey|
                k.z == z_target && #[trigger] is_ancestor(key, k) ==> x0 <= k.x < x0 + n && y0 <= k.y
                    < y0 + n,
            forall|k: GlobeKey|
                k.z == z_target && #[trigger] is_ancestor(key, k) && k.y < y0 + ty
                    ==> tiles@.contains_key(k) && tiles@[k] == Status::Loaded,
        decreases n - ty,
    {
        let mut tx: u32 = 0;
        while tx < n
            invariant
                tx <= n,
                ty < n,
                tiles.wf(),
                key.z < z_target <= 31,
                d == z_target - key.z,
                n == pow2(d as nat),
                n >= 1,
                x0 == key.x * n,
                y0 == key.y * n,
                x0 + n <= u32::MAX,
                y0 + n <= u32::MAX,
                forall|k: GlobeKey|
                    k.z == z_target && #[trigger] is_ancestor(key, k) ==> x0 <= k.x < x0 + n && y0
                        <= k.y < y0 + n,
                forall|k: GlobeKey|
                    k.z == z_target && #[trigger] is_ancestor(key, k) && (k.y < y0 + ty || (k.y == y0
                        + ty && k.x < x0 + tx)) ==> tiles@.contains_key(k) && tiles@[k]
                        == Status::Loaded,
            decreases n - tx,
        {
            let k = GlobeKey { z: z_target, x: x0 + tx, y: y0 + ty };
            proof {
                lemma_child(key, k, n as int);
            }
            let loaded: bool = match tiles.get(&k) {
                Some(Status::Loaded) => true,
                _ => false,
            };
            if !loaded {
                assert(is_ancestor(key, k));
                return false;
            }
            tx = tx + 1;
        }
        proof {
            assert forall|k: GlobeKey|
                k.z == z_target && #[trigger] is_ancestor(key, k) && k.y < y0 + ty + 1 implies tiles@.contains_key(
            k) && tiles@[k] == Status::Loaded by {
                lemma_child(key, k, n as int);
            }
        }
        ty = ty + 1;
    }
    proof {
        assert forall|k: GlobeKey| k.z == z_target && #[trigger] is_ancestor(key, k) implies tiles@.contains_key(
        k) && tiles@[k] == Status::Loaded by {
            lemma_child(key, k, n as int);
        }
    }
    true
}

proof fn lemma_child_bound(x: int, n: int, side: int)
    requires
        0 <= x < side,
        1 <= n,
        side * n <= 0x8000_0000,
    ensures
        0 <= x * n,
        x * n + n <= 0x8000_0000,
{
    assert(0 <= x * n && x * n + n <= side * n) by (nonlinear_arith)
        requires
            0 <= x < side,
            1 <= n,
    ;
}

/// The tiles that a tile covers are those of a square of columns and rows.
proof fn lemma_child(key: GlobeKey, k: GlobeKey, n: int)
    requires
        key.z < k.z,
        n == pow2((k.z - key.z) as nat),
        n >= 1,
    ensures
        is_ancestor(key, k) <==> key.x * n <= k.x < key.x * n + n && key.y * n <= k.y < key.y * n
            + n,
{
    lemma_quotient(k.x as int, n, key.x as int);
    lemma_quotient(k.y as int, n, key.y as int);
}

proof fn lemma_quotient(a: int, n: int, q: int)
    requires
        n >= 1,
        a >= 0,
    ensures
        a / n == q <==> q * n <= a < q * n + n,
{
    vstd::arithmetic::div_mod::lemma_fundamental_div_mod(a, n);
    vstd::arithmetic::div_mod::lemma_mod_bound(a, n);
    assert(n * (a / n) == (a / n) * n) by (nonlinear_arith);
    if q * n <= a < q * n + n {
        vstd::arithmetic::div_mod::lemma_fundamental_div_mod_converse(a, n, q, a - q * n);
    }
}

/// A tile that stands in for one not ready yet is never hidden at the level of that tile.
pub proof fn stand_ins_stay_visible(tiles: Map<GlobeKey, Status>, a: GlobeKey, k: GlobeKey)
    requires
        pending(tiles, k),
        is_ancestor(a, k),
    ensures
        protected(tiles, a),
        !covered(a, k.z, tiles),
{
}

// ---------- tile contents ----------

/// A picture: width, height, and four bytes for each pixel.
#[derive(Debug)]
pub struct GlobeImage {
    pub width: u32,
    pub height: u32,
    pub rgba: Vec<u8>,
}

/// What a `GlobeImage` stands for.
pub struct ImageView {
    pub width: u32,
    pub height: u32,
    pub rgba: Seq<u8>,
}

impl View for GlobeImage {
    type V = ImageView;

    open spec fn view(&self) -> ImageView {
        ImageView { width: self.width, height: self.height, rgba: self.rgba@ }
    }
}

/// What the outcome of decoding stands for.
pub open spec fn image_outcome(r: Result<GlobeImage, String>) -> Result<ImageView, Seq<char>> {
    match r {
        Ok(i) => Ok(i@),
        Err(e) => Err(e@),
    }
}

/// The picture that a JPEG file holds, or the text of the error that stops its decoding.
pub uninterp spec fn jpeg_image(bytes: Seq<u8>) -> Result<ImageView, Seq<char>>;

/// `image::ImageReader::decode` on a JPEG file, as RGBA. Claimed: the picture, or the text of
/// the error, depends on the bytes alone.
#[verifier::external_body]
fn decode_jpeg(bytes: &[u8]) -> (r: Result<GlobeImage, String>)
    ensures
        image_outcome(r) == jpeg_image(bytes@),
{
    let reader = image::ImageReader::with_format(std::io::Cursor::new(bytes), image::ImageFormat::Jpeg);
    match reader.decode() {
        Ok(picture) => {
            let rgba = picture.to_rgba8();
            Ok(GlobeImage { width: rgba.width(), height: rgba.height(), rgba: rgba.into_raw() })
        },
        Err(e) => Err(format!("{e}")),
    }
}

/// The outcome of decoding with the error as it is reported.
pub open spec fn reported_image(outcome: Result<ImageView, Seq<char>>) -> Result<
    ImageView,
    Seq<char>,
> {
    match outcome {
        Ok(i) => Ok(i),
        Err(e) => Err("JPEG 解码失败: "@ + e),
    }
}

/// The outcome of decoding with the error as it is reported.
pub fn report_image(outcome: Result<GlobeImage, String>) -> (r: Result<GlobeImage, String>)
    ensures
        image_outcome(r) == reported_image(image_outcome(outcome)),
{
    match outcome {
        Ok(i) => Ok(i),
        Err(e) => Err("JPEG 解码失败: ".to_owned().concat(e.as_str())),
    }
}

/// The picture of an imagery tile.
pub fn tile_image(bytes: &[u8]) -> (r: Result<GlobeImage, String>)
    ensures
        image_outcome(r) == reported_image(jpeg_image(bytes@)),
{
    report_image(decode_jpeg(bytes))
}

// ---------- the stream ----------

/// The tiles of a level, row by row, that are marked.
pub open spec fn marked(z: u8, marks: Seq<bool>, n: int) -> Seq<GlobeKey>
    decreases n,
{
    if n <= 0 {
        Seq::empty()
    } else {
        let before = marked(z, marks, n - 1);
        let side = pow2(z as nat) as int;
        if marks[n - 1] {
            before.push(
                GlobeKey { z, x: ((n - 1) % side) as u32, y: ((n - 1) / side) as u32 },
            )
        } else {
            before
        }
    }
}

/// Every marked tile lies in the grid of its level.
pub proof fn marked_tiles_are_valid(z: u8, marks: Seq<bool>, n: int)
    requires
        z <= 15,
        0 <= n <= pow2(z as nat) * pow2(z as nat),
    ensures
        forall|i: int| 0 <= i < marked(z, marks, n).len() ==> (#[trigger] marked(z, marks, n)[i]).valid()
            && marked(z, marks, n)[i].z == z,
    decreases n,
{
    if n > 0 {
        marked_tiles_are_valid(z, marks, n - 1);
        let side = pow2(z as nat) as int;
        vstd::arithmetic::power2::lemma_pow2_pos(z as nat);
        vstd::arithmetic::power2::lemma2_to64();
        vstd::arithmetic::power2::lemma_pow2_strictly_increases(z as nat, 16);
        let i = n - 1;
        vstd::arithmetic::div_mod::lemma_fundamental_div_mod(i, side);
        vstd::arithmetic::div_mod::lemma_mod_bound(i, side);
        vstd::arithmetic::div_mod::lemma_div_pos_is_pos(i, side);
        assert(i / side < side) by (nonlinear_arith)
            requires
                i == side * (i / side) + i % side,
                0 <= i % side,
                i < side * side,
                side >= 1,
        ;
        assert(side < 0x1_0000);
        let last = GlobeKey { z, x: (i % side) as u32, y: (i / side) as u32 };
        assert(last.x == i % side && last.y == i / side);
        assert(last.valid());
        let before = marked(z, marks, n - 1);
        let all = marked(z, marks, n);
        assert forall|j: int| 0 <= j < all.len() implies (#[trigger] all[j]).valid() && all[j].z
            == z by {
            if j < before.len() {
                assert(all[j] == before[j]);
            }
        }
    }
}

/// The tiles of a level that face the camera: `facing` says so for each tile, row by row.
pub fn facing_tiles(z: u8, facing: &[bool]) -> (r: Vec<GlobeKey>)
    requires
        z <= 15,
        facing@.len() == pow2(z as nat) * pow2(z as nat),
    ensures
        r@ == marked(z, facing@, facing@.len() as int),
        forall|i: int| 0 <= i < r@.len() ==> (#[trigger] r@[i]).valid() && r@[i].z == z,
{
    let mut keys: Vec<GlobeKey> = Vec::new();
    proof {
        vstd::arithmetic::power2::lemma_pow2_pos(z as nat);
        vstd::arithmetic::power2::lemma2_to64();
        vstd::arithmetic::power2::lemma_pow2_strictly_increases(z as nat, 16);
        vstd::bits::lemma_u32_shl_is_mul(1, z as u32);
        marked_tiles_are_valid(z, facing@, facing@.len() as int);
    }
    let side: usize = (1u32 << (z as u32)) as usize;
    let mut i: usize = 0;
    while i < facing.len()
        invariant
            z <= 15,
            i <= facing@.len(),
            side == pow2(z as nat),
            1 <= side < 0x1_0000,
            facing@.len() == pow2(z as nat) * pow2(z as nat),
            keys@ == marked(z, facing@, i as int),
        decreases facing@.len() - i,
    {
        if facing[i] {
            proof {
                let n = i as int;
                let s = side as int;
                vstd::arithmetic::div_mod::lemma_fundamental_div_mod(n, s);
                vstd::arithmetic::div_mod::lemma_mod_bound(n, s);
                vstd::arithmetic::div_mod::lemma_div_pos_is_pos(n, s);
                assert(n / s < s) by (nonlinear_arith)
                    requires
                        n == s * (n / s) + n % s,
                        0 <= n % s,
                        n < s * s,
                        s >= 1,
                ;
            }
            keys.push(GlobeKey { z, x: (i % side) as u32, y: (i / side) as u32 });
        }
        i = i + 1;
    }
    keys
}

/// The state of the imagery stream.
#[derive(Debug)]
pub struct GlobeTileCache {
    pub stream: Stream<GlobeKey>,
}

/// What a frame asks of the imagery stream: a tile to fetch, which of the shown tiles are
/// hidden, and tiles to unload.
#[derive(Debug)]
pub struct GlobeFrame {
    pub fetch: Option<GlobeKey>,
    pub hidden: Vec<bool>,
    pub unload: Vec<GlobeKey>,
}

/// Whether tiles lie in the grids of their levels.
pub open spec fn all_valid(keys: Seq<GlobeKey>) -> bool {
    forall|i: int| 0 <= i < keys.len() ==> (#[trigger] keys[i]).valid()
}

/// The stream after fetching the first `n` of the listed tiles ended.
pub open spec fn finish_all(
    s: StreamView<GlobeKey>,
    done: Seq<(GlobeKey, bool)>,
    now: u64,
    n: int,
) -> StreamView<GlobeKey>
    decreases n,
{
    if n <= 0 {
        s
    } else {
        finish_all(s, done, now, n - 1).finish(globe_limits(), done[n - 1].0, done[n - 1].1, now)
    }
}

impl Default for GlobeTileCache {
    /// A cache without tiles.
    fn default() -> (r: Self)
        ensures
            r.wf(),
            r.stream@ == StreamView::<GlobeKey>::empty(),
    {
        let limits = Limits {
            max_inflight: MAX_INFLIGHT,
            interval: REQUEST_INTERVAL,
            retry: RETRY_AFTER,
        };
        GlobeTileCache { stream: Stream::new(limits) }
    }
}

impl GlobeTileCache {
    /// The stream is well-formed, has the limits of the imagery stream, and its tiles lie in
    /// the grids of their levels.
    pub open spec fn wf(self) -> bool {
        &&& self.stream.wf()
        &&& self.stream.limits == globe_limits()
        &&& forall|k: GlobeKey| #[trigger] self.stream.tiles@.contains_key(k) ==> k.valid()
    }

    /// Whether fetching has ended for tiles that are being fetched, each listed once.
    pub open spec fn accepts(self, done: Seq<(GlobeKey, bool)>) -> bool {
        &&& forall|i: int|
            0 <= i < done.len() ==> {
                &&& self.stream.tiles@.contains_key((#[trigger] done[i]).0)
                &&& self.stream.tiles@[done[i].0] == Status::Fetching
            }
        &&& forall|i: int, j: int|
            0 <= i < j < done.len() ==> (#[trigger] done[i]).0 != (#[trigger] done[j]).0
    }

    /// The number of loaded tiles.
    pub fn loaded(&self) -> (r: usize)
        requires
            self.wf(),
        ensures
            r == self.stream.tiles.count(Status::Loaded),
    {
        self.stream.loaded()
    }

    /// The number of tiles that are kept.
    pub fn capacity(&self) -> (r: usize)
        ensures
            r == MAX_TILES,
    {
        MAX_TILES
    }

    /// Whether a tile is being fetched.
    pub fn is_fetching(&self, k: GlobeKey) -> (r: bool)
        requires
            self.wf(),
        ensures
            r == (self.stream.tiles@.contains_key(k) && self.stream.tiles@[k] == Status::Fetching),
    {
        match self.stream.tiles.get(&k) {
            Some(Status::Fetching) => true,
            _ => false,
        }
    }

    /// Drops tiles while there are too many, but no wanted tile and none that stands in for a
    /// tile not ready yet.
    pub fn evict(&mut self, wanted: &[GlobeKey]) -> (dropped: Vec<GlobeKey>)
        requires
            old(self).wf(),
        ensures
            final(self).wf(),
            exists|keep: Seq<GlobeKey>|
                {
                    &&& forall|k: GlobeKey| #[trigger]
                        keep.contains(k) <==> wanted@.contains(k) || protected(
                            old(self).stream.tiles@,
                            k,
                        )
                    &&& dropped@ == old(self).stream@.swept_out(keep, MAX_TILES as nat)
                    &&& final(self).stream@ == #[trigger] old(self).stream@.sweep(
                        keep,
                        MAX_TILES as nat,
                    )
                },
    {
        let ghost before = self.stream.tiles@;
        let mut keep: Vec<GlobeKey> = fallback_protected(&self.stream.tiles);
        let ghost guard = keep@;
        let mut i: usize = 0;
        while i < wanted.len()
            invariant
                i <= wanted@.len(),
                keep@ =~= guard + wanted@.take(i as int),
            decreases wanted@.len() - i,
        {
            keep.push(wanted[i]);
            i = i + 1;
        }
        proof {
            assert(keep@ =~= guard + wanted@);
            assert forall|k: GlobeKey| #[trigger] keep@.contains(k) <==> wanted@.contains(k)
                || protected(before, k) by {
                if keep@.contains(k) {
                    let n = choose|n: int| 0 <= n < keep@.len() && keep@[n] == k;
                    if n < guard.len() {
                        assert(guard[n] == k);
                        assert(guard.contains(k));
                    } else {
                        assert(wanted@[n - guard.len()] == k);
                    }
                }
                if wanted@.contains(k) {
                    let n = choose|n: int| 0 <= n < wanted@.len() && wanted@[n] == k;
                    assert(keep@[guard.len() + n] == k);
                }
                if protected(before, k) {
                    assert(guard.contains(k));
                    let n = choose|n: int| 0 <= n < guard.len() && guard[n] == k;
                    assert(keep@[n] == k);
                }
            }
        }
        self.stream.sweep(&keep, MAX_TILES)
    }

    /// One frame of the stream: tiles whose fetching ended are noted, the wanted tiles are marked
    /// as used, a new request may start, the shown tiles that finer ones cover are hidden, and
    /// old tiles are dropped, in this order.
    pub fn frame(
        &mut self,
        wanted: &[GlobeKey],
        done: &[(GlobeKey, bool)],
        shown: &[GlobeKey],
        z: u8,
        dt: u64,
        now: u64,
    ) -> (r: GlobeFrame)
        requires
            old(self).wf(),
            old(self).accepts(done@),
            all_valid(wanted@),
            all_valid(shown@),
            z <= 31,
        ensures
            final(self).wf(),
            ({
                let noted = finish_all(old(self).stream@, done@, now, done@.len() as int).touch(
                    wanted@,
                );
                let asked = noted.request(globe_limits(), wanted@, dt, now);
                &&& r.fetch == noted.pick(globe_limits(), wanted@, dt, now)
                &&& r.hidden@.len() == shown@.len()
                &&& forall|i: int|
                    0 <= i < shown@.len() ==> #[trigger] r.hidden@[i] == covered(
                        shown@[i],
                        z,
                        asked.tiles,
                    )
                &&& exists|keep: Seq<GlobeKey>|
                    {
                        &&& forall|k: GlobeKey| #[trigger]
                            keep.contains(k) <==> wanted@.contains(k) || protected(asked.tiles, k)
                        &&& r.unload@ == asked.swept_out(keep, MAX_TILES as nat)
                        &&& final(self).stream@ == #[trigger] asked.sweep(keep, MAX_TILES as nat)
                    }
            }),
    {
        let ghost start = self.stream@;
        let mut i: usize = 0;
        while i < done.len()
            invariant
                i <= done@.len(),
                self.wf(),
                self.stream@ == finish_all(start, done@, now, i as int),
                forall|j: int|
                    i <= j < done@.len() ==> {
                        &&& self.stream.tiles@.contains_key((#[trigger] done@[j]).0)
                        &&& self.stream.tiles@[done@[j].0] == Status::Fetching
                    },
                forall|a: int, b: int|
                    0 <= a < b < done@.len() ==> (#[trigger] done@[a]).0 != (#[trigger] done@[b]).0,
            decreases done@.len() - i,
        {
            let (k, ok) = done[i];
            assert(self.stream.tiles@.contains_key(done@[i as int].0));
            self.stream.finish(k, ok, now);
            i = i + 1;
        }
        self.stream.touch(wanted);
        let ghost noted = self.stream@;
        let fetch: Option<GlobeKey> = self.stream.request(wanted, dt, now);
        proof {
            if fetch is Some {
                crate::stream::request_picks_the_first_due_tile(noted.tiles, wanted@, now, 0);
            }
        }
        let mut hidden: Vec<bool> = Vec::new();
        let mut j: usize = 0;
        while j < shown.len()
            invariant
                j <= shown@.len(),
                self.wf(),
                all_valid(shown@),
                z <= 31,
                hidden@.len() == j,
                forall|n: int|
                    0 <= n < j ==> #[trigger] hidden@[n] == covered(
                        shown@[n],
                        z,
                        self.stream.tiles@,
                    ),
            decreases shown@.len() - j,
        {
            hidden.push(fully_covered_by_target(shown[j], z, &self.stream.tiles));
            j = j + 1;
        }
        let unload: Vec<GlobeKey> = self.evict(wanted);
        GlobeFrame { fetch, hidden, unload }
    }
}

/// No tile is dropped that is wanted or that stands in for a tile not ready yet.
pub proof fn eviction_spares_stand_ins(
    s: StreamView<GlobeKey>,
    wanted: Seq<GlobeKey>,
    keep: Seq<GlobeKey>,
)
    requires
        forall|k: GlobeKey| #[trigger]
            keep.contains(k) <==> wanted.contains(k) || protected(s.tiles, k),
    ensures
        forall|i: int|
            0 <= i < s.swept_out(keep, MAX_TILES as nat).len() ==> !wanted.contains(
                #[trigger] s.swept_out(keep, MAX_TILES as nat)[i],
            ) && !protected(s.tiles, s.swept_out(keep, MAX_TILES as nat)[i]),
        s.sweep(keep, MAX_TILES as nat).lru.len() <= MAX_TILES || forall|i: int|
            0 <= i < s.sweep(keep, MAX_TILES as nat).lru.len() ==> wanted.contains(
                #[trigger] s.sweep(keep, MAX_TILES as nat).lru[i],
            ) || protected(s.tiles, s.sweep(keep, MAX_TILES as nat).lru[i]),
{
    crate::stream::sweep_drops_all_it_may(s.lru, keep, MAX_TILES as nat);
    let dropped = s.swept_out(keep, MAX_TILES as nat);
    assert forall|i: int| 0 <= i < dropped.len() implies !wanted.contains(#[trigger] dropped[i])
        && !protected(s.tiles, dropped[i]) by {
        assert(!keep.contains(dropped[i]));
    }
    let left = s.sweep(keep, MAX_TILES as nat).lru;
    if left.len() > MAX_TILES {
        assert forall|i: int| 0 <= i < left.len() implies wanted.contains(#[trigger] left[i])
            || protected(s.tiles, left[i]) by {
            assert(keep.contains(left[i]));
        }
    }
}

} // verus!
