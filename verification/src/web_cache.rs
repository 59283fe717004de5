//! Keys of the persistent tile cache of the web build.
//!
//! The keys are synthetic addresses that depend on the source and on the tile's place in the
//! quadtree alone, so that entries survive a change of the address from which tiles are loaded.

use vstd::prelude::*;

use crate::text::{
    digits, is_digit, lemma_digits_injective, lemma_digits_shape, push_digits,
};

verus! {

/// Three numbers separated by slashes.
pub open spec fn path_text(a: nat, b: nat, c: nat) -> Seq<char> {
    digits(a) + seq!['/'] + digits(b) + seq!['/'] + digits(c)
}

/// Appends three numbers separated by slashes.
pub fn push_path(out: &mut String, a: u64, b: u64, c: u64)
    ensures
        final(out)@ == old(out)@ + path_text(a as nat, b as nat, c as nat),
{
    let ghost start = out@;
    push_digits(out, a);
    out.push('/');
    push_digits(out, b);
    out.push('/');
    push_digits(out, c);
    assert(out@ =~= start + path_text(a as nat, b as nat, c as nat));
}

/// The cache key of an imagery tile.
pub open spec fn gibs_key(z: u8, x: u32, y: u32) -> Seq<char> {
    "https://msdos.tiles/gibs/"@ + path_text(z as nat, y as nat, x as nat)
}

/// The cache key of a vector tile.
pub open spec fn ofm_key(z: u8, x: u32, y: u32) -> Seq<char> {
    "https://msdos.tiles/ofm/"@ + path_text(z as nat, x as nat, y as nat)
}

/// The stable cache key of an imagery tile: level, row, column, as in the request.
pub fn gibs_cache_key(z: u8, x: u32, y: u32) -> (r: String)
    ensures
        r@ == gibs_key(z, x, y),
{
    let mut out: String = "https://msdos.tiles/gibs/".to_owned();
    push_path(&mut out, z as u64, y as u64, x as u64);
    out
}

/// The stable cache key of a vector tile: level, column, row.
pub fn ofm_cache_key(z: u8, x: u32, y: u32) -> (r: String)
    ensures
        r@ == ofm_key(z, x, y),
{
    let mut out: String = "https://msdos.tiles/ofm/".to_owned();
    push_path(&mut out, z as u64, x as u64, y as u64);
    out
}

/// What the cache holds for a tile is used where it is not empty.
pub fn usable_hit(hit: Option<Vec<u8>>) -> (r: Option<Vec<u8>>)
    ensures
        r == match hit {
            Some(bytes) => if bytes@.len() > 0 {
                Some(bytes)
            } else {
                None
            },
            None => None,
        },
{
    match hit {
        Some(bytes) => if bytes.len() > 0 {
            Some(bytes)
        } else {
            None
        },
        None => None,
    }
}

/// Text up to a separator that it does not hold can be told from what follows.
pub proof fn lemma_split_unique(a: Seq<char>, x: Seq<char>, b: Seq<char>, y: Seq<char>, sep: char)
    requires
        a + seq![sep] + x == b + seq![sep] + y,
        !a.contains(sep),
        !b.contains(sep),
    ensures
        a == b,
        x == y,
{
    let s = a + seq![sep] + x;
    let t = b + seq![sep] + y;
    assert(s[a.len() as int] == sep);
    assert(t[b.len() as int] == sep);
    if a.len() < b.len() {
        assert(t[a.len() as int] == b[a.len() as int]);
        assert(b.contains(sep));
    }
    if b.len() < a.len() {
        assert(s[b.len() as int] == a[b.len() as int]);
        assert(a.contains(sep));
    }
    assert(a =~= s.take(a.len() as int));
    assert(b =~= t.take(b.len() as int));
    assert(x =~= s.skip(a.len() as int + 1));
    assert(y =~= t.skip(b.len() as int + 1));
}

proof fn lemma_no_slash(n: nat)
    ensures
        !digits(n).contains('/'),
{
    lemma_digits_shape(n);
    if digits(n).contains('/') {
        let i = choose|i: int| 0 <= i < digits(n).len() && digits(n)[i] == '/';
        assert(is_digit(digits(n)[i]));
    }
}

/// Different triples of numbers have different paths.
pub proof fn lemma_path_injective(a: nat, b: nat, c: nat, d: nat, e: nat, f: nat)
    requires
        path_text(a, b, c) == path_text(d, e, f),
    ensures
        a == d,
        b == e,
        c == f,
{
    lemma_no_slash(a);
    lemma_no_slash(b);
    lemma_no_slash(d);
    lemma_no_slash(e);
    let x = digits(b) + seq!['/'] + digits(c);
    let y = digits(e) + seq!['/'] + digits(f);
    assert(path_text(a, b, c) =~= digits(a) + seq!['/'] + x);
    assert(path_text(d, e, f) =~= digits(d) + seq!['/'] + y);
    lemma_split_unique(digits(a), x, digits(d), y, '/');
    lemma_split_unique(digits(b), digits(c), digits(e), digits(f), '/');
    lemma_digits_injective(a, d);
    lemma_digits_injective(b, e);
    lemma_digits_injective(c, f);
}

/// Cache keys stand one to one for tiles: two keys of one source are equal only for the same
/// tile, and no key of one source is a key of the other.
pub proof fn cache_keys_are_one_to_one(z: u8, x: u32, y: u32, z2: u8, x2: u32, y2: u32)
    ensures
        gibs_key(z, x, y) == gibs_key(z2, x2, y2) ==> z == z2 && x == x2 && y == y2,
        ofm_key(z, x, y) == ofm_key(z2, x2, y2) ==> z == z2 && x == x2 && y == y2,
        gibs_key(z, x, y) != ofm_key(z2, x2, y2),
{
    let g = "https://msdos.tiles/gibs/"@;
    let o = "https://msdos.tiles/ofm/"@;
    reveal_strlit("https://msdos.tiles/gibs/");
    reveal_strlit("https://msdos.tiles/ofm/");
    assert(gibs_key(z, x, y)[20] == 'g');
    assert(ofm_key(z2, x2, y2)[20] == 'o');
    if gibs_key(z, x, y) == gibs_key(z2, x2, y2) {
        let p = path_text(z as nat, y as nat, x as nat);
        let q = path_text(z2 as nat, y2 as nat, x2 as nat);
        assert(p =~= gibs_key(z, x, y).skip(g.len() as int));
        assert(q =~= gibs_key(z2, x2, y2).skip(g.len() as int));
        lemma_path_injective(z as nat, y as nat, x as nat, z2 as nat, y2 as nat, x2 as nat);
    }
    if ofm_key(z, x, y) == ofm_key(z2, x2, y2) {
        let p = path_text(z as nat, x as nat, y as nat);
        let q = path_text(z2 as nat, x2 as nat, y2 as nat);
        assert(p =~= ofm_key(z, x, y).skip(o.len() as int));
        assert(q =~= ofm_key(z2, x2, y2).skip(o.len() as int));
        lemma_path_injective(z as nat, x as nat, y as nat, z2 as nat, x2 as nat, y2 as nat);
    }
}

} // verus!
