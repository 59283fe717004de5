//! Laws of the vector tile format: what its encoding means to the decoder, and what the order of
//! fields and the first step of a geometry do.

use vstd::prelude::*;

use crate::mvt::{
    base128, bytes_at, feature_of, field_at, fields_from, fixed_at, layer_of, lemma_field_advances,
    lemma_pen_moves_index, lemma_varint_end, packed_from, pen_from, pen_moves, raw_feature,
    raw_layer, resolve_tags, rings_of, tile_layers, tile_of, varint_at, varint_end, zigzag_value,
    FeatureView, Field, Payload, Pen, TagValueView,
};

verus! {

// ---------- varints ----------

/// The varint of a number: seven bits to a byte, the lowest first, and the highest bit of every byte
/// but the last is set.
pub open spec fn leb128(v: nat) -> Seq<u8>
    decreases v,
{
    if v < 128 {
        seq![v as u8]
    } else {
        seq![(128 + v % 128) as u8] + leb128(v / 128)
    }
}

/// A number is less than 128 to the power `n`.
spec fn fits(v: nat, n: nat) -> bool
    decreases n,
{
    if n == 0 {
        v == 0
    } else {
        fits(v / 128, (n - 1) as nat)
    }
}

proof fn lemma_leb128_len(v: nat, n: nat)
    requires
        1 <= n,
        fits(v, n),
    ensures
        1 <= leb128(v).len() <= n,
    decreases n,
{
    if v >= 128 {
        assert(n >= 2) by {
            if n == 1 {
                assert(fits(v / 128, 0));
            }
        }
        lemma_leb128_len(v / 128, (n - 1) as nat);
    }
}

proof fn lemma_u64_fits(v: u64)
    ensures
        fits(v as nat, 10),
{
    reveal_with_fuel(fits, 11);
    let a = v as nat;
    assert(a / 128 / 128 / 128 / 128 / 128 / 128 / 128 / 128 / 128 / 128 == 0);
}

/// The varint in the middle of a buffer is read back, and nothing of what follows.
proof fn lemma_leb128(before: Seq<u8>, v: nat, rest: Seq<u8>)
    ensures
        ({
            let buf = before + leb128(v) + rest;
            let end = before.len() + leb128(v).len();
            &&& varint_end(buf, before.len() as int) == end
            &&& base128(buf, before.len() as int, end as int) == v
        }),
    decreases v,
{
    let code = leb128(v);
    let buf = before + code + rest;
    let p = before.len() as int;
    if v < 128 {
        assert(buf[p] == v as u8);
        assert(base128(buf, p + 1, p + 1) == 0);
        assert(base128(buf, p, p + 1) == (buf[p] % 128) as nat + 128 * base128(buf, p + 1, p + 1));
    } else {
        let b = (128 + v % 128) as u8;
        let next = before.push(b);
        lemma_leb128(next, v / 128, rest);
        assert(next + leb128(v / 128) + rest =~= buf);
        assert(buf[p] == b);
        assert(varint_end(buf, p) == varint_end(buf, p + 1));
        let end = p + code.len();
        assert(base128(buf, p, end) == (buf[p] % 128) as nat + 128 * base128(buf, p + 1, end));
        assert((b % 128) as nat == v % 128);
    }
}

/// Reading the varint of any 64-bit number, wherever it stands and whatever follows, gives the number
/// and uses exactly its bytes, of which there are one to ten.
pub proof fn varints_read_back(before: Seq<u8>, v: u64, rest: Seq<u8>)
    ensures
        varint_at(before + leb128(v as nat) + rest, before.len() as int) == Some(
            (v, (before.len() + leb128(v as nat).len()) as int),
        ),
        1 <= leb128(v as nat).len() <= 10,
{
    lemma_u64_fits(v);
    lemma_leb128_len(v as nat, 10);
    lemma_leb128(before, v as nat, rest);
}

// ---------- packed numbers and fields of bytes ----------

/// Numbers as varints one after the other.
pub open spec fn packed(words: Seq<u32>) -> Seq<u8>
    decreases words.len(),
{
    if words.len() == 0 {
        Seq::empty()
    } else {
        leb128(words[0] as nat) + packed(words.skip(1))
    }
}

/// A field of bytes: its number and wire type, the length, and the bytes.
pub open spec fn bytes_field(number: u32, payload: Seq<u8>) -> Seq<u8> {
    leb128((number * 8 + 2) as nat) + leb128(payload.len()) + payload
}

proof fn lemma_packed(before: Seq<u8>, words: Seq<u32>)
    ensures
        packed_from(before + packed(words), before.len() as int) == Some(words),
    decreases words.len(),
{
    let buf = before + packed(words);
    let p = before.len() as int;
    if words.len() == 0 {
        assert(words =~= Seq::empty());
    } else {
        let w = words[0];
        let code = leb128(w as nat);
        let left = packed(words.skip(1));
        varints_read_back(before, w as u64, left);
        assert(before + code + left =~= buf);
        lemma_packed(before + code, words.skip(1));
        assert((before + code) + left =~= buf);
        assert(seq![w] + words.skip(1) =~= words);
    }
}

/// Packed numbers are read back.
pub proof fn packed_numbers_read_back(words: Seq<u32>)
    ensures
        packed_from(packed(words), 0) == Some(words),
{
    lemma_packed(Seq::empty(), words);
    assert(Seq::<u8>::empty() + packed(words) =~= packed(words));
}

/// A field of bytes, wherever it stands and whatever follows, is read back.
pub proof fn fields_of_bytes_read_back(
    before: Seq<u8>,
    number: u32,
    payload: Seq<u8>,
    rest: Seq<u8>,
)
    requires
        before.len() + bytes_field(number, payload).len() <= usize::MAX,
    ensures
        field_at(before + bytes_field(number, payload) + rest, before.len() as int) == Some(
            (
                Field { number, payload: Payload::Bytes(payload) },
                (before.len() + bytes_field(number, payload).len()) as int,
            ),
        ),
{
    let tag = (number * 8 + 2) as u64;
    let head = leb128(tag as nat);
    let length = leb128(payload.len());
    let buf = before + bytes_field(number, payload) + rest;
    varints_read_back(before, tag, length + payload + rest);
    assert(before + head + (length + payload + rest) =~= buf);
    varints_read_back(before + head, payload.len() as u64, payload + rest);
    assert((before + head) + length + (payload + rest) =~= buf);
    let start = (before.len() + head.len() + length.len()) as int;
    assert(buf.subrange(start, start + payload.len()) =~= payload);
    assert((tag / 8) % 0x1_0000_0000 == number);
}

/// A feature message of two fields of packed geometry holds the words of both, in order, and nothing
/// else.
pub proof fn geometry_fields_are_joined(
    g: Seq<u32>,
    h: Seq<u32>,
    keys: Seq<Seq<char>>,
    values: Seq<TagValueView>,
)
    requires
        (bytes_field(4, packed(g)) + bytes_field(4, packed(h))).len() <= usize::MAX,
    ensures
        feature_of(bytes_field(4, packed(g)) + bytes_field(4, packed(h)), keys, values) == Some(
            FeatureView { geom_type: 0, geometry: g + h, tags: Seq::empty() },
        ),
{
    let a = bytes_field(4, packed(g));
    let b = bytes_field(4, packed(h));
    let buf = a + b;
    let f1 = Field { number: 4, payload: Payload::Bytes(packed(g)) };
    let f2 = Field { number: 4, payload: Payload::Bytes(packed(h)) };
    fields_of_bytes_read_back(Seq::empty(), 4, packed(g), b);
    assert(Seq::<u8>::empty() + a + b =~= buf);
    fields_of_bytes_read_back(a, 4, packed(h), Seq::empty());
    assert(a + b + Seq::<u8>::empty() =~= buf);
    lemma_field_of_bytes_is_long(4, packed(g));
    lemma_field_of_bytes_is_long(4, packed(h));
    let end = buf.len() as int;
    assert(fields_from(buf, end) == Some(Seq::<Field>::empty()));
    assert(fields_from(buf, a.len() as int) == Some(seq![f2] + Seq::<Field>::empty()));
    assert(fields_from(buf, 0) == Some(seq![f1] + (seq![f2] + Seq::<Field>::empty())));
    let fields = seq![f1] + (seq![f2] + Seq::<Field>::empty());
    assert(fields =~= seq![f1, f2]);
    assert(fields.drop_last() =~= seq![f1]);
    assert(seq![f1].drop_last() =~= Seq::empty());
    packed_numbers_read_back(g);
    packed_numbers_read_back(h);
    assert(raw_feature(Seq::<Field>::empty()) is Some);
    assert(raw_feature(seq![f1])->Some_0.geometry =~= g);
    let raw = raw_feature(fields)->Some_0;
    assert(raw.geometry =~= g + h);
    assert(raw.tag_idx =~= Seq::empty());
    assert(resolve_tags(raw.tag_idx, keys, values, 0) =~= Seq::empty());
}

proof fn lemma_field_of_bytes_is_long(number: u32, payload: Seq<u8>)
    ensures
        bytes_field(number, payload).len() >= 2,
{
    varints_read_back(Seq::empty(), (number * 8 + 2) as u64, Seq::empty());
    lemma_leb128_is_long(payload.len());
}

proof fn lemma_leb128_is_long(v: nat)
    ensures
        leb128(v).len() >= 1,
{
}

// ---------- messages one after the other ----------

/// Whether the varint at `pos` has its last byte in the buffer, and no more than ten.
pub open spec fn complete_varint(buf: Seq<u8>, pos: int) -> bool {
    let end = varint_end(buf, pos);
    pos < end && end - pos <= 10 && buf[end - 1] < 128
}

/// Whether the field at `pos` is there as a whole, with a wire type that can be skipped.
pub open spec fn complete_field(buf: Seq<u8>, pos: int) -> bool {
    &&& field_at(buf, pos) is Some
    &&& complete_varint(buf, pos)
    &&& {
        let p = varint_end(buf, pos);
        match field_at(buf, pos)->Some_0.0.payload {
            Payload::Varint(_) => complete_varint(buf, p),
            Payload::Fixed64(b) => b.len() == 8,
            Payload::Bytes(b) => complete_varint(buf, p) && b.len() == varint_at(buf, p)->Some_0.0,
            Payload::Fixed32(b) => b.len() == 4,
            Payload::Rest => false,
        }
    }
}

/// Whether a message consists, from `pos` on, of fields that are there as a whole.
pub open spec fn complete(buf: Seq<u8>, pos: int) -> bool
    decreases buf.len() - pos,
{
    if pos < 0 || pos >= buf.len() {
        true
    } else if complete_field(buf, pos) {
        proof {
            lemma_field_advances(buf, pos);
        }
        complete(buf, field_at(buf, pos)->Some_0.1)
    } else {
        false
    }
}

proof fn lemma_base128_prefix(a: Seq<u8>, b: Seq<u8>, p: int, end: int)
    requires
        0 <= p,
        end <= a.len(),
    ensures
        base128(a + b, p, end) == base128(a, p, end),
    decreases end - p,
{
    if p < end {
        lemma_base128_prefix(a, b, p + 1, end);
        assert((a + b)[p] == a[p]);
    }
}

proof fn lemma_varint_end_prefix(a: Seq<u8>, b: Seq<u8>, p: int)
    requires
        0 <= p < a.len(),
        a[varint_end(a, p) - 1] < 128,
    ensures
        varint_end(a + b, p) == varint_end(a, p),
    decreases a.len() - p,
{
    assert((a + b)[p] == a[p]);
    if a[p] >= 128 {
        assert(varint_end(a, p) == varint_end(a, p + 1));
        if p + 1 >= a.len() {
            assert(varint_end(a, p + 1) == p + 1);
        }
        lemma_varint_end_prefix(a, b, p + 1);
    }
}

proof fn lemma_varint_prefix(a: Seq<u8>, b: Seq<u8>, p: int)
    requires
        0 <= p < a.len(),
        complete_varint(a, p),
    ensures
        varint_end(a + b, p) == varint_end(a, p),
        varint_at(a + b, p) == varint_at(a, p),
        varint_end(a, p) <= a.len(),
{
    lemma_varint_end(a, p);
    lemma_varint_end_prefix(a, b, p);
    lemma_base128_prefix(a, b, p, varint_end(a, p));
}

proof fn lemma_field_prefix(a: Seq<u8>, b: Seq<u8>, pos: int)
    requires
        0 <= pos < a.len(),
        complete_field(a, pos),
    ensures
        field_at(a + b, pos) == field_at(a, pos),
{
    let all = a + b;
    lemma_varint_prefix(a, b, pos);
    let p = varint_end(a, pos);
    lemma_varint_end(a, p);
    let (f, end) = field_at(a, pos)->Some_0;
    match f.payload {
        Payload::Varint(_) => {
            lemma_varint_prefix(a, b, p);
        },
        Payload::Fixed64(_) => {
            assert(all.subrange(p, p + 8) =~= a.subrange(p, p + 8));
        },
        Payload::Bytes(bytes) => {
            lemma_varint_prefix(a, b, p);
            let (len, start) = varint_at(a, p)->Some_0;
            assert(start + len <= a.len());
            assert(all.subrange(start, start + len) =~= a.subrange(start, start + len));
        },
        Payload::Fixed32(_) => {
            assert(all.subrange(p, p + 4) =~= a.subrange(p, p + 4));
        },
        Payload::Rest => {},
    }
}

proof fn lemma_varint_end_suffix(a: Seq<u8>, b: Seq<u8>, p: int)
    requires
        0 <= p,
    ensures
        varint_end(a + b, a.len() + p) == a.len() + varint_end(b, p),
    decreases b.len() - p,
{
    if p < b.len() {
        assert((a + b)[a.len() + p] == b[p]);
        if b[p] >= 128 {
            lemma_varint_end_suffix(a, b, p + 1);
        }
    }
}

proof fn lemma_base128_suffix(a: Seq<u8>, b: Seq<u8>, p: int, end: int)
    requires
        0 <= p,
        end <= b.len(),
    ensures
        base128(a + b, a.len() + p, a.len() + end) == base128(b, p, end),
    decreases end - p,
{
    if p < end {
        assert((a + b)[a.len() + p] == b[p]);
        lemma_base128_suffix(a, b, p + 1, end);
    }
}

proof fn lemma_varint_suffix(a: Seq<u8>, b: Seq<u8>, p: int)
    requires
        0 <= p <= b.len(),
    ensures
        varint_end(a + b, a.len() + p) == a.len() + varint_end(b, p),
        match varint_at(b, p) {
            None => varint_at(a + b, a.len() + p) is None,
            Some((v, end)) => varint_at(a + b, a.len() + p) == Some((v, a.len() + end)),
        },
{
    lemma_varint_end(b, p);
    lemma_varint_end_suffix(a, b, p);
    lemma_base128_suffix(a, b, p, varint_end(b, p));
}

proof fn lemma_field_suffix(a: Seq<u8>, b: Seq<u8>, pos: int)
    requires
        0 <= pos < b.len(),
        field_at(a + b, a.len() + pos) is Some,
    ensures
        field_at(b, pos) is Some,
        field_at(a + b, a.len() + pos) == Some(
            (field_at(b, pos)->Some_0.0, a.len() + field_at(b, pos)->Some_0.1),
        ),
{
    let all = a + b;
    let n = a.len() as int;
    lemma_varint_suffix(a, b, pos);
    lemma_varint_end(b, pos);
    let p = varint_end(b, pos);
    lemma_varint_suffix(a, b, p);
    lemma_varint_end(b, p);
    let (tag, _) = varint_at(b, pos)->Some_0;
    let wire = tag % 8;
    if wire == 1 {
        let end = fixed_at(b, p, 8).1;
        assert(all.subrange(n + p, n + end) =~= b.subrange(p, end));
    } else if wire == 2 {
        let (bytes, end) = bytes_at(b, p)->Some_0;
        let start = varint_at(b, p)->Some_0.1;
        assert(all.subrange(n + start, n + end) =~= b.subrange(start, end));
    } else if wire == 5 {
        let end = fixed_at(b, p, 4).1;
        assert(all.subrange(n + p, n + end) =~= b.subrange(p, end));
    }
}

proof fn lemma_fields_suffix(a: Seq<u8>, b: Seq<u8>, pos: int)
    requires
        0 <= pos <= b.len(),
        fields_from(a + b, a.len() + pos) is Some,
    ensures
        fields_from(a + b, a.len() + pos) == fields_from(b, pos),
    decreases b.len() - pos,
{
    if pos < b.len() {
        lemma_field_suffix(a, b, pos);
        lemma_field_advances(b, pos);
        lemma_fields_suffix(a, b, field_at(b, pos)->Some_0.1);
    }
}

proof fn lemma_fields_prefix(a: Seq<u8>, b: Seq<u8>, pos: int)
    requires
        0 <= pos <= a.len(),
        complete(a, pos),
        fields_from(a + b, pos) is Some,
    ensures
        fields_from(a, pos) is Some,
        fields_from(b, 0) is Some,
        fields_from(a + b, pos) == Some(
            fields_from(a, pos)->Some_0 + fields_from(b, 0)->Some_0,
        ),
    decreases a.len() - pos,
{
    if pos < a.len() {
        lemma_field_prefix(a, b, pos);
        lemma_field_advances(a, pos);
        let (f, end) = field_at(a, pos)->Some_0;
        lemma_fields_prefix(a, b, end);
        let x = fields_from(a, end)->Some_0;
        let y = fields_from(b, 0)->Some_0;
        assert(seq![f] + (x + y) =~= (seq![f] + x) + y);
    } else {
        lemma_fields_suffix(a, b, 0);
        let y = fields_from(b, 0)->Some_0;
        assert(Seq::<Field>::empty() + y =~= y);
    }
}

proof fn lemma_tile_layers_join(x: Seq<Field>, y: Seq<Field>)
    ensures
        match (tile_layers(x), tile_layers(y)) {
            (Some(a), Some(b)) => tile_layers(x + y) == Some(a + b),
            _ => tile_layers(x + y) is None,
        },
    decreases y.len(),
{
    if y.len() == 0 {
        assert(x + y =~= x);
        if tile_layers(x) is Some {
            let a = tile_layers(x)->Some_0;
            assert(a + tile_layers(y)->Some_0 =~= a);
        }
    } else {
        lemma_tile_layers_join(x, y.drop_last());
        assert((x + y).drop_last() =~= x + y.drop_last());
        assert((x + y).last() == y.last());
        if tile_layers(x) is Some && tile_layers(y) is Some {
            let a = tile_layers(x)->Some_0;
            let before = tile_layers(y.drop_last())->Some_0;
            let b = tile_layers(y)->Some_0;
            if b.len() > before.len() {
                assert((a + before).push(b.last()) =~= a + b);
            }
        }
    }
}

/// Two messages one after the other, the first of whole fields, hold the layers of the first and then
/// those of the second; where one of them cannot be decoded, neither can both. No length may reach
/// beyond the address space in the joined bytes.
pub proof fn joined_tiles_hold_both(a: Seq<u8>, b: Seq<u8>)
    requires
        complete(a, 0),
        fields_from(a + b, 0) is Some,
    ensures
        match (tile_of(a), tile_of(b)) {
            (Some(x), Some(y)) => tile_of(a + b) == Some(x + y),
            _ => tile_of(a + b) is None,
        },
{
    lemma_fields_prefix(a, b, 0);
    lemma_tile_layers_join(fields_from(a, 0)->Some_0, fields_from(b, 0)->Some_0);
}

/// Whole fields after whole fields are whole fields, as long as they fit the address space; so no
/// length in them reaches beyond it.
pub proof fn whole_fields_can_be_joined(a: Seq<u8>, b: Seq<u8>)
    requires
        complete(a, 0),
        complete(b, 0),
        a.len() + b.len() <= usize::MAX,
    ensures
        complete(a + b, 0),
        fields_from(a + b, 0) is Some,
{
    lemma_complete_suffix(a, b, 0);
    lemma_complete_prefix(a, b, 0);
    lemma_complete_is_readable(a + b, 0);
}

proof fn lemma_complete_is_readable(buf: Seq<u8>, pos: int)
    requires
        0 <= pos,
        complete(buf, pos),
    ensures
        fields_from(buf, pos) is Some,
    decreases buf.len() - pos,
{
    if pos < buf.len() {
        lemma_field_advances(buf, pos);
        lemma_complete_is_readable(buf, field_at(buf, pos)->Some_0.1);
    }
}

proof fn lemma_complete_prefix(a: Seq<u8>, b: Seq<u8>, pos: int)
    requires
        0 <= pos <= a.len(),
        complete(a, pos),
        complete(a + b, a.len() as int),
    ensures
        complete(a + b, pos),
    decreases a.len() - pos,
{
    if pos < a.len() {
        lemma_field_prefix(a, b, pos);
        lemma_field_advances(a, pos);
        lemma_varint_prefix(a, b, pos);
        let p = varint_end(a, pos);
        lemma_varint_end(a, p);
        assert((a + b)[p - 1] == a[p - 1]);
        let (f, end) = field_at(a, pos)->Some_0;
        match f.payload {
            Payload::Varint(_) | Payload::Bytes(_) => {
                lemma_varint_prefix(a, b, p);
                assert((a + b)[varint_end(a, p) - 1] == a[varint_end(a, p) - 1]);
            },
            _ => {},
        }
        lemma_complete_prefix(a, b, end);
    }
}

proof fn lemma_complete_suffix(a: Seq<u8>, b: Seq<u8>, pos: int)
    requires
        0 <= pos <= b.len(),
        complete(b, pos),
        a.len() + b.len() <= usize::MAX,
    ensures
        complete(a + b, a.len() + pos),
    decreases b.len() - pos,
{
    if pos < b.len() {
        let n = a.len() as int;
        lemma_varint_suffix(a, b, pos);
        lemma_varint_end(b, pos);
        let p = varint_end(b, pos);
        lemma_varint_suffix(a, b, p);
        lemma_varint_end(b, p);
        let (f, end) = field_at(b, pos)->Some_0;
        match f.payload {
            Payload::Bytes(bytes) => {
                let (len, start) = varint_at(b, p)->Some_0;
                assert(start + len <= b.len());
            },
            _ => {},
        }
        assert(field_at(a + b, n + pos) is Some);
        lemma_field_suffix(a, b, pos);
        lemma_field_advances(b, pos);
        assert((a + b)[n + p - 1] == b[p - 1]);
        match f.payload {
            Payload::Varint(_) | Payload::Bytes(_) => {
                assert((a + b)[n + varint_end(b, p) - 1] == b[varint_end(b, p) - 1]);
            },
            _ => {},
        }
        lemma_complete_suffix(a, b, end);
    }
}

/// A field of a tile message adds a layer only where it is a field of bytes with number 3.
pub proof fn other_fields_add_no_layer(fields: Seq<Field>, f: Field)
    requires
        !(f.payload is Bytes && f.number == 3),
    ensures
        tile_layers(fields.push(f)) == tile_layers(fields),
{
    assert(fields.push(f).drop_last() =~= fields);
}

// ---------- the order of fields ----------

/// The fields with a number, in order.
pub open spec fn numbered(fields: Seq<Field>, number: u32) -> Seq<Field>
    decreases fields.len(),
{
    if fields.len() == 0 {
        Seq::empty()
    } else {
        let before = numbered(fields.drop_last(), number);
        if fields.last().number == number {
            before.push(fields.last())
        } else {
            before
        }
    }
}

/// Each part of a layer comes from the fields of one number.
proof fn lemma_parts_of_a_layer(fields: Seq<Field>)
    ensures
        raw_layer(numbered(fields, 1)) is Some,
        raw_layer(numbered(fields, 2)) is Some,
        raw_layer(numbered(fields, 3)) is Some,
        raw_layer(numbered(fields, 5)) is Some,
        raw_layer(fields) is Some <==> raw_layer(numbered(fields, 4)) is Some,
        raw_layer(fields) is Some ==> {
            let raw = raw_layer(fields)->Some_0;
            &&& raw.name == raw_layer(numbered(fields, 1))->Some_0.name
            &&& raw.features == raw_layer(numbered(fields, 2))->Some_0.features
            &&& raw.keys == raw_layer(numbered(fields, 3))->Some_0.keys
            &&& raw.values == raw_layer(numbered(fields, 4))->Some_0.values
            &&& raw.extent == raw_layer(numbered(fields, 5))->Some_0.extent
        },
    decreases fields.len(),
{
    if fields.len() > 0 {
        let rest = fields.drop_last();
        let last = fields.last();
        lemma_parts_of_a_layer(rest);
        assert(numbered(rest, last.number).push(last).drop_last() =~= numbered(rest, last.number));
    }
}

/// A layer message means the same in whatever order fields of different numbers stand, as long as
/// those of one number keep their order; tags are resolved against all keys and values of the layer,
/// also those behind the feature.
pub proof fn order_between_numbers_does_not_matter(a: Seq<u8>, b: Seq<u8>)
    requires
        fields_from(a, 0) is Some,
        fields_from(b, 0) is Some,
        forall|number: u32| #[trigger]
            numbered(fields_from(a, 0)->Some_0, number) == numbered(
                fields_from(b, 0)->Some_0,
                number,
            ),
    ensures
        layer_of(a) == layer_of(b),
{
    let x = fields_from(a, 0)->Some_0;
    let y = fields_from(b, 0)->Some_0;
    lemma_parts_of_a_layer(x);
    lemma_parts_of_a_layer(y);
    assert(numbered(x, 1) == numbered(y, 1));
    assert(numbered(x, 2) == numbered(y, 2));
    assert(numbered(x, 3) == numbered(y, 3));
    assert(numbered(x, 4) == numbered(y, 4));
    assert(numbered(x, 5) == numbered(y, 5));
    assert(raw_layer(x) == raw_layer(y));
}

// ---------- the first step of a geometry ----------

/// Whether the points of a ring are those of another, moved.
pub open spec fn ring_moved(a: Seq<(i32, i32)>, b: Seq<(i32, i32)>, dx: int, dy: int) -> bool {
    a.len() == b.len() && forall|i: int|
        0 <= i < a.len() ==> (#[trigger] b[i]).0 == a[i].0 + dx && b[i].1 == a[i].1 + dy
}

/// Whether rings are other rings, moved.
pub open spec fn rings_moved(
    a: Seq<Seq<(i32, i32)>>,
    b: Seq<Seq<(i32, i32)>>,
    dx: int,
    dy: int,
) -> bool {
    a.len() == b.len() && forall|i: int|
        0 <= i < a.len() ==> ring_moved(a[i], #[trigger] b[i], dx, dy)
}

spec fn pen_moved(a: Pen, b: Pen, dx: int, dy: int) -> bool {
    &&& rings_moved(a.rings, b.rings, dx, dy)
    &&& ring_moved(a.current, b.current, dx, dy)
    &&& b.x == a.x + dx
    &&& b.y == a.y + dy
}

proof fn lemma_step_moved(a: Pen, b: Pen, dx: int, dy: int, x: i32, y: i32, u: i32, v: i32, lifted: bool)
    requires
        pen_moved(a, b, dx, dy),
        u == x + dx,
        v == y + dy,
    ensures
        pen_moved(a.moved(x, y, lifted), b.moved(u, v, lifted), dx, dy),
{
    lemma_finished_moved(a, b, dx, dy);
}

proof fn lemma_finished_moved(a: Pen, b: Pen, dx: int, dy: int)
    requires
        pen_moved(a, b, dx, dy),
    ensures
        rings_moved(a.finished(), b.finished(), dx, dy),
{
}

proof fn lemma_closed_moved(a: Pen, b: Pen, dx: int, dy: int)
    requires
        pen_moved(a, b, dx, dy),
    ensures
        pen_moved(a.closed(), b.closed(), dx, dy),
{
    if a.current.len() > 0 {
        let r = a.current.push(a.current[0]);
        let s = b.current.push(b.current[0]);
        assert(b.current[0].0 == a.current[0].0 + dx);
        assert(ring_moved(r, s, dx, dy));
    }
}

/// The commands of two geometries are the same from index 3 on.
spec fn same_tail(g: Seq<u32>, h: Seq<u32>) -> bool {
    g.len() == h.len() && forall|i: int| 3 <= i < g.len() ==> g[i] == #[trigger] h[i]
}

proof fn lemma_moves_moved(
    g: Seq<u32>,
    h: Seq<u32>,
    i: int,
    n: nat,
    a: Pen,
    b: Pen,
    dx: int,
    dy: int,
    lifted: bool,
)
    requires
        3 <= i,
        same_tail(g, h),
        pen_moved(a, b, dx, dy),
        pen_moves(g, i, n, a, lifted) is Some,
        pen_moves(h, i, n, b, lifted) is Some,
    ensures
        pen_moves(g, i, n, a, lifted)->Some_0.1 == pen_moves(h, i, n, b, lifted)->Some_0.1,
        pen_moved(
            pen_moves(g, i, n, a, lifted)->Some_0.0,
            pen_moves(h, i, n, b, lifted)->Some_0.0,
            dx,
            dy,
        ),
    decreases n,
{
    if n > 0 && i < g.len() {
        assert(g[i] == h[i]);
        assert(g[i + 1] == h[i + 1]);
        let x = (a.x + zigzag_value(g[i] as int)) as i32;
        let y = (a.y + zigzag_value(g[i + 1] as int)) as i32;
        let u = (b.x + zigzag_value(h[i] as int)) as i32;
        let v = (b.y + zigzag_value(h[i + 1] as int)) as i32;
        lemma_step_moved(a, b, dx, dy, x, y, u, v, lifted);
        lemma_moves_moved(
            g,
            h,
            i + 2,
            (n - 1) as nat,
            a.moved(x, y, lifted),
            b.moved(u, v, lifted),
            dx,
            dy,
            lifted,
        );
    }
}

proof fn lemma_commands_moved(
    g: Seq<u32>,
    h: Seq<u32>,
    i: int,
    a: Pen,
    b: Pen,
    dx: int,
    dy: int,
)
    requires
        3 <= i,
        same_tail(g, h),
        pen_moved(a, b, dx, dy),
        pen_from(g, i, a) is Some,
        pen_from(h, i, b) is Some,
    ensures
        pen_moved(pen_from(g, i, a)->Some_0, pen_from(h, i, b)->Some_0, dx, dy),
    decreases g.len() - i,
{
    if i < g.len() {
        assert(g[i] == h[i]);
        let id = g[i] % 8;
        let count = (g[i] / 8) as nat;
        if id == 1 || id == 2 {
            lemma_moves_moved(g, h, i + 1, count, a, b, dx, dy, id == 1);
            lemma_pen_moves_index(g, i + 1, count, a, id == 1);
            lemma_pen_moves_index(h, i + 1, count, b, id == 1);
            let (na, j) = pen_moves(g, i + 1, count, a, id == 1)->Some_0;
            let (nb, _) = pen_moves(h, i + 1, count, b, id == 1)->Some_0;
            lemma_commands_moved(g, h, j, na, nb, dx, dy);
        } else if id == 7 {
            lemma_closed_moved(a, b, dx, dy);
            lemma_commands_moved(g, h, i + 1, a.closed(), b.closed(), dx, dy);
        }
    }
}

/// Geometries that differ only in their first step, which moves the lifted pen, draw the same rings,
/// moved by the difference of the steps.
pub proof fn first_step_moves_the_rings(g: Seq<u32>, h: Seq<u32>, dx: int, dy: int)
    requires
        g.len() >= 3,
        g.len() == h.len(),
        g[0] % 8 == 1,
        g[0] / 8 >= 1,
        forall|i: int| 0 <= i < g.len() && i != 1 && i != 2 ==> g[i] == #[trigger] h[i],
        zigzag_value(h[1] as int) == zigzag_value(g[1] as int) + dx,
        zigzag_value(h[2] as int) == zigzag_value(g[2] as int) + dy,
        rings_of(g) is Some,
        rings_of(h) is Some,
    ensures
        rings_moved(rings_of(g)->Some_0, rings_of(h)->Some_0, dx, dy),
{
    assert(g[0] == h[0]);
    let count = (g[0] / 8) as nat;
    let start = Pen::start();
    let x = (start.x + zigzag_value(g[1] as int)) as i32;
    let y = (start.y + zigzag_value(g[2] as int)) as i32;
    let u = (start.x + zigzag_value(h[1] as int)) as i32;
    let v = (start.y + zigzag_value(h[2] as int)) as i32;
    let a = start.moved(x, y, true);
    let b = start.moved(u, v, true);
    assert(pen_moved(a, b, dx, dy));
    assert(pen_moves(g, 1, count, start, true) == pen_moves(g, 3, (count - 1) as nat, a, true));
    assert(pen_moves(h, 1, count, start, true) == pen_moves(h, 3, (count - 1) as nat, b, true));
    lemma_moves_moved(g, h, 3, (count - 1) as nat, a, b, dx, dy, true);
    lemma_pen_moves_index(g, 3, (count - 1) as nat, a, true);
    lemma_pen_moves_index(h, 3, (count - 1) as nat, b, true);
    let (na, j) = pen_moves(g, 3, (count - 1) as nat, a, true)->Some_0;
    let (nb, _) = pen_moves(h, 3, (count - 1) as nat, b, true)->Some_0;
    lemma_commands_moved(g, h, j, na, nb, dx, dy);
    lemma_finished_moved(pen_from(g, j, na)->Some_0, pen_from(h, j, nb)->Some_0, dx, dy);
}

} // verus!
