//! Laws of message fields: how numbers are told by wire type, what values say, and how layers and tiles are
//! put together.

use vstd::prelude::*;

use crate::geo::Point;
use crate::mvt::{
    feature_of, field_at, fields_from, fixed_at, layer_features, layer_of, lemma_field_advances,
    little_endian, raw_feature, raw_layer, resolve_tags, text_of, tile_of, tile_parts, value_from,
    value_of_field, Field, Payload, TagValueView,
};
use crate::mvt_laws::{leb128, varints_read_back};
use crate::text::{digits, int_text};
use crate::tiles::payload_map;

verus! {

// ---------- fields ----------

/// A field of a number, wherever it stands and whatever follows, is read back.
pub proof fn fields_of_numbers_read_back(before: Seq<u8>, number: u32, v: u64, rest: Seq<u8>)
    ensures
        ({
            let code = leb128((number * 8) as nat) + leb128(v as nat);
            field_at(before + code + rest, before.len() as int) == Some(
                (
                    Field { number, payload: Payload::Varint(v) },
                    (before.len() + code.len()) as int,
                ),
            )
        }),
{
    let tag = (number * 8) as u64;
    let (head, value) = (leb128(tag as nat), leb128(v as nat));
    let buf = before + (head + value) + rest;
    varints_read_back(before, tag, value + rest);
    assert(before + head + (value + rest) =~= buf);
    varints_read_back(before + head, v, rest);
    assert((before + head) + value + rest =~= buf);
    assert((tag / 8) % 0x1_0000_0000 == number);
}

/// A field of four or of eight bytes, wherever it stands and whatever follows, is read back.
pub proof fn fields_of_fixed_length_read_back(
    before: Seq<u8>,
    number: u32,
    payload: Seq<u8>,
    rest: Seq<u8>,
)
    ensures
        payload.len() == 8 ==> field_at(
            before + (leb128((number * 8 + 1) as nat) + payload) + rest,
            before.len() as int,
        ) == Some(
            (
                Field { number, payload: Payload::Fixed64(payload) },
                (before.len() + leb128((number * 8 + 1) as nat).len() + 8) as int,
            ),
        ),
        payload.len() == 4 ==> field_at(
            before + (leb128((number * 8 + 5) as nat) + payload) + rest,
            before.len() as int,
        ) == Some(
            (
                Field { number, payload: Payload::Fixed32(payload) },
                (before.len() + leb128((number * 8 + 5) as nat).len() + 4) as int,
            ),
        ),
{
    if payload.len() == 8 {
        let tag = (number * 8 + 1) as u64;
        let head = leb128(tag as nat);
        let buf = before + (head + payload) + rest;
        varints_read_back(before, tag, payload + rest);
        assert(before + head + (payload + rest) =~= buf);
        let start = (before.len() + head.len()) as int;
        assert(buf.subrange(start, start + 8) =~= payload);
        assert((tag / 8) % 0x1_0000_0000 == number);
        assert(fixed_at(buf, start, 8) == (payload, start + 8));
    }
    if payload.len() == 4 {
        let tag = (number * 8 + 5) as u64;
        let head = leb128(tag as nat);
        let buf = before + (head + payload) + rest;
        varints_read_back(before, tag, payload + rest);
        assert(before + head + (payload + rest) =~= buf);
        let start = (before.len() + head.len()) as int;
        assert(buf.subrange(start, start + 4) =~= payload);
        assert((tag / 8) % 0x1_0000_0000 == number);
        assert(fixed_at(buf, start, 4) == (payload, start + 4));
    }
}

/// The fields of a message are the first one and then those of what follows it, up to the end.
pub proof fn messages_are_fields_in_order(buf: Seq<u8>, pos: int)
    requires
        0 <= pos <= buf.len(),
    ensures
        pos == buf.len() ==> fields_from(buf, pos) == Some(Seq::<Field>::empty()),
        pos < buf.len() && field_at(buf, pos) is None ==> fields_from(buf, pos) is None,
        pos < buf.len() && field_at(buf, pos) is Some ==> {
            let (f, end) = field_at(buf, pos)->Some_0;
            match fields_from(buf, end) {
                None => fields_from(buf, pos) is None,
                Some(rest) => fields_from(buf, pos) == Some(seq![f] + rest),
            }
        },
{
    if pos < buf.len() && field_at(buf, pos) is Some {
        lemma_field_advances(buf, pos);
    }
}

// ---------- values ----------

proof fn lemma_little_endian(b: Seq<u8>, n: int)
    requires
        0 < n <= b.len(),
    ensures
        little_endian(b, n) == b[0] + 256 * little_endian(b.skip(1), n - 1),
{
}

/// The first byte of a number counts ones, and each that follows 256 times as much as the one before.
pub proof fn low_bytes_come_first(b: Seq<u8>)
    ensures
        b.len() >= 4 ==> little_endian(b, 4) == b[0] + 256 * b[1] + 65536 * b[2] + 16777216 * b[3],
        b.len() >= 8 ==> little_endian(b, 8) == little_endian(b, 4) + 4294967296 * little_endian(
            b.skip(4),
            4,
        ),
{
    let b1 = b.skip(1);
    let b2 = b1.skip(1);
    let b3 = b2.skip(1);
    let b4 = b3.skip(1);
    if b.len() >= 4 {
        assert(b1[0] == b[1] && b2[0] == b[2] && b3[0] == b[3]);
        assert(little_endian(b4, 0) == 0);
        lemma_little_endian(b3, 1);
        lemma_little_endian(b2, 2);
        lemma_little_endian(b1, 3);
        lemma_little_endian(b, 4);
    }
    if b.len() >= 8 {
        assert(b4 =~= b.skip(4));
        lemma_little_endian(b3, 5);
        lemma_little_endian(b2, 6);
        lemma_little_endian(b1, 7);
        lemma_little_endian(b, 8);
    }
}

/// A value is told by the number of its field: text by 1, a float by 2, a double by 3, and by 4 to 7 a
/// signed number, a number without sign, a number in zigzag code and a truth value. Other fields, and bytes
/// that are too few, tell none.
pub proof fn values_are_told_by_number(number: u32, v: u64, b: Seq<u8>)
    ensures
        value_of_field(Field { number, payload: Payload::Bytes(b) }) == if number == 1 {
            Some(TagValueView::Text(text_of(b)))
        } else {
            None
        },
        value_of_field(Field { number, payload: Payload::Fixed32(b) }) is Some <==> number == 2 && b.len()
            >= 4,
        number == 2 && b.len() >= 4 ==> value_of_field(Field { number, payload: Payload::Fixed32(b) })
            == Some(TagValueView::Float((b[0] + 256 * b[1] + 65536 * b[2] + 16777216 * b[3]) as u32)),
        value_of_field(Field { number, payload: Payload::Fixed64(b) }) is Some <==> number == 3 && b.len()
            >= 8,
        number == 3 && b.len() >= 8 ==> value_of_field(Field { number, payload: Payload::Fixed64(b) })
            == Some(
            TagValueView::Double(
                (little_endian(b, 4) + 4294967296 * little_endian(b.skip(4), 4)) as u64,
            ),
        ),
        value_of_field(Field { number, payload: Payload::Varint(v) }) is Some <==> 4 <= number <= 7,
        number == 4 && v < 0x8000_0000_0000_0000 ==> value_of_field(
            Field { number, payload: Payload::Varint(v) },
        ) == Some(TagValueView::Text(int_text(v as int))),
        number == 4 && v >= 0x8000_0000_0000_0000 ==> value_of_field(
            Field { number, payload: Payload::Varint(v) },
        ) == Some(TagValueView::Text(int_text(v - 0x1_0000_0000_0000_0000))),
        number == 5 ==> value_of_field(Field { number, payload: Payload::Varint(v) }) == Some(
            TagValueView::Text(digits(v as nat)),
        ),
        number == 6 && v % 2 == 0 ==> value_of_field(Field { number, payload: Payload::Varint(v) }) == Some(
            TagValueView::Text(int_text(v as int / 2)),
        ),
        number == 6 && v % 2 == 1 ==> value_of_field(Field { number, payload: Payload::Varint(v) }) == Some(
            TagValueView::Text(int_text(-(v as int / 2) - 1)),
        ),
        number == 7 ==> value_of_field(Field { number, payload: Payload::Varint(v) }) == Some(
            TagValueView::Text(
                if v == 0 {
                    seq!['f', 'a', 'l', 's', 'e']
                } else {
                    seq!['t', 'r', 'u', 'e']
                },
            ),
        ),
        value_of_field(Field { number, payload: Payload::Rest }) is None,
{
    low_bytes_come_first(b);
    reveal_strlit("true");
    reveal_strlit("false");
    assert("true"@ =~= seq!['t', 'r', 'u', 'e']);
    assert("false"@ =~= seq!['f', 'a', 'l', 's', 'e']);
}

/// The value of a message is what its first telling field says; a message without one says nothing.
pub proof fn the_first_telling_field_counts(buf: Seq<u8>, pos: int)
    requires
        0 <= pos <= buf.len(),
    ensures
        pos == buf.len() ==> value_from(buf, pos) == Some(TagValueView::Text(Seq::empty())),
        pos < buf.len() && field_at(buf, pos) is None ==> value_from(buf, pos) is None,
        pos < buf.len() && field_at(buf, pos) is Some ==> {
            let (f, end) = field_at(buf, pos)->Some_0;
            &&& value_of_field(f) is Some ==> value_from(buf, pos) == value_of_field(f)
            &&& value_of_field(f) is None ==> value_from(buf, pos) == value_from(buf, end)
        },
{
    if pos < buf.len() && field_at(buf, pos) is Some {
        lemma_field_advances(buf, pos);
    }
}

// ---------- features and layers ----------

proof fn lemma_features(raw: crate::mvt::RawLayer, n: int)
    requires
        0 <= n <= raw.features.len(),
        layer_features(raw, n) is Some,
    ensures
        layer_features(raw, n)->Some_0.len() == n,
        forall|i: int|
            0 <= i < n ==> Some(#[trigger] layer_features(raw, n)->Some_0[i]) == feature_of(
                raw.features[i],
                raw.keys,
                raw.values,
            ),
    decreases n,
{
    if n > 0 {
        lemma_features(raw, n - 1);
        let (a, b) = (layer_features(raw, n - 1)->Some_0, layer_features(raw, n)->Some_0);
        assert forall|i: int| 0 <= i < n implies Some(#[trigger] b[i]) == feature_of(
            raw.features[i],
            raw.keys,
            raw.values,
        ) by {
            if i < n - 1 {
                assert(b[i] == a[i]);
            }
        }
    }
}

proof fn lemma_no_features(raw: crate::mvt::RawLayer, n: int, i: int)
    requires
        0 <= i < n <= raw.features.len(),
        feature_of(raw.features[i], raw.keys, raw.values) is None,
    ensures
        layer_features(raw, n) is None,
    decreases n,
{
    if i < n - 1 {
        lemma_no_features(raw, n - 1, i);
    }
}

/// A layer has the name and the extent of its message and each feature of it, in order, read with all keys
/// and values of the layer. Where one of its features cannot be read, neither can the layer.
pub proof fn layers_have_all_features(buf: Seq<u8>, i: int)
    requires
        fields_from(buf, 0) is Some,
        raw_layer(fields_from(buf, 0)->Some_0) is Some,
        0 <= i < raw_layer(fields_from(buf, 0)->Some_0)->Some_0.features.len(),
    ensures
        ({
            let raw = raw_layer(fields_from(buf, 0)->Some_0)->Some_0;
            let feature = feature_of(raw.features[i], raw.keys, raw.values);
            &&& feature is None ==> layer_of(buf) is None
            &&& layer_of(buf) is Some ==> {
                &&& layer_of(buf)->Some_0.name == raw.name
                &&& layer_of(buf)->Some_0.extent == raw.extent
                &&& layer_of(buf)->Some_0.features.len() == raw.features.len()
                &&& Some(layer_of(buf)->Some_0.features[i]) == feature
            }
        }),
{
    let raw = raw_layer(fields_from(buf, 0)->Some_0)->Some_0;
    let n = raw.features.len() as int;
    if feature_of(raw.features[i], raw.keys, raw.values) is None {
        lemma_no_features(raw, n, i);
    }
    if layer_features(raw, n) is Some {
        lemma_features(raw, n);
    }
}

/// A feature has the type and the geometry of its message, and a tag for each pair of its indexes.
pub proof fn features_are_read_with_their_tags(
    buf: Seq<u8>,
    keys: Seq<Seq<char>>,
    values: Seq<TagValueView>,
)
    ensures
        feature_of(buf, keys, values) is Some <==> fields_from(buf, 0) is Some && raw_feature(
            fields_from(buf, 0)->Some_0,
        ) is Some,
        feature_of(buf, keys, values) is Some ==> {
            let raw = raw_feature(fields_from(buf, 0)->Some_0)->Some_0;
            let f = feature_of(buf, keys, values)->Some_0;
            &&& f.geom_type == raw.geom_type
            &&& f.geometry == raw.geometry
            &&& f.tags == resolve_tags(raw.tag_idx, keys, values, raw.tag_idx.len() as int / 2)
        },
{
}

/// The map of a tile has what its layers draw and no box; bytes that cannot be read give none.
pub proof fn payloads_are_what_layers_draw(bytes: Seq<u8>)
    ensures
        payload_map(bytes) is Some <==> tile_of(bytes) is Some && tile_parts(
            tile_of(bytes)->Some_0,
            tile_of(bytes)->Some_0.len() as int,
        ) is Some,
        payload_map(bytes) is Some ==> {
            let parts = tile_parts(tile_of(bytes)->Some_0, tile_of(bytes)->Some_0.len() as int)->Some_0;
            &&& payload_map(bytes)->Some_0.polys == parts.0
            &&& payload_map(bytes)->Some_0.lines == parts.1
            &&& payload_map(bytes)->Some_0.min == (Point { x: 0, y: 0 })
            &&& payload_map(bytes)->Some_0.max == (Point { x: 0, y: 0 })
        },
{
}

} // verus!
