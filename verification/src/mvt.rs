//! Mapbox Vector Tiles: the protobuf decoder, the geometry command stream and the mapping of
//! OpenMapTiles layers to the drawing layers of the map.

use vstd::prelude::*;

use crate::geo::{doubled_area, magnitude, ring_area, Point};
use crate::extract::{
    lines_view, polys_view, rings_view, Line, LineKind, LineView, MapData, Poly, PolyKind, PolyView,
    RoadClass,
};
use crate::text::{digits, i64_text, int_text, same, u64_text};

verus! {

// ---------- protobuf reader ----------

/// Where the varint that starts at `pos` ends: after the first byte below 128, or at the end.
pub open spec fn varint_end(buf: Seq<u8>, pos: int) -> int
    decreases buf.len() - pos,
{
    if pos >= buf.len() {
        pos
    } else if buf[pos] < 128 {
        pos + 1
    } else {
        varint_end(buf, pos + 1)
    }
}

/// The little-endian base 128 number whose digits are the bytes from `pos` up to `end`.
pub open spec fn base128(buf: Seq<u8>, pos: int, end: int) -> nat
    decreases end - pos,
{
    if pos >= end {
        0
    } else {
        (buf[pos] % 128) as nat + 128 * base128(buf, pos + 1, end)
    }
}

/// The varint at `pos` as 64 bits, with the position behind it. `None` for one that is longer
/// than the ten bytes that 64 bits need.
pub open spec fn varint_at(buf: Seq<u8>, pos: int) -> Option<(u64, int)> {
    let end = varint_end(buf, pos);
    if end - pos > 10 {
        None
    } else {
        Some(((base128(buf, pos, end) % 0x1_0000_0000_0000_0000) as u64, end))
    }
}

/// The length-prefixed bytes at `pos`, cut off at the end of the buffer, with the position
/// behind them. `None` where the position behind them would not fit in `usize`.
pub open spec fn bytes_at(buf: Seq<u8>, pos: int) -> Option<(Seq<u8>, int)> {
    match varint_at(buf, pos) {
        None => None,
        Some((len, start)) => if start + len > usize::MAX {
            None
        } else {
            let end = if start + len < buf.len() { start + len } else { buf.len() as int };
            Some((buf.subrange(start, end), end))
        },
    }
}

/// The `n` bytes at `pos`, fewer where the buffer ends before.
pub open spec fn fixed_at(buf: Seq<u8>, pos: int, n: int) -> (Seq<u8>, int) {
    let end = if pos + n < buf.len() { pos + n } else { buf.len() as int };
    (buf.subrange(pos, end), end)
}

/// What a protobuf field holds, by its wire type.
pub enum Payload {
    Varint(u64),
    Fixed64(Seq<u8>),
    Bytes(Seq<u8>),
    Fixed32(Seq<u8>),
    /// A wire type that cannot be skipped: it takes the rest of the message.
    Rest,
}

/// One field of a protobuf message.
pub struct Field {
    pub number: u32,
    pub payload: Payload,
}

/// The field at `pos` and the position behind it; `None` where its varints cannot be read.
pub open spec fn field_at(buf: Seq<u8>, pos: int) -> Option<(Field, int)> {
    match varint_at(buf, pos) {
        None => None,
        Some((tag, p)) => {
            let number = ((tag / 8) % 0x1_0000_0000) as u32;
            let wire = tag % 8;
            if wire == 0 {
                match varint_at(buf, p) {
                    None => None,
                    Some((v, end)) => Some((Field { number, payload: Payload::Varint(v) }, end)),
                }
            } else if wire == 1 {
                let (b, end) = fixed_at(buf, p, 8);
                Some((Field { number, payload: Payload::Fixed64(b) }, end))
            } else if wire == 2 {
                match bytes_at(buf, p) {
                    None => None,
                    Some((b, end)) => Some((Field { number, payload: Payload::Bytes(b) }, end)),
                }
            } else if wire == 5 {
                let (b, end) = fixed_at(buf, p, 4);
                Some((Field { number, payload: Payload::Fixed32(b) }, end))
            } else {
                Some((Field { number, payload: Payload::Rest }, buf.len() as int))
            }
        },
    }
}

/// A varint ends inside the buffer, behind its start unless nothing is left.
pub proof fn lemma_varint_end(buf: Seq<u8>, pos: int)
    requires
        0 <= pos <= buf.len(),
    ensures
        pos <= varint_end(buf, pos) <= buf.len(),
        pos < buf.len() ==> pos < varint_end(buf, pos),
    decreases buf.len() - pos,
{
    if pos < buf.len() && buf[pos] >= 128 {
        lemma_varint_end(buf, pos + 1);
    }
}

/// A field takes at least one byte and stays inside the buffer.
pub proof fn lemma_field_advances(buf: Seq<u8>, pos: int)
    requires
        0 <= pos < buf.len(),
        field_at(buf, pos) is Some,
    ensures
        pos < field_at(buf, pos)->Some_0.1 <= buf.len(),
{
    lemma_varint_end(buf, pos);
    let p = varint_end(buf, pos);
    lemma_varint_end(buf, p);
}

/// The fields of a message from `pos` on; `None` where one of them cannot be read.
pub open spec fn fields_from(buf: Seq<u8>, pos: int) -> Option<Seq<Field>>
    decreases buf.len() - pos,
{
    if pos < 0 || pos >= buf.len() {
        Some(Seq::empty())
    } else {
        match field_at(buf, pos) {
            None => None,
            Some((f, end)) => {
                proof {
                    lemma_field_advances(buf, pos);
                }
                match fields_from(buf, end) {
                    None => None,
                    Some(rest) => Some(seq![f] + rest),
                }
            },
        }
    }
}

/// A cursor over the bytes of one message.
struct Cursor<'a> {
    buf: &'a [u8],
    pos: usize,
}

/// What `Cursor::field` read of one field.
enum Item<'a> {
    Varint(u64),
    Fixed64(&'a [u8]),
    Bytes(&'a [u8]),
    Fixed32(&'a [u8]),
    Rest,
}

impl<'a> Item<'a> {
    spec fn payload(self) -> Payload {
        match self {
            Item::Varint(v) => Payload::Varint(v),
            Item::Fixed64(b) => Payload::Fixed64(b@),
            Item::Bytes(b) => Payload::Bytes(b@),
            Item::Fixed32(b) => Payload::Fixed32(b@),
            Item::Rest => Payload::Rest,
        }
    }
}

impl<'a> Cursor<'a> {
    spec fn wf(self) -> bool {
        self.pos <= self.buf@.len()
    }

    fn new(buf: &'a [u8]) -> (r: Self)
        ensures
            r.buf == buf,
            r.pos == 0,
            r.wf(),
    {
        Cursor { buf, pos: 0 }
    }

    fn eof(&self) -> (r: bool)
        ensures
            r == (self.pos >= self.buf@.len()),
    {
        self.pos >= self.buf.len()
    }

    fn varint(&mut self) -> (r: Option<u64>)
        requires
            old(self).wf(),
        ensures
            final(self).wf(),
            final(self).buf == old(self).buf,
            match varint_at(old(self).buf@, old(self).pos as int) {
                None => r is None,
                Some((v, end)) => r == Some(v) && final(self).pos == end,
            },
    {
        let ghost start = self.pos as int;
        let ghost bytes = self.buf@;
        let ghost stop = varint_end(bytes, start);
        let mut sum: u128 = 0;
        let mut scale: u128 = 1;
        let mut count: u32 = 0;
        let mut done: bool = false;
        proof {
            lemma_varint_end(bytes, start);
        }
        while !done && self.pos < self.buf.len()
            invariant
                self.wf(),
                self.buf@ == bytes,
                self.buf == old(self).buf,
                start == old(self).pos,
                stop == varint_end(bytes, start),
                start <= self.pos,
                count == self.pos - start,
                count <= 10,
                scale == pow128(count as nat),
                sum < scale,
                done ==> self.pos == stop,
                !done ==> varint_end(bytes, self.pos as int) == stop,
                base128(bytes, start, stop) == sum + scale * base128(bytes, self.pos as int, stop),
                self.pos <= stop <= bytes.len(),
            decreases bytes.len() - self.pos,
        {
            if count == 10 {
                proof {
                    lemma_varint_end(bytes, self.pos as int);
                }
                return None;
            }
            let b: u8 = self.buf[self.pos];
            proof {
                lemma_varint_end(bytes, self.pos as int);
                lemma_pow128_bound(count as nat);
                let rest = base128(bytes, self.pos + 1, stop);
                assert(base128(bytes, self.pos as int, stop) == (b % 128) as nat + 128 * rest);
                assert(scale * ((b % 128) as nat + 128 * rest) == scale * (b % 128) + (scale * 128)
                    * rest) by (nonlinear_arith);
                assert(scale * (b % 128) <= scale * 127) by (nonlinear_arith);
            }
            self.pos = self.pos + 1;
            sum = sum + scale * ((b % 128) as u128);
            scale = scale * 128;
            count = count + 1;
            if b < 128 {
                done = true;
            }
        }
        assert(self.pos == stop);
        assert(base128(bytes, stop, stop) == 0);
        assert(scale * base128(bytes, stop, stop) == 0) by (nonlinear_arith)
            requires
                base128(bytes, stop, stop) == 0,
        ;
        Some((sum % 0x1_0000_0000_0000_0000) as u64)
    }

    fn take_bytes(&mut self) -> (r: Option<&'a [u8]>)
        requires
            old(self).wf(),
        ensures
            final(self).wf(),
            final(self).buf == old(self).buf,
            match bytes_at(old(self).buf@, old(self).pos as int) {
                None => r is None,
                Some((b, end)) => r is Some && r->Some_0@ == b && final(self).pos == end,
            },
    {
        proof {
            lemma_varint_end(self.buf@, self.pos as int);
        }
        let len: u64 = match self.varint() {
            None => { return None; },
            Some(len) => len,
        };
        let start: usize = self.pos;
        if len > (usize::MAX - start) as u64 {
            return None;
        }
        let left: usize = self.buf.len() - start;
        let end: usize = if len < left as u64 {
            start + len as usize
        } else {
            self.buf.len()
        };
        self.pos = end;
        Some(&self.buf[start..end])
    }

    fn take_fixed(&mut self, n: usize) -> (r: &'a [u8])
        requires
            old(self).wf(),
        ensures
            final(self).wf(),
            final(self).buf == old(self).buf,
            (r@, final(self).pos as int) == fixed_at(old(self).buf@, old(self).pos as int, n as int),
    {
        let start: usize = self.pos;
        let end: usize = if n < self.buf.len() - start {
            start + n
        } else {
            self.buf.len()
        };
        self.pos = end;
        &self.buf[start..end]
    }

    fn field(&mut self) -> (r: Option<(u32, Item<'a>)>)
        requires
            old(self).wf(),
        ensures
            final(self).wf(),
            final(self).buf == old(self).buf,
            match field_at(old(self).buf@, old(self).pos as int) {
                None => r is None,
                Some((f, end)) => {
                    &&& r is Some
                    &&& r->Some_0.0 == f.number
                    &&& r->Some_0.1.payload() == f.payload
                    &&& final(self).pos == end
                },
            },
    {
        let tag: u64 = match self.varint() {
            None => { return None; },
            Some(tag) => tag,
        };
        let number: u32 = ((tag / 8) % 0x1_0000_0000) as u32;
        let wire: u64 = tag % 8;
        if wire == 0 {
            match self.varint() {
                None => None,
                Some(v) => Some((number, Item::Varint(v))),
            }
        } else if wire == 1 {
            let b = self.take_fixed(8);
            Some((number, Item::Fixed64(b)))
        } else if wire == 2 {
            match self.take_bytes() {
                None => None,
                Some(b) => Some((number, Item::Bytes(b))),
            }
        } else if wire == 5 {
            let b = self.take_fixed(4);
            Some((number, Item::Fixed32(b)))
        } else {
            self.pos = self.buf.len();
            Some((number, Item::Rest))
        }
    }
}

/// 128 to the power `n`.
spec fn pow128(n: nat) -> nat
    decreases n,
{
    if n == 0 {
        1
    } else {
        128 * pow128((n - 1) as nat)
    }
}

proof fn lemma_pow128_bound(n: nat)
    requires
        n <= 10,
    ensures
        1 <= pow128(n) <= 0x40_0000_0000_0000_0000,
        pow128(n + 1) == 128 * pow128(n),
{
    reveal_with_fuel(pow128, 12);
}

/// The unsigned number that stands for `n` in zigzag coding.
pub open spec fn zigzag_code(n: int) -> int {
    if n >= 0 {
        2 * n
    } else {
        -2 * n - 1
    }
}

/// The number for which `v` stands in zigzag coding: even numbers are the non-negative ones.
pub open spec fn zigzag_value(v: int) -> int {
    if v % 2 == 0 {
        v / 2
    } else {
        -(v / 2) - 1
    }
}

/// Decodes a zigzag number.
pub fn zigzag(v: u32) -> (r: i32)
    ensures
        r == zigzag_value(v as int),
{
    if v % 2 == 0 {
        (v / 2) as i32
    } else {
        -((v / 2) as i32) - 1
    }
}

/// Decodes a zigzag number of 64 bits.
fn zigzag_long(v: u64) -> (r: i64)
    ensures
        r == zigzag_value(v as int),
{
    if v % 2 == 0 {
        (v / 2) as i64
    } else {
        -((v / 2) as i64) - 1
    }
}

/// Zigzag coding is a bijection between the 32-bit signed and unsigned numbers.
pub proof fn zigzag_is_bijective(n: i32, v: u32)
    ensures
        0 <= zigzag_code(n as int) <= u32::MAX,
        zigzag_value(zigzag_code(n as int)) == n,
        i32::MIN <= zigzag_value(v as int) <= i32::MAX,
        zigzag_code(zigzag_value(v as int)) == v,
{
}

/// The signed number whose 64 bits in two's complement are those of `v`.
pub open spec fn signed_value(v: u64) -> int {
    if v < 0x8000_0000_0000_0000 {
        v as int
    } else {
        v - 0x1_0000_0000_0000_0000
    }
}

/// The signed number whose 64 bits in two's complement are those of `v`.
fn signed_of(v: u64) -> (r: i64)
    ensures
        r == signed_value(v),
{
    if v < 0x8000_0000_0000_0000 {
        v as i64
    } else {
        -((u64::MAX - v) as i64) - 1
    }
}

// ---------- the tile model ----------

/// A tag value. Texts, integers and booleans are held as text; a floating-point number is held
/// by its IEEE bits.
#[derive(Debug)]
pub enum TagValue {
    Text(String),
    Float(u32),
    Double(u64),
}

/// What a `TagValue` stands for.
pub enum TagValueView {
    Text(Seq<char>),
    Float(u32),
    Double(u64),
}

impl View for TagValue {
    type V = TagValueView;

    open spec fn view(&self) -> TagValueView {
        match self {
            TagValue::Text(s) => TagValueView::Text(s@),
            TagValue::Float(b) => TagValueView::Float(*b),
            TagValue::Double(b) => TagValueView::Double(*b),
        }
    }
}

impl TagValueView {
    /// The text of the value, empty for a floating-point number.
    pub open spec fn text(self) -> Seq<char> {
        match self {
            TagValueView::Text(s) => s,
            _ => Seq::empty(),
        }
    }
}

impl TagValue {
    /// The text of the value, empty for a floating-point number.
    pub fn as_str(&self) -> (r: &str)
        ensures
            r@ == self@.text(),
    {
        match self {
            TagValue::Text(s) => s.as_str(),
            _ => {
                proof {
                    reveal_strlit("");
                }
                assert(""@ =~= Seq::<char>::empty());
                ""
            },
        }
    }

    /// A copy of the value.
    pub fn copy(&self) -> (r: Self)
        ensures
            r@ == self@,
    {
        match self {
            TagValue::Text(s) => TagValue::Text(s.clone()),
            TagValue::Float(b) => TagValue::Float(*b),
            TagValue::Double(b) => TagValue::Double(*b),
        }
    }
}

/// One feature of a layer.
#[derive(Debug)]
pub struct MvtFeature {
    /// 1 = points, 2 = lines, 3 = areas.
    pub geom_type: u32,
    pub geometry: Vec<u32>,
    pub tags: Vec<(String, TagValue)>,
}

/// One layer of a tile.
#[derive(Debug)]
pub struct MvtLayer {
    pub name: String,
    pub extent: u32,
    pub features: Vec<MvtFeature>,
}

/// A decoded tile.
#[derive(Debug)]
pub struct MvtTile {
    pub layers: Vec<MvtLayer>,
}

/// What an `MvtFeature` stands for.
pub struct FeatureView {
    pub geom_type: u32,
    pub geometry: Seq<u32>,
    pub tags: Seq<(Seq<char>, TagValueView)>,
}

/// What an `MvtLayer` stands for.
pub struct LayerView {
    pub name: Seq<char>,
    pub extent: u32,
    pub features: Seq<FeatureView>,
}

/// The texts of a list.
pub open spec fn texts_view(texts: Seq<String>) -> Seq<Seq<char>> {
    texts.map_values(|s: String| s@)
}

/// The values of a list.
pub open spec fn values_view(values: Seq<TagValue>) -> Seq<TagValueView> {
    values.map_values(|v: TagValue| v@)
}

/// The tags of a list.
pub open spec fn tags_view(tags: Seq<(String, TagValue)>) -> Seq<(Seq<char>, TagValueView)> {
    tags.map_values(|t: (String, TagValue)| (t.0@, t.1@))
}

impl View for MvtFeature {
    type V = FeatureView;

    open spec fn view(&self) -> FeatureView {
        FeatureView {
            geom_type: self.geom_type,
            geometry: self.geometry@,
            tags: tags_view(self.tags@),
        }
    }
}

/// The features of a list.
pub open spec fn features_view(features: Seq<MvtFeature>) -> Seq<FeatureView> {
    features.map_values(|f: MvtFeature| f@)
}

impl View for MvtLayer {
    type V = LayerView;

    open spec fn view(&self) -> LayerView {
        LayerView {
            name: self.name@,
            extent: self.extent,
            features: features_view(self.features@),
        }
    }
}

impl View for MvtTile {
    type V = Seq<LayerView>;

    open spec fn view(&self) -> Seq<LayerView> {
        self.layers@.map_values(|l: MvtLayer| l@)
    }
}

/// The text that `String::from_utf8_lossy` makes of bytes that need not be UTF-8.
pub uninterp spec fn lossy_text(bytes: Seq<u8>) -> Seq<char>;

/// `String::from_utf8_lossy`: the text of the bytes, with replacement characters where they are
/// not UTF-8. Claimed: it depends on the bytes alone, and valid UTF-8 is decoded as it stands.
#[verifier::external_body]
fn utf8_lossy(bytes: &[u8]) -> (r: String)
    ensures
        r@ == lossy_text(bytes@),
        vstd::utf8::valid_utf8(bytes@) ==> r@ == vstd::utf8::decode_utf8(bytes@),
{
    String::from_utf8_lossy(bytes).into_owned()
}

/// The text of bytes: decoded where they are UTF-8, with replacement characters where they are not.
pub open spec fn text_of(bytes: Seq<u8>) -> Seq<char> {
    if vstd::utf8::valid_utf8(bytes) {
        vstd::utf8::decode_utf8(bytes)
    } else {
        lossy_text(bytes)
    }
}

/// The number whose little-endian bytes are the first `n` of `b`.
pub open spec fn little_endian(b: Seq<u8>, n: int) -> nat
    decreases n,
{
    if n <= 0 {
        0
    } else {
        b[0] as nat + 256 * little_endian(b.skip(1), n - 1)
    }
}

/// What a field of a value message says of the value; `None` where it says nothing.
pub open spec fn value_of_field(f: Field) -> Option<TagValueView> {
    match f.payload {
        Payload::Bytes(b) => if f.number == 1 {
            Some(TagValueView::Text(text_of(b)))
        } else {
            None
        },
        Payload::Fixed32(b) => if f.number == 2 && b.len() >= 4 {
            Some(TagValueView::Float(little_endian(b, 4) as u32))
        } else {
            None
        },
        Payload::Fixed64(b) => if f.number == 3 && b.len() >= 8 {
            Some(TagValueView::Double(little_endian(b, 8) as u64))
        } else {
            None
        },
        Payload::Varint(v) => if f.number == 4 {
            Some(TagValueView::Text(int_text(signed_value(v))))
        } else if f.number == 5 {
            Some(TagValueView::Text(digits(v as nat)))
        } else if f.number == 6 {
            Some(TagValueView::Text(int_text(zigzag_value(v as int))))
        } else if f.number == 7 {
            Some(TagValueView::Text(if v != 0 { "true"@ } else { "false"@ }))
        } else {
            None
        },
        Payload::Rest => None,
    }
}

/// The value of a value message from `pos` on: what its first telling field says, the empty text
/// where there is none. `None` where a field before that cannot be read.
pub open spec fn value_from(buf: Seq<u8>, pos: int) -> Option<TagValueView>
    decreases buf.len() - pos,
{
    if pos < 0 || pos >= buf.len() {
        Some(TagValueView::Text(Seq::empty()))
    } else {
        match field_at(buf, pos) {
            None => None,
            Some((f, end)) => {
                proof {
                    lemma_field_advances(buf, pos);
                }
                match value_of_field(f) {
                    Some(v) => Some(v),
                    None => value_from(buf, end),
                }
            },
        }
    }
}

/// The first four bytes as a little-endian number.
fn le32(b: &[u8]) -> (r: u32)
    requires
        b@.len() >= 4,
    ensures
        r == little_endian(b@, 4),
{
    proof {
        reveal_with_fuel(little_endian, 5);
    }
    b[0] as u32 + 0x100 * b[1] as u32 + 0x1_0000 * b[2] as u32 + 0x100_0000 * b[3] as u32
}

/// The first eight bytes as a little-endian number.
fn le64(b: &[u8]) -> (r: u64)
    requires
        b@.len() >= 8,
    ensures
        r == little_endian(b@, 8),
{
    let low: u32 = le32(b);
    let high: u32 = le32(&b[4..8]);
    proof {
        reveal_with_fuel(little_endian, 9);
        let t = b@.subrange(4, 8);
        assert(t[0] == b@[4] && t[1] == b@[5] && t[2] == b@[6] && t[3] == b@[7]);
    }
    low as u64 + 0x1_0000_0000 * high as u64
}

/// Decodes a value message: numbers and booleans become decimal text, floating-point numbers
/// their bits.
fn decode_value(buf: &[u8]) -> (r: Option<TagValue>)
    ensures
        match value_from(buf@, 0) {
            None => r is None,
            Some(v) => r is Some && r->Some_0@ == v,
        },
{
    let mut r = Cursor::new(buf);
    while !r.eof()
        invariant
            r.wf(),
            r.buf == buf,
            value_from(buf@, 0) == value_from(buf@, r.pos as int),
        decreases buf@.len() - r.pos,
    {
        let ghost before = r.pos as int;
        let (number, item) = match r.field() {
            None => { return None; },
            Some(f) => f,
        };
        proof {
            lemma_field_advances(buf@, before);
        }
        match item {
            Item::Bytes(b) => {
                if number == 1 {
                    return Some(TagValue::Text(utf8_lossy(b)));
                }
            },
            Item::Fixed32(b) => {
                if number == 2 && b.len() >= 4 {
                    return Some(TagValue::Float(le32(b)));
                }
            },
            Item::Fixed64(b) => {
                if number == 3 && b.len() >= 8 {
                    return Some(TagValue::Double(le64(b)));
                }
            },
            Item::Varint(v) => {
                if number == 4 {
                    return Some(TagValue::Text(i64_text(signed_of(v))));
                } else if number == 5 {
                    return Some(TagValue::Text(u64_text(v)));
                } else if number == 6 {
                    return Some(TagValue::Text(i64_text(zigzag_long(v))));
                } else if number == 7 {
                    return Some(TagValue::Text(if v != 0 { "true" } else { "false" }.to_owned()));
                }
            },
            Item::Rest => {},
        }
    }
    Some(TagValue::Text(String::new()))
}

/// The packed varints from `pos` on, each cut to 32 bits; `None` where one cannot be read.
pub open spec fn packed_from(buf: Seq<u8>, pos: int) -> Option<Seq<u32>>
    decreases buf.len() - pos,
{
    if pos < 0 || pos >= buf.len() {
        Some(Seq::empty())
    } else {
        match varint_at(buf, pos) {
            None => None,
            Some((v, end)) => {
                proof {
                    lemma_varint_end(buf, pos);
                }
                match packed_from(buf, end) {
                    None => None,
                    Some(rest) => Some(seq![(v % 0x1_0000_0000) as u32] + rest),
                }
            },
        }
    }
}

/// Appends the packed varints of `buf`; `false` where one cannot be read.
fn push_packed(out: &mut Vec<u32>, buf: &[u8]) -> (ok: bool)
    ensures
        ok == (packed_from(buf@, 0) is Some),
        ok ==> final(out)@ == old(out)@ + packed_from(buf@, 0)->Some_0,
{
    let ghost start = out@;
    let mut r = Cursor::new(buf);
    let ghost mut read: Seq<u32> = Seq::empty();
    while !r.eof()
        invariant
            r.wf(),
            r.buf == buf,
            start == old(out)@,
            out@ == start + read,
            match packed_from(buf@, r.pos as int) {
                None => packed_from(buf@, 0) is None,
                Some(rest) => packed_from(buf@, 0) == Some(read + rest),
            },
        decreases buf@.len() - r.pos,
    {
        let ghost before = r.pos as int;
        proof {
            lemma_varint_end(buf@, before);
        }
        match r.varint() {
            None => { return false; },
            Some(v) => {
                let n: u32 = (v % 0x1_0000_0000) as u32;
                out.push(n);
                proof {
                    let left = packed_from(buf@, r.pos as int);
                    if left is Some {
                        assert(read + (seq![n] + left->Some_0) =~= read.push(n) + left->Some_0);
                    }
                    assert((start + read).push(n) =~= start + read.push(n));
                    read = read.push(n);
                }
            },
        }
    }
    assert(read + Seq::<u32>::empty() =~= read);
    true
}

/// What the fields of a feature message hold, before the tag indexes are resolved.
pub struct RawFeature {
    pub geom_type: u32,
    pub geometry: Seq<u32>,
    pub tag_idx: Seq<u32>,
}

/// A feature message after the given fields: the last type, and all packed tags and geometry in
/// order. `None` where packed varints cannot be read.
pub open spec fn raw_feature(fields: Seq<Field>) -> Option<RawFeature>
    decreases fields.len(),
{
    if fields.len() == 0 {
        Some(RawFeature { geom_type: 0, geometry: Seq::empty(), tag_idx: Seq::empty() })
    } else {
        match raw_feature(fields.drop_last()) {
            None => None,
            Some(raw) => match fields.last().payload {
                Payload::Bytes(b) => if fields.last().number == 2 {
                    match packed_from(b, 0) {
                        None => None,
                        Some(p) => Some(RawFeature { tag_idx: raw.tag_idx + p, ..raw }),
                    }
                } else if fields.last().number == 4 {
                    match packed_from(b, 0) {
                        None => None,
                        Some(p) => Some(RawFeature { geometry: raw.geometry + p, ..raw }),
                    }
                } else {
                    Some(raw)
                },
                Payload::Varint(v) => if fields.last().number == 3 {
                    Some(RawFeature { geom_type: (v % 0x1_0000_0000) as u32, ..raw })
                } else {
                    Some(raw)
                },
                _ => Some(raw),
            },
        }
    }
}

/// The tags for which the first `n` index pairs stand. A pair without a key is dropped; one
/// without a value has the empty text.
pub open spec fn resolve_tags(
    idx: Seq<u32>,
    keys: Seq<Seq<char>>,
    values: Seq<TagValueView>,
    n: int,
) -> Seq<(Seq<char>, TagValueView)>
    decreases n,
{
    if n <= 0 {
        Seq::empty()
    } else {
        let before = resolve_tags(idx, keys, values, n - 1);
        let k = idx[2 * n - 2] as int;
        let v = idx[2 * n - 1] as int;
        if k < keys.len() {
            before.push(
                (
                    keys[k],
                    if v < values.len() { values[v] } else { TagValueView::Text(Seq::empty()) },
                ),
            )
        } else {
            before
        }
    }
}

/// The feature of a message, given the keys and values of its layer.
pub open spec fn feature_of(
    buf: Seq<u8>,
    keys: Seq<Seq<char>>,
    values: Seq<TagValueView>,
) -> Option<FeatureView> {
    match fields_from(buf, 0) {
        None => None,
        Some(fields) => match raw_feature(fields) {
            None => None,
            Some(raw) => Some(
                FeatureView {
                    geom_type: raw.geom_type,
                    geometry: raw.geometry,
                    tags: resolve_tags(
                        raw.tag_idx,
                        keys,
                        values,
                        raw.tag_idx.len() as int / 2,
                    ),
                },
            ),
        },
    }
}

/// Reading a prefix that cannot be folded leaves the whole unreadable.
proof fn lemma_raw_feature_prefix(done: Seq<Field>, rest: Seq<Field>)
    requires
        raw_feature(done) is None,
    ensures
        raw_feature(done + rest) is None,
    decreases rest.len(),
{
    if rest.len() == 0 {
        assert(done + rest =~= done);
    } else {
        lemma_raw_feature_prefix(done, rest.drop_last());
        assert((done + rest).drop_last() =~= done + rest.drop_last());
    }
}

/// The tags for which index pairs stand.
fn resolve(idx: &Vec<u32>, keys: &Vec<String>, values: &Vec<TagValue>) -> (tags: Vec<
    (String, TagValue),
>)
    ensures
        tags_view(tags@) == resolve_tags(
            idx@,
            texts_view(keys@),
            values_view(values@),
            idx@.len() as int / 2,
        ),
{
    let mut tags: Vec<(String, TagValue)> = Vec::new();
    let pairs: usize = idx.len() / 2;
    let mut i: usize = 0;
    assert(tags_view(tags@) =~= Seq::empty());
    while i < pairs
        invariant
            i <= pairs,
            pairs == idx@.len() as int / 2,
            2 * pairs <= idx@.len() <= usize::MAX,
            tags_view(tags@) == resolve_tags(
                idx@,
                texts_view(keys@),
                values_view(values@),
                i as int,
            ),
        decreases pairs - i,
    {
        let k: usize = idx[2 * i] as usize;
        let v: usize = idx[2 * i + 1] as usize;
        if k < keys.len() {
            let value = if v < values.len() {
                values[v].copy()
            } else {
                TagValue::Text(String::new())
            };
            let ghost before = tags@;
            let ghost last = (keys@[k as int]@, value@);
            let key = keys[k].clone();
            tags.push((key, value));
            assert(tags_view(tags@) =~= tags_view(before).push(last));
        }
        i = i + 1;
    }
    tags
}

fn decode_feature(buf: &[u8], keys: &Vec<String>, values: &Vec<TagValue>) -> (r: Option<MvtFeature>)
    ensures
        match feature_of(buf@, texts_view(keys@), values_view(values@)) {
            None => r is None,
            Some(f) => r is Some && r->Some_0@ == f,
        },
{
    let mut geom_type: u32 = 0;
    let mut geometry: Vec<u32> = Vec::new();
    let mut tag_idx: Vec<u32> = Vec::new();
    let mut r = Cursor::new(buf);
    let ghost mut done: Seq<Field> = Seq::empty();
    while !r.eof()
        invariant
            r.wf(),
            r.buf == buf,
            raw_feature(done) == Some(
                RawFeature { geom_type, geometry: geometry@, tag_idx: tag_idx@ },
            ),
            match fields_from(buf@, r.pos as int) {
                None => fields_from(buf@, 0) is None,
                Some(rest) => fields_from(buf@, 0) == Some(done + rest),
            },
        decreases buf@.len() - r.pos,
    {
        let ghost before = r.pos as int;
        let (number, item) = match r.field() {
            None => { return None; },
            Some(f) => f,
        };
        let ghost f = Field { number, payload: item.payload() };
        let ghost now = done.push(f);
        proof {
            lemma_field_advances(buf@, before);
            let left = fields_from(buf@, r.pos as int);
            if left is Some {
                assert(done + (seq![f] + left->Some_0) =~= now + left->Some_0);
                if raw_feature(now) is None {
                    lemma_raw_feature_prefix(now, left->Some_0);
                }
            }
            assert(now.drop_last() =~= done);
        }
        match item {
            Item::Bytes(b) => {
                if number == 2 {
                    if !push_packed(&mut tag_idx, b) {
                        return None;
                    }
                } else if number == 4 {
                    if !push_packed(&mut geometry, b) {
                        return None;
                    }
                }
            },
            Item::Varint(v) => {
                if number == 3 {
                    geom_type = (v % 0x1_0000_0000) as u32;
                }
            },
            _ => {},
        }
        proof {
            done = now;
        }
    }
    assert(done + Seq::<Field>::empty() =~= done);
    let tags = resolve(&tag_idx, keys, values);
    Some(MvtFeature { geom_type, geometry, tags })
}

/// What the fields of a layer message hold, before its features are decoded.
pub struct RawLayer {
    pub name: Seq<char>,
    pub extent: u32,
    pub features: Seq<Seq<u8>>,
    pub keys: Seq<Seq<char>>,
    pub values: Seq<TagValueView>,
}

/// A layer message after the given fields: the last name and extent (4096 where there is none),
/// and all features, keys and values in order. `None` where a value cannot be read.
pub open spec fn raw_layer(fields: Seq<Field>) -> Option<RawLayer>
    decreases fields.len(),
{
    if fields.len() == 0 {
        Some(
            RawLayer {
                name: Seq::empty(),
                extent: 4096,
                features: Seq::empty(),
                keys: Seq::empty(),
                values: Seq::empty(),
            },
        )
    } else {
        match raw_layer(fields.drop_last()) {
            None => None,
            Some(raw) => match fields.last().payload {
                Payload::Bytes(b) => if fields.last().number == 1 {
                    Some(RawLayer { name: text_of(b), ..raw })
                } else if fields.last().number == 2 {
                    Some(RawLayer { features: raw.features.push(b), ..raw })
                } else if fields.last().number == 3 {
                    Some(RawLayer { keys: raw.keys.push(text_of(b)), ..raw })
                } else if fields.last().number == 4 {
                    match value_from(b, 0) {
                        None => None,
                        Some(v) => Some(RawLayer { values: raw.values.push(v), ..raw }),
                    }
                } else {
                    Some(raw)
                },
                Payload::Varint(v) => if fields.last().number == 5 {
                    Some(RawLayer { extent: (v % 0x1_0000_0000) as u32, ..raw })
                } else {
                    Some(raw)
                },
                _ => Some(raw),
            },
        }
    }
}

/// The first `n` features of a layer, decoded.
pub open spec fn layer_features(raw: RawLayer, n: int) -> Option<Seq<FeatureView>>
    decreases n,
{
    if n <= 0 {
        Some(Seq::empty())
    } else {
        match layer_features(raw, n - 1) {
            None => None,
            Some(before) => match feature_of(raw.features[n - 1], raw.keys, raw.values) {
                None => None,
                Some(f) => Some(before.push(f)),
            },
        }
    }
}

/// The layer of a message; `None` where a part of it cannot be read.
pub open spec fn layer_of(buf: Seq<u8>) -> Option<LayerView> {
    match fields_from(buf, 0) {
        None => None,
        Some(fields) => match raw_layer(fields) {
            None => None,
            Some(raw) => match layer_features(raw, raw.features.len() as int) {
                None => None,
                Some(features) => Some(
                    LayerView { name: raw.name, extent: raw.extent, features },
                ),
            },
        },
    }
}

proof fn lemma_raw_layer_prefix(done: Seq<Field>, rest: Seq<Field>)
    requires
        raw_layer(done) is None,
    ensures
        raw_layer(done + rest) is None,
    decreases rest.len(),
{
    if rest.len() == 0 {
        assert(done + rest =~= done);
    } else {
        lemma_raw_layer_prefix(done, rest.drop_last());
        assert((done + rest).drop_last() =~= done + rest.drop_last());
    }
}

proof fn lemma_layer_features_prefix(raw: RawLayer, i: int, n: int)
    requires
        layer_features(raw, i) is None,
        i <= n,
    ensures
        layer_features(raw, n) is None,
    decreases n - i,
{
    if i < n {
        lemma_layer_features_prefix(raw, i, n - 1);
    }
}

fn decode_layer(buf: &[u8]) -> (r: Option<MvtLayer>)
    ensures
        match layer_of(buf@) {
            None => r is None,
            Some(l) => r is Some && r->Some_0@ == l,
        },
{
    let mut name: String = String::new();
    let mut extent: u32 = 4096;
    let mut keys: Vec<String> = Vec::new();
    let mut values: Vec<TagValue> = Vec::new();
    let mut raw_features: Vec<&[u8]> = Vec::new();
    let mut r = Cursor::new(buf);
    let ghost mut done: Seq<Field> = Seq::empty();
    let ghost mut raw = RawLayer {
        name: Seq::empty(),
        extent: 4096,
        features: Seq::empty(),
        keys: Seq::empty(),
        values: Seq::empty(),
    };
    proof {
        assert(texts_view(keys@) =~= raw.keys);
        assert(values_view(values@) =~= raw.values);
    }
    while !r.eof()
        invariant
            r.wf(),
            r.buf == buf,
            raw_layer(done) == Some(raw),
            raw.name == name@,
            raw.extent == extent,
            raw.keys == texts_view(keys@),
            raw.values == values_view(values@),
            raw.features.len() == raw_features@.len(),
            forall|i: int|
                0 <= i < raw_features@.len() ==> #[trigger] raw_features@[i]@ == raw.features[i],
            match fields_from(buf@, r.pos as int) {
                None => fields_from(buf@, 0) is None,
                Some(rest) => fields_from(buf@, 0) == Some(done + rest),
            },
        decreases buf@.len() - r.pos,
    {
        let ghost before = r.pos as int;
        let (number, item) = match r.field() {
            None => { return None; },
            Some(f) => f,
        };
        let ghost f = Field { number, payload: item.payload() };
        let ghost now = done.push(f);
        let ghost keys_before = keys@;
        let ghost values_before = values@;
        proof {
            lemma_field_advances(buf@, before);
            let left = fields_from(buf@, r.pos as int);
            if left is Some {
                assert(done + (seq![f] + left->Some_0) =~= now + left->Some_0);
                if raw_layer(now) is None {
                    lemma_raw_layer_prefix(now, left->Some_0);
                }
            }
            assert(now.drop_last() =~= done);
        }
        match item {
            Item::Bytes(b) => {
                if number == 1 {
                    name = utf8_lossy(b);
                } else if number == 2 {
                    raw_features.push(b);
                } else if number == 3 {
                    let key = utf8_lossy(b);
                    let ghost text = key@;
                    keys.push(key);
                    assert(texts_view(keys@) =~= texts_view(keys_before).push(text));
                } else if number == 4 {
                    match decode_value(b) {
                        None => { return None; },
                        Some(v) => {
                            let ghost value = v@;
                            values.push(v);
                            assert(values_view(values@) =~= values_view(values_before).push(value));
                        },
                    }
                }
            },
            Item::Varint(v) => {
                if number == 5 {
                    extent = (v % 0x1_0000_0000) as u32;
                }
            },
            _ => {},
        }
        proof {
            done = now;
            raw = raw_layer(now)->Some_0;
        }
    }
    assert(done + Seq::<Field>::empty() =~= done);
    let mut features: Vec<MvtFeature> = Vec::new();
    let mut i: usize = 0;
    assert(features_view(features@) =~= Seq::empty());
    while i < raw_features.len()
        invariant
            i <= raw_features@.len(),
            raw.keys == texts_view(keys@),
            raw.values == values_view(values@),
            raw.features.len() == raw_features@.len(),
            forall|j: int|
                0 <= j < raw_features@.len() ==> #[trigger] raw_features@[j]@ == raw.features[j],
            layer_features(raw, i as int) == Some(features_view(features@)),
            fields_from(buf@, 0) is Some,
            raw_layer(fields_from(buf@, 0)->Some_0) == Some(raw),
        decreases raw_features@.len() - i,
    {
        assert(raw_features@[i as int]@ == raw.features[i as int]);
        let ghost before = features@;
        match decode_feature(raw_features[i], &keys, &values) {
            None => {
                proof {
                    lemma_layer_features_prefix(raw, i + 1, raw.features.len() as int);
                }
                return None;
            },
            Some(f) => {
                let ghost view = f@;
                features.push(f);
                assert(features_view(features@) =~= features_view(before).push(view));
            },
        }
        i = i + 1;
    }
    Some(MvtLayer { name, extent, features })
}

/// The layers that the fields of a tile message hold; `None` where one cannot be read.
pub open spec fn tile_layers(fields: Seq<Field>) -> Option<Seq<LayerView>>
    decreases fields.len(),
{
    if fields.len() == 0 {
        Some(Seq::empty())
    } else {
        match tile_layers(fields.drop_last()) {
            None => None,
            Some(before) => match fields.last().payload {
                Payload::Bytes(b) => if fields.last().number == 3 {
                    match layer_of(b) {
                        None => None,
                        Some(l) => Some(before.push(l)),
                    }
                } else {
                    Some(before)
                },
                _ => Some(before),
            },
        }
    }
}

/// The layers of a tile; `None` where a part of it cannot be read.
pub open spec fn tile_of(buf: Seq<u8>) -> Option<Seq<LayerView>> {
    match fields_from(buf, 0) {
        None => None,
        Some(fields) => tile_layers(fields),
    }
}

proof fn lemma_tile_layers_prefix(done: Seq<Field>, rest: Seq<Field>)
    requires
        tile_layers(done) is None,
    ensures
        tile_layers(done + rest) is None,
    decreases rest.len(),
{
    if rest.len() == 0 {
        assert(done + rest =~= done);
    } else {
        lemma_tile_layers_prefix(done, rest.drop_last());
        assert((done + rest).drop_last() =~= done + rest.drop_last());
    }
}

/// Decodes a whole tile, uncompressed; `None` where a varint in it is longer than ten bytes or a
/// length does not fit the address space.
pub fn try_decode_mvt(buf: &[u8]) -> (r: Option<MvtTile>)
    ensures
        match tile_of(buf@) {
            None => r is None,
            Some(t) => r is Some && r->Some_0@ == t,
        },
{
    let mut layers: Vec<MvtLayer> = Vec::new();
    let mut r = Cursor::new(buf);
    let ghost mut done: Seq<Field> = Seq::empty();
    let ghost mut views: Seq<LayerView> = Seq::empty();
    while !r.eof()
        invariant
            r.wf(),
            r.buf == buf,
            views =~= layers@.map_values(|l: MvtLayer| l@),
            tile_layers(done) == Some(views),
            match fields_from(buf@, r.pos as int) {
                None => fields_from(buf@, 0) is None,
                Some(rest) => fields_from(buf@, 0) == Some(done + rest),
            },
        decreases buf@.len() - r.pos,
    {
        let ghost before = r.pos as int;
        let (number, item) = match r.field() {
            None => { return None; },
            Some(f) => f,
        };
        let ghost f = Field { number, payload: item.payload() };
        let ghost now = done.push(f);
        proof {
            lemma_field_advances(buf@, before);
            let left = fields_from(buf@, r.pos as int);
            if left is Some {
                assert(done + (seq![f] + left->Some_0) =~= now + left->Some_0);
                if tile_layers(now) is None {
                    lemma_tile_layers_prefix(now, left->Some_0);
                }
            }
            assert(now.drop_last() =~= done);
        }
        match item {
            Item::Bytes(b) => {
                if number == 3 {
                    match decode_layer(b) {
                        None => { return None; },
                        Some(l) => {
                            proof {
                                views = views.push(l@);
                            }
                            layers.push(l);
                        },
                    }
                }
            },
            _ => {},
        }
        proof {
            done = now;
        }
    }
    assert(done + Seq::<Field>::empty() =~= done);
    Some(MvtTile { layers })
}

/// Decodes a whole tile, uncompressed.
pub fn decode_mvt(buf: &[u8]) -> (r: MvtTile)
    requires
        tile_of(buf@) is Some,
    ensures
        r@ == tile_of(buf@)->Some_0,
{
    match try_decode_mvt(buf) {
        Some(t) => t,
        None => MvtTile { layers: Vec::new() },
    }
}

// ---------- geometry commands to rings ----------

/// The state of the pen that follows the geometry commands: the finished rings, the ring being
/// drawn and the position.
pub struct Pen {
    pub rings: Seq<Seq<(i32, i32)>>,
    pub current: Seq<(i32, i32)>,
    pub x: i32,
    pub y: i32,
}

impl Pen {
    /// The pen before the first command.
    pub open spec fn start() -> Pen {
        Pen { rings: Seq::empty(), current: Seq::empty(), x: 0, y: 0 }
    }

    /// The rings with the one being drawn, where it holds a point.
    pub open spec fn finished(self) -> Seq<Seq<(i32, i32)>> {
        if self.current.len() > 0 {
            self.rings.push(self.current)
        } else {
            self.rings
        }
    }

    /// The pen moved to a position, in a new ring where it is `lifted`.
    pub open spec fn moved(self, x: i32, y: i32, lifted: bool) -> Pen {
        if lifted {
            Pen { rings: self.finished(), current: seq![(x, y)], x, y }
        } else {
            Pen { rings: self.rings, current: self.current.push((x, y)), x, y }
        }
    }

    /// The pen after the ring being drawn is closed by a repetition of its first point.
    pub open spec fn closed(self) -> Pen {
        if self.current.len() > 0 {
            Pen {
                rings: self.rings.push(self.current.push(self.current[0])),
                current: Seq::empty(),
                x: self.x,
                y: self.y,
            }
        } else {
            self
        }
    }
}

/// The pen after up to `n` moves by the coordinate pairs at `i`, and the index behind the last
/// pair; the commands may end before. `None` where a pair is cut in half or the position leaves
/// the 32-bit range.
pub open spec fn pen_moves(g: Seq<u32>, i: int, n: nat, pen: Pen, lifted: bool) -> Option<(Pen, int)>
    decreases n,
{
    if n == 0 || i >= g.len() {
        Some((pen, i))
    } else if i + 1 >= g.len() {
        None
    } else {
        let x = pen.x + zigzag_value(g[i] as int);
        let y = pen.y + zigzag_value(g[i + 1] as int);
        if i32::MIN <= x <= i32::MAX && i32::MIN <= y <= i32::MAX {
            pen_moves(g, i + 2, (n - 1) as nat, pen.moved(x as i32, y as i32, lifted), lifted)
        } else {
            None
        }
    }
}

pub proof fn lemma_pen_moves_index(g: Seq<u32>, i: int, n: nat, pen: Pen, lifted: bool)
    requires
        0 <= i <= g.len(),
        pen_moves(g, i, n, pen, lifted) is Some,
    ensures
        i <= pen_moves(g, i, n, pen, lifted)->Some_0.1 <= g.len(),
    decreases n,
{
    if n > 0 && i < g.len() {
        let x = (pen.x + zigzag_value(g[i] as int)) as i32;
        let y = (pen.y + zigzag_value(g[i + 1] as int)) as i32;
        lemma_pen_moves_index(g, i + 2, (n - 1) as nat, pen.moved(x, y, lifted), lifted);
    }
}

/// The pen after the commands from index `i` on. A command is a number whose low three bits say
/// what to do (1 moves the lifted pen, 2 draws, 7 closes the ring, anything else ends the
/// drawing) and whose other bits say how often.
pub open spec fn pen_from(g: Seq<u32>, i: int, pen: Pen) -> Option<Pen>
    decreases g.len() - i,
{
    if i < 0 || i >= g.len() {
        Some(pen)
    } else {
        let id = g[i] % 8;
        let count = (g[i] / 8) as nat;
        if id == 1 || id == 2 {
            match pen_moves(g, i + 1, count, pen, id == 1) {
                None => None,
                Some((next, j)) => {
                    proof {
                        lemma_pen_moves_index(g, i + 1, count, pen, id == 1);
                    }
                    pen_from(g, j, next)
                },
            }
        } else if id == 7 {
            pen_from(g, i + 1, pen.closed())
        } else {
            Some(pen)
        }
    }
}

/// The rings that a geometry command stream draws; `None` where it cannot be followed.
pub open spec fn rings_of(g: Seq<u32>) -> Option<Seq<Seq<(i32, i32)>>> {
    match pen_from(g, 0, Pen::start()) {
        None => None,
        Some(pen) => Some(pen.finished()),
    }
}

/// The pairs of each ring.
pub open spec fn pairs_view(rings: Seq<Vec<(i32, i32)>>) -> Seq<Seq<(i32, i32)>> {
    rings.map_values(|r: Vec<(i32, i32)>| r@)
}

/// Follows a geometry command stream and returns its rings in tile units, y downwards; `None`
/// where a coordinate pair is cut in half or a position leaves the 32-bit range.
pub fn try_decode_rings(geometry: &[u32]) -> (r: Option<Vec<Vec<(i32, i32)>>>)
    ensures
        match rings_of(geometry@) {
            None => r is None,
            Some(rings) => r is Some && pairs_view(r->Some_0@) == rings,
        },
{
    let mut rings: Vec<Vec<(i32, i32)>> = Vec::new();
    let mut current: Vec<(i32, i32)> = Vec::new();
    let mut x: i32 = 0;
    let mut y: i32 = 0;
    let mut i: usize = 0;
    let mut ended: bool = false;
    let ghost mut pen = Pen::start();
    while i < geometry.len() && !ended
        invariant
            i <= geometry@.len(),
            pen == (Pen { rings: pen.rings, current: current@, x, y }),
            pen.rings =~= pairs_view(rings@),
            !ended ==> pen_from(geometry@, 0, Pen::start()) == pen_from(geometry@, i as int, pen),
            ended ==> pen_from(geometry@, 0, Pen::start()) == Some(pen),
        decreases geometry@.len() - i,
    {
        let cmd: u32 = geometry[i];
        let id: u32 = cmd % 8;
        let count: u32 = cmd / 8;
        i = i + 1;
        if id == 1 || id == 2 {
            let lifted: bool = id == 1;
            let mut left: u32 = count;
            let ghost first = pen;
            let ghost from = i as int;
            while left > 0 && i < geometry.len()
                invariant
                    from <= i <= geometry@.len(),
                    pen == (Pen { rings: pen.rings, current: current@, x, y }),
                    pen.rings =~= pairs_view(rings@),
                    pen_moves(geometry@, from, count as nat, first, lifted) == pen_moves(
                        geometry@,
                        i as int,
                        left as nat,
                        pen,
                        lifted,
                    ),
                    1 <= from,
                    from - 1 < geometry@.len(),
                    cmd == geometry@[from - 1],
                    id == cmd % 8,
                    count == cmd / 8,
                    id == 1 || id == 2,
                    lifted == (id == 1),
                    pen_from(geometry@, 0, Pen::start()) == pen_from(geometry@, from - 1, first),
                decreases left,
            {
                if i + 1 >= geometry.len() {
                    return None;
                }
                let nx: Option<i32> = x.checked_add(zigzag(geometry[i]));
                let ny: Option<i32> = y.checked_add(zigzag(geometry[i + 1]));
                match (nx, ny) {
                    (Some(px), Some(py)) => {
                        x = px;
                        y = py;
                    },
                    _ => { return None; },
                }
                i = i + 2;
                left = left - 1;
                proof {
                    pen = pen.moved(x, y, lifted);
                }
                if lifted {
                    if current.len() > 0 {
                        rings.push(current);
                    }
                    current = Vec::new();
                }
                current.push((x, y));
                assert(current@ =~= pen.current);
            }
        } else if id == 7 {
            proof {
                pen = pen.closed();
            }
            if current.len() > 0 {
                let head = current[0];
                current.push(head);
                rings.push(current);
                current = Vec::new();
            }
            assert(current@ =~= pen.current);
        } else {
            ended = true;
        }
    }
    if current.len() > 0 {
        rings.push(current);
    }
    assert(pen.finished() =~= pairs_view(rings@));
    Some(rings)
}

/// Follows a geometry command stream and returns its rings in tile units, y downwards.
pub fn decode_rings(geometry: &[u32]) -> (r: Vec<Vec<(i32, i32)>>)
    requires
        rings_of(geometry@) is Some,
    ensures
        pairs_view(r@) == rings_of(geometry@)->Some_0,
{
    match try_decode_rings(geometry) {
        Some(rings) => rings,
        None => Vec::new(),
    }
}

// ---------- OpenMapTiles layers to map layers ----------

/// The text of the first tag with a key.
pub open spec fn prop_of(tags: Seq<(Seq<char>, TagValueView)>, key: Seq<char>) -> Option<Seq<char>>
    decreases tags.len(),
{
    if tags.len() == 0 {
        None
    } else if tags[0].0 == key {
        Some(tags[0].1.text())
    } else {
        prop_of(tags.skip(1), key)
    }
}

/// The text of the first tag with a key.
fn prop<'a>(tags: &'a Vec<(String, TagValue)>, key: &str) -> (r: Option<&'a str>)
    ensures
        match prop_of(tags_view(tags@), key@) {
            None => r is None,
            Some(t) => r is Some && r->Some_0@ == t,
        },
{
    let mut i: usize = 0;
    let ghost all = tags_view(tags@);
    assert(all.skip(0) =~= all);
    while i < tags.len()
        invariant
            i <= tags@.len(),
            all == tags_view(tags@),
            prop_of(all, key@) == prop_of(all.skip(i as int), key@),
        decreases tags@.len() - i,
    {
        assert(all.skip(i as int)[0] == all[i as int]);
        assert(all.skip(i as int).skip(1) =~= all.skip(i + 1));
        if same(tags[i].0.as_str(), key) {
            return Some(tags[i].1.as_str());
        }
        i = i + 1;
    }
    None
}

/// The land cover and land use classes that are drawn green.
pub open spec fn is_green(class: Seq<char>) -> bool {
    class == "wood"@ || class == "forest"@ || class == "grass"@ || class == "park"@ || class
        == "golf_course"@ || class == "cemetery"@ || class == "scrub"@ || class == "wetland"@
        || class == "farmland"@
}

/// Whether a land cover or land use class is drawn green.
pub fn green_kind(class: &str) -> (r: bool)
    ensures
        r == is_green(class@),
{
    same(class, "wood") || same(class, "forest") || same(class, "grass") || same(class, "park")
        || same(class, "golf_course") || same(class, "cemetery") || same(class, "scrub") || same(
        class,
        "wetland",
    ) || same(class, "farmland")
}

/// The land use classes that are drawn as built-up land.
pub open spec fn is_landuse(class: Seq<char>) -> bool {
    class == "residential"@ || class == "military"@ || class == "industrial"@ || class
        == "commercial"@ || class == "retail"@ || class == "quarry"@ || class == "education"@
}

/// Whether a land use class is drawn as built-up land.
pub fn landuse_kind(class: &str) -> (r: bool)
    ensures
        r == is_landuse(class@),
{
    same(class, "residential") || same(class, "military") || same(class, "industrial") || same(
        class,
        "commercial",
    ) || same(class, "retail") || same(class, "quarry") || same(class, "education")
}

/// The road class of a transportation class and its drawn width in metres.
pub open spec fn road_class(class: Seq<char>) -> Option<(RoadClass, u32)> {
    if class == "motorway"@ || class == "trunk"@ || class == "primary"@ || class
        == "motorway_link"@ || class == "trunk_link"@ || class == "primary_link"@ {
        Some((RoadClass::Major, 20))
    } else if class == "secondary"@ || class == "tertiary"@ || class == "secondary_link"@ || class
        == "tertiary_link"@ {
        Some((RoadClass::Mid, 14))
    } else if class == "minor"@ || class == "service"@ || class == "residential"@ || class
        == "unclassified"@ || class == "living_street"@ || class == "road"@ {
        Some((RoadClass::Minor, 10))
    } else {
        None
    }
}

/// The road class of a transportation class and its drawn width in metres.
pub fn road_of(class: &str) -> (r: Option<(RoadClass, u32)>)
    ensures
        r == road_class(class@),
{
    if same(class, "motorway") || same(class, "trunk") || same(class, "primary") || same(
        class,
        "motorway_link",
    ) || same(class, "trunk_link") || same(class, "primary_link") {
        Some((RoadClass::Major, 20))
    } else if same(class, "secondary") || same(class, "tertiary") || same(class, "secondary_link")
        || same(class, "tertiary_link") {
        Some((RoadClass::Mid, 14))
    } else if same(class, "minor") || same(class, "service") || same(class, "residential") || same(
        class,
        "unclassified",
    ) || same(class, "living_street") || same(class, "road") {
        Some((RoadClass::Minor, 10))
    } else {
        None
    }
}

/// The drawn width of a waterway class in metres.
pub open spec fn waterway_metres(class: Seq<char>) -> Option<u32> {
    if class == "river"@ {
        Some(40)
    } else if class == "canal"@ {
        Some(24)
    } else if class == "stream"@ {
        Some(10)
    } else if class == "riverbank"@ || class == "dock"@ {
        Some(40)
    } else {
        None
    }
}

/// The drawn width of a waterway class in metres.
pub fn waterway_width(class: &str) -> (r: Option<u32>)
    ensures
        r == waterway_metres(class@),
{
    if same(class, "river") {
        Some(40)
    } else if same(class, "canal") {
        Some(24)
    } else if same(class, "stream") {
        Some(10)
    } else if same(class, "riverbank") || same(class, "dock") {
        Some(40)
    } else {
        None
    }
}

/// How a feature is drawn.
#[derive(Debug, Clone, Copy, PartialEq, Eq, Structural)]
pub enum Shape {
    Area(PolyKind),
    Path(LineKind, u32),
    Skip,
}

/// The class tag of a feature, empty where it has none.
pub open spec fn class_of(tags: Seq<(Seq<char>, TagValueView)>) -> Seq<char> {
    match prop_of(tags, "class"@) {
        Some(c) => c,
        None => Seq::empty(),
    }
}

/// How a feature of a named layer is drawn.
pub open spec fn shape(layer: Seq<char>, f: FeatureView) -> Shape {
    let class = class_of(f.tags);
    let aeroway = prop_of(f.tags, "aeroway"@);
    if layer == "water"@ && f.geom_type == 3 {
        Shape::Area(PolyKind::Water)
    } else if layer == "waterway"@ && f.geom_type == 2 {
        Shape::Path(
            LineKind::Waterway,
            match waterway_metres(class) {
                Some(w) => w,
                None => 20,
            },
        )
    } else if (layer == "landcover"@ || layer == "park"@) && f.geom_type == 3 {
        if is_green(class) || layer == "park"@ {
            Shape::Area(PolyKind::Green)
        } else {
            Shape::Skip
        }
    } else if layer == "landuse"@ && f.geom_type == 3 {
        if is_green(class) {
            Shape::Area(PolyKind::Green)
        } else if is_landuse(class) {
            Shape::Area(PolyKind::Landuse)
        } else {
            Shape::Skip
        }
    } else if layer == "building"@ && f.geom_type == 3 {
        Shape::Area(PolyKind::Building)
    } else if layer == "transportation"@ && f.geom_type == 2 {
        if aeroway == Some("runway"@) || class == "runway"@ {
            Shape::Path(LineKind::Runway, 55)
        } else if aeroway == Some("taxiway"@) || class == "taxiway"@ {
            Shape::Path(LineKind::Taxiway, 22)
        } else {
            match road_class(class) {
                Some((rc, w)) => Shape::Path(LineKind::Road(rc), w),
                None => Shape::Skip,
            }
        }
    } else {
        Shape::Skip
    }
}

/// How a feature of a named layer is drawn.
pub fn shape_of(layer: &str, f: &MvtFeature) -> (r: Shape)
    ensures
        r == shape(layer@, f@),
{
    proof {
        reveal_strlit("");
        assert(""@ =~= Seq::<char>::empty());
    }
    let class: &str = match prop(&f.tags, "class") {
        Some(c) => c,
        None => "",
    };
    if same(layer, "water") && f.geom_type == 3 {
        Shape::Area(PolyKind::Water)
    } else if same(layer, "waterway") && f.geom_type == 2 {
        let width: u32 = match waterway_width(class) {
            Some(w) => w,
            None => 20,
        };
        Shape::Path(LineKind::Waterway, width)
    } else if (same(layer, "landcover") || same(layer, "park")) && f.geom_type == 3 {
        if green_kind(class) || same(layer, "park") {
            Shape::Area(PolyKind::Green)
        } else {
            Shape::Skip
        }
    } else if same(layer, "landuse") && f.geom_type == 3 {
        if green_kind(class) {
            Shape::Area(PolyKind::Green)
        } else if landuse_kind(class) {
            Shape::Area(PolyKind::Landuse)
        } else {
            Shape::Skip
        }
    } else if same(layer, "building") && f.geom_type == 3 {
        Shape::Area(PolyKind::Building)
    } else if same(layer, "transportation") && f.geom_type == 2 {
        let (runway, taxiway) = match prop(&f.tags, "aeroway") {
            Some(a) => (same(a, "runway"), same(a, "taxiway")),
            None => (false, false),
        };
        if runway || same(class, "runway") {
            Shape::Path(LineKind::Runway, 55)
        } else if taxiway || same(class, "taxiway") {
            Shape::Path(LineKind::Taxiway, 22)
        } else {
            match road_of(class) {
                Some((rc, w)) => Shape::Path(LineKind::Road(rc), w),
                None => Shape::Skip,
            }
        }
    } else {
        Shape::Skip
    }
}

/// The points of a ring of coordinate pairs.
pub open spec fn points(ring: Seq<(i32, i32)>) -> Seq<Point> {
    ring.map_values(|p: (i32, i32)| Point { x: p.0, y: p.1 })
}

fn to_points(ring: &Vec<(i32, i32)>) -> (r: Vec<Point>)
    ensures
        r@ == points(ring@),
{
    let mut out: Vec<Point> = Vec::new();
    let mut i: usize = 0;
    while i < ring.len()
        invariant
            i <= ring@.len(),
            out@ =~= points(ring@.take(i as int)),
        decreases ring@.len() - i,
    {
        out.push(Point { x: ring[i].0, y: ring[i].1 });
        i = i + 1;
    }
    assert(ring@.take(ring@.len() as int) =~= ring@);
    out
}

/// The holes among the rings 1 to `n - 1`: those that are smaller than the first ring.
pub open spec fn holes_of(rings: Seq<Seq<(i32, i32)>>, n: int) -> Seq<Seq<Point>>
    decreases n,
{
    if n <= 1 {
        Seq::empty()
    } else {
        let before = holes_of(rings, n - 1);
        let ring = points(rings[n - 1]);
        if magnitude(doubled_area(ring)) < magnitude(doubled_area(points(rings[0]))) {
            before.push(ring)
        } else {
            before
        }
    }
}

/// The area that rings bound: the first is the outline, smaller ones are holes. Nothing where
/// the outline has fewer than three points.
pub open spec fn area_of(rings: Seq<Seq<(i32, i32)>>, kind: PolyKind) -> Seq<PolyView> {
    if rings.len() == 0 || rings[0].len() < 3 {
        Seq::empty()
    } else {
        seq![
            PolyView {
                kind,
                outer: points(rings[0]),
                holes: holes_of(rings, rings.len() as int),
            },
        ]
    }
}

/// The lines of the first `n` rings: those with at least two points.
pub open spec fn paths_of(rings: Seq<Seq<(i32, i32)>>, kind: LineKind, width: u32, n: int) -> Seq<
    LineView,
>
    decreases n,
{
    if n <= 0 {
        Seq::empty()
    } else {
        let before = paths_of(rings, kind, width, n - 1);
        if rings[n - 1].len() >= 2 {
            before.push(LineView { kind, pts: points(rings[n - 1]), width })
        } else {
            before
        }
    }
}

fn absolute(i: i128) -> (r: u128)
    ensures
        r == magnitude(i as int),
{
    if i < 0 {
        (-(i + 1)) as u128 + 1
    } else {
        i as u128
    }
}

fn push_poly(polys: &mut Vec<Poly>, rings: &Vec<Vec<(i32, i32)>>, kind: PolyKind)
    ensures
        polys_view(final(polys)@) == polys_view(old(polys)@) + area_of(pairs_view(rings@), kind),
{
    let ghost start = polys@;
    let ghost all = pairs_view(rings@);
    if rings.len() == 0 || rings[0].len() < 3 {
        assert(polys_view(start) + Seq::<PolyView>::empty() =~= polys_view(start));
        return;
    }
    assert(all[0] == rings@[0]@);
    let outer: Vec<Point> = to_points(&rings[0]);
    let outer_area: u128 = absolute(ring_area(&outer));
    let mut holes: Vec<Vec<Point>> = Vec::new();
    let mut i: usize = 1;
    while i < rings.len()
        invariant
            1 <= i <= rings@.len(),
            all == pairs_view(rings@),
            outer@ == points(all[0]),
            outer_area == magnitude(doubled_area(outer@)),
            rings_view(holes@) =~= holes_of(all, i as int),
        decreases rings@.len() - i,
    {
        assert(all[i as int] == rings@[i as int]@);
        let pts: Vec<Point> = to_points(&rings[i]);
        let area: u128 = absolute(ring_area(&pts));
        if area < outer_area {
            holes.push(pts);
        }
        i = i + 1;
    }
    polys.push(Poly { kind, outer, holes });
    assert(polys_view(polys@) =~= polys_view(start) + area_of(all, kind));
}

fn push_line(lines: &mut Vec<Line>, rings: &Vec<Vec<(i32, i32)>>, kind: LineKind, width: u32)
    ensures
        lines_view(final(lines)@) == lines_view(old(lines)@) + paths_of(
            pairs_view(rings@),
            kind,
            width,
            rings@.len() as int,
        ),
{
    let ghost start = lines@;
    let ghost all = pairs_view(rings@);
    let mut i: usize = 0;
    while i < rings.len()
        invariant
            i <= rings@.len(),
            all == pairs_view(rings@),
            lines_view(lines@) =~= lines_view(start) + paths_of(all, kind, width, i as int),
        decreases rings@.len() - i,
    {
        assert(all[i as int] == rings@[i as int]@);
        let pts: Vec<Point> = to_points(&rings[i]);
        if pts.len() >= 2 {
            let ghost before = lines@;
            let line = Line { kind, pts, width };
            let ghost last = line@;
            lines.push(line);
            assert(lines_view(lines@) =~= lines_view(before).push(last));
        }
        i = i + 1;
    }
}

/// The areas and lines that a feature adds; `None` where it is drawn and its geometry cannot be
/// followed.
pub open spec fn feature_parts(layer: Seq<char>, f: FeatureView) -> Option<
    (Seq<PolyView>, Seq<LineView>),
> {
    match shape(layer, f) {
        Shape::Skip => Some((Seq::empty(), Seq::empty())),
        Shape::Area(kind) => match rings_of(f.geometry) {
            None => None,
            Some(rings) => Some((area_of(rings, kind), Seq::empty())),
        },
        Shape::Path(kind, width) => match rings_of(f.geometry) {
            None => None,
            Some(rings) => Some(
                (Seq::empty(), paths_of(rings, kind, width, rings.len() as int)),
            ),
        },
    }
}

/// The areas and lines of the first `n` features of a layer.
pub open spec fn layer_parts(layer: LayerView, n: int) -> Option<(Seq<PolyView>, Seq<LineView>)>
    decreases n,
{
    if n <= 0 {
        Some((Seq::empty(), Seq::empty()))
    } else {
        match (layer_parts(layer, n - 1), feature_parts(layer.name, layer.features[n - 1])) {
            (Some(before), Some(now)) => Some((before.0 + now.0, before.1 + now.1)),
            _ => None,
        }
    }
}

/// The areas and lines of the first `n` layers of a tile.
pub open spec fn tile_parts(layers: Seq<LayerView>, n: int) -> Option<
    (Seq<PolyView>, Seq<LineView>),
>
    decreases n,
{
    if n <= 0 {
        Some((Seq::empty(), Seq::empty()))
    } else {
        match (
            tile_parts(layers, n - 1),
            layer_parts(layers[n - 1], layers[n - 1].features.len() as int),
        ) {
            (Some(before), Some(now)) => Some((before.0 + now.0, before.1 + now.1)),
            _ => None,
        }
    }
}

proof fn lemma_layer_parts_prefix(layer: LayerView, i: int, n: int)
    requires
        layer_parts(layer, i) is None,
        i <= n,
    ensures
        layer_parts(layer, n) is None,
    decreases n - i,
{
    if i < n {
        lemma_layer_parts_prefix(layer, i, n - 1);
    }
}

proof fn lemma_tile_parts_prefix(layers: Seq<LayerView>, i: int, n: int)
    requires
        tile_parts(layers, i) is None,
        i <= n,
    ensures
        tile_parts(layers, n) is None,
    decreases n - i,
{
    if i < n {
        lemma_tile_parts_prefix(layers, i, n - 1);
    }
}

/// Appends what the features of a layer draw; `false` where a geometry cannot be followed.
fn push_layer(polys: &mut Vec<Poly>, lines: &mut Vec<Line>, layer: &MvtLayer) -> (ok: bool)
    ensures
        match layer_parts(layer@, layer@.features.len() as int) {
            None => !ok,
            Some((p, l)) => {
                &&& ok
                &&& polys_view(final(polys)@) == polys_view(old(polys)@) + p
                &&& lines_view(final(lines)@) == lines_view(old(lines)@) + l
            },
        },
{
    let ghost start_polys = polys_view(polys@);
    let ghost start_lines = lines_view(lines@);
    let ghost view = layer@;
    let ghost total = view.features.len() as int;
    let ghost mut parts: (Seq<PolyView>, Seq<LineView>) = (Seq::empty(), Seq::empty());
    let mut i: usize = 0;
    while i < layer.features.len()
        invariant
            i <= layer.features@.len(),
            view == layer@,
            total == layer.features@.len(),
            total == view.features.len(),
            layer_parts(view, i as int) == Some(parts),
            polys_view(polys@) =~= start_polys + parts.0,
            lines_view(lines@) =~= start_lines + parts.1,
        decreases total - i,
    {
        let f = &layer.features[i];
        assert(view.features[i as int] == f@);
        let s: Shape = shape_of(layer.name.as_str(), f);
        match s {
            Shape::Skip => {},
            Shape::Area(kind) => {
                match try_decode_rings(&f.geometry) {
                    None => {
                        proof {
                            lemma_layer_parts_prefix(view, i + 1, total);
                        }
                        return false;
                    },
                    Some(rings) => push_poly(polys, &rings, kind),
                }
            },
            Shape::Path(kind, width) => {
                match try_decode_rings(&f.geometry) {
                    None => {
                        proof {
                            lemma_layer_parts_prefix(view, i + 1, total);
                        }
                        return false;
                    },
                    Some(rings) => push_line(lines, &rings, kind, width),
                }
            },
        }
        proof {
            parts = layer_parts(view, i + 1)->Some_0;
        }
        i = i + 1;
    }
    true
}

/// The areas and lines of a tile in tile units, y downwards, with an empty bounding box; `None`
/// where a geometry that is drawn cannot be followed.
pub fn try_mvt_to_mapdata(tile: &MvtTile) -> (r: Option<MapData>)
    ensures
        match tile_parts(tile@, tile@.len() as int) {
            None => r is None,
            Some((p, l)) => {
                &&& r is Some
                &&& r->Some_0@.polys == p
                &&& r->Some_0@.lines == l
                &&& r->Some_0@.min == (Point { x: 0, y: 0 })
                &&& r->Some_0@.max == (Point { x: 0, y: 0 })
            },
        },
{
    let mut polys: Vec<Poly> = Vec::new();
    let mut lines: Vec<Line> = Vec::new();
    let ghost view = tile@;
    let ghost total = view.len() as int;
    let ghost mut parts: (Seq<PolyView>, Seq<LineView>) = (Seq::empty(), Seq::empty());
    let mut i: usize = 0;
    while i < tile.layers.len()
        invariant
            i <= tile.layers@.len(),
            view == tile@,
            total == tile.layers@.len(),
            total == view.len(),
            tile_parts(view, i as int) == Some(parts),
            polys_view(polys@) =~= parts.0,
            lines_view(lines@) =~= parts.1,
        decreases total - i,
    {
        assert(view[i as int] == tile.layers@[i as int]@);
        if !push_layer(&mut polys, &mut lines, &tile.layers[i]) {
            proof {
                lemma_tile_parts_prefix(view, i + 1, total);
            }
            return None;
        }
        proof {
            parts = tile_parts(view, i + 1)->Some_0;
        }
        i = i + 1;
    }
    let origin = Point { x: 0, y: 0 };
    Some(MapData { polys, lines, min: origin, max: origin })
}

/// The areas and lines of a tile in tile units, y downwards, with an empty bounding box.
pub fn mvt_to_mapdata(tile: &MvtTile) -> (r: MapData)
    requires
        tile_parts(tile@, tile@.len() as int) is Some,
    ensures
        r@.polys == tile_parts(tile@, tile@.len() as int)->Some_0.0,
        r@.lines == tile_parts(tile@, tile@.len() as int)->Some_0.1,
        r@.min == (Point { x: 0, y: 0 }),
        r@.max == (Point { x: 0, y: 0 }),
{
    match try_mvt_to_mapdata(tile) {
        Some(map) => map,
        None => {
            let origin = Point { x: 0, y: 0 };
            MapData { polys: Vec::new(), lines: Vec::new(), min: origin, max: origin }
        },
    }
}

} // verus!
