//! Reading XML as a list of plain events.

use vstd::prelude::*;

use quick_xml::events::{BytesStart, Event};
use quick_xml::Reader;

verus! {

/// A tag: its name and, for each attribute, its key and its value. An attribute that cannot be
/// read is `None`; a value that cannot be unescaped is `None`.
pub struct TagView {
    pub name: Seq<u8>,
    pub attrs: Seq<Option<(Seq<u8>, Option<Seq<char>>)>>,
}

/// One event of a document, as far as it matters to a reader of elements.
pub enum EventView {
    Start(TagView),
    Empty(TagView),
    End,
    Other,
}

#[verifier::external_type_specification]
#[verifier::external_body]
#[verifier::reject_recursive_types(R)]
pub struct ExReader<R>(quick_xml::Reader<R>);

#[verifier::external_type_specification]
#[verifier::external_body]
pub struct ExBytesStart<'a>(quick_xml::events::BytesStart<'a>);

/// The events of a text, up to its end or to the first error.
pub uninterp spec fn xml_events(text: Seq<char>) -> Seq<EventView>;

/// The message of the error at which reading a text stops; `None` where it reaches the end.
pub uninterp spec fn xml_failure(text: Seq<char>) -> Option<Seq<char>>;

/// The events that a reader has still to hand out, up to the end or to the first error.
pub uninterp spec fn pending(reader: Reader<&[u8]>) -> Seq<EventView>;

/// The message of the error that ends the pending events; `None` where the text ends.
pub uninterp spec fn failure(reader: Reader<&[u8]>) -> Option<Seq<char>>;

/// The tag that the bytes of a start or empty element hold.
pub uninterp spec fn tag_of(tag: BytesStart<'_>) -> TagView;

/// An event as `next_event` hands it out.
pub enum XmlEvent<'a> {
    Start(BytesStart<'a>),
    Empty(BytesStart<'a>),
    End,
    Other,
}

impl<'a> XmlEvent<'a> {
    /// What the event holds.
    pub open spec fn content(self) -> EventView {
        match self {
            XmlEvent::Start(t) => EventView::Start(tag_of(t)),
            XmlEvent::Empty(t) => EventView::Empty(tag_of(t)),
            XmlEvent::End => EventView::End,
            XmlEvent::Other => EventView::Other,
        }
    }
}

/// `quick_xml::Reader::from_str` with text trimmed. Claimed: what the reader will hand out, and
/// the error at which it stops, depend on the text alone.
#[verifier::external_body]
pub(crate) fn open_xml<'a>(text: &'a str) -> (r: Reader<&'a [u8]>)
    ensures
        pending(r) == xml_events(text@),
        failure(r) == xml_failure(text@),
{
    let mut reader = Reader::from_str(text);
    reader.config_mut().trim_text(true);
    reader
}

/// `quick_xml::Reader::read_event`. Claimed: it hands out the pending events in order, then
/// `None` at the end of the text, or the text of the error where reading fails.
#[verifier::external_body]
pub(crate) fn next_event<'a>(reader: &mut Reader<&'a [u8]>) -> (r: Result<Option<XmlEvent<'a>>, String>)
    ensures
        match r {
            Ok(Some(e)) => {
                &&& pending(*old(reader)).len() > 0
                &&& e.content() == pending(*old(reader))[0]
                &&& pending(*final(reader)) == pending(*old(reader)).skip(1)
                &&& failure(*final(reader)) == failure(*old(reader))
            },
            Ok(None) => pending(*old(reader)).len() == 0 && failure(*old(reader)) is None,
            Err(e) => pending(*old(reader)).len() == 0 && failure(*old(reader)) == Some(e@),
        },
{
    match reader.read_event() {
        Ok(Event::Start(t)) => Ok(Some(XmlEvent::Start(t))),
        Ok(Event::Empty(t)) => Ok(Some(XmlEvent::Empty(t))),
        Ok(Event::End(_)) => Ok(Some(XmlEvent::End)),
        Ok(Event::Eof) => Ok(None),
        Ok(_) => Ok(Some(XmlEvent::Other)),
        Err(e) => Err(format!("{e}")),
    }
}

/// `BytesStart::name`: the name of the tag, as bytes.
#[verifier::external_body]
pub(crate) fn tag_name(tag: &BytesStart<'_>) -> (r: Vec<u8>)
    ensures
        r@ == tag_of(*tag).name,
{
    tag.name().as_ref().to_vec()
}

/// An attribute as plain values.
pub type Attr = Option<(Vec<u8>, Option<String>)>;

/// What an attribute stands for.
pub open spec fn attr_view(a: Attr) -> Option<(Seq<u8>, Option<Seq<char>>)> {
    match a {
        None => None,
        Some((key, None)) => Some((key@, None)),
        Some((key, Some(value))) => Some((key@, Some(value@))),
    }
}

/// `BytesStart::attributes`: the attributes in order, each value unescaped. Claimed: they are
/// those of the tag, `None` for one that cannot be read, and a `None` value for one that cannot
/// be unescaped.
#[verifier::external_body]
pub(crate) fn tag_attrs(tag: &BytesStart<'_>) -> (r: Vec<Attr>)
    ensures
        r@.map_values(|a: Attr| attr_view(a)) == tag_of(*tag).attrs,
{
    tag.attributes()
        .map(|a| {
            a.ok().map(|a| (a.key.as_ref().to_vec(), a.unescape_value().ok().map(|v| v.into_owned())))
        })
        .collect()
}

} // verus!
