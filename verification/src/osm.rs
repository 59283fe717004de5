//! OpenStreetMap data: the element model and the builder that reads XML events.

use vstd::prelude::*;

pub use crate::extract::{
    assemble_rings, extract_map, tag_matches, Line, LineKind, MapData, Poly, PolyKind, RoadClass,
};
use crate::idmap::{IdMap, Tags};
use crate::text::{float_text, is_float, parse_i64, parsed_int, same};
use crate::xml::{
    attr_view, next_event, open_xml, pending, failure, tag_attrs, tag_name, xml_events,
    xml_failure, Attr, EventView, TagView, XmlEvent,
};

verus! {

// ---------- elements ----------

/// The position of a node: latitude and longitude as decimal text.
#[derive(Debug)]
pub struct NodePos {
    pub lat: String,
    pub lon: String,
}

/// A way: its tags and the nodes that it joins.
#[derive(Debug)]
pub struct Way {
    pub tags: Tags,
    pub node_ids: Vec<i64>,
}

/// A relation: its tags and those of its members that are ways, each with its role.
#[derive(Debug)]
pub struct Relation {
    pub tags: Tags,
    pub members: Vec<(i64, String)>,
}

/// The elements of a document by identifier.
#[derive(Debug)]
pub struct OsmData {
    pub nodes: IdMap<NodePos>,
    pub ways: IdMap<Way>,
    pub relations: IdMap<Relation>,
}

/// What a `Way` stands for.
pub struct WayView {
    pub tags: Map<Seq<char>, Seq<char>>,
    pub node_ids: Seq<i64>,
}

/// What a `Relation` stands for.
pub struct RelationView {
    pub tags: Map<Seq<char>, Seq<char>>,
    pub members: Seq<(i64, Seq<char>)>,
}

/// What an `OsmData` stands for.
pub struct OsmView {
    pub nodes: Map<i64, (Seq<char>, Seq<char>)>,
    pub ways: Map<i64, WayView>,
    pub relations: Map<i64, RelationView>,
}

/// The members of a list.
pub open spec fn members_view(members: Seq<(i64, String)>) -> Seq<(i64, Seq<char>)> {
    members.map_values(|m: (i64, String)| (m.0, m.1@))
}

impl View for NodePos {
    type V = (Seq<char>, Seq<char>);

    open spec fn view(&self) -> (Seq<char>, Seq<char>) {
        (self.lat@, self.lon@)
    }
}

impl View for Way {
    type V = WayView;

    open spec fn view(&self) -> WayView {
        WayView { tags: self.tags@, node_ids: self.node_ids@ }
    }
}

impl View for Relation {
    type V = RelationView;

    open spec fn view(&self) -> RelationView {
        RelationView { tags: self.tags@, members: members_view(self.members@) }
    }
}

impl View for OsmData {
    type V = OsmView;

    open spec fn view(&self) -> OsmView {
        OsmView {
            nodes: self.nodes@.map_values(|n: NodePos| n@),
            ways: self.ways@.map_values(|w: Way| w@),
            relations: self.relations@.map_values(|r: Relation| r@),
        }
    }
}

impl Default for OsmData {
    /// No elements.
    fn default() -> (r: Self)
        ensures
            r.wf(),
            r@ == OsmView::empty(),
    {
        let r = OsmData { nodes: IdMap::new(), ways: IdMap::new(), relations: IdMap::new() };
        proof {
            assert(r@.nodes =~= Map::empty());
            assert(r@.ways =~= Map::empty());
            assert(r@.relations =~= Map::empty());
        }
        r
    }
}

impl OsmData {
    /// The maps and the tags of all elements are well-formed.
    pub open spec fn wf(self) -> bool {
        &&& self.nodes.wf()
        &&& self.ways.wf()
        &&& self.relations.wf()
        &&& forall|id: i64| #[trigger] self.ways@.contains_key(id) ==> self.ways@[id].tags.wf()
        &&& forall|id: i64| #[trigger]
            self.relations@.contains_key(id) ==> self.relations@[id].tags.wf()
    }

}

impl OsmView {
    /// No elements.
    pub open spec fn empty() -> OsmView {
        OsmView { nodes: Map::empty(), ways: Map::empty(), relations: Map::empty() }
    }
}

// ---------- reading ----------

/// The value of the first attribute with a key; `None` where there is none, or where its value
/// cannot be unescaped.
pub open spec fn attr_value(
    attrs: Seq<Option<(Seq<u8>, Option<Seq<char>>)>>,
    key: Seq<char>,
) -> Option<Seq<char>>
    decreases attrs.len(),
{
    if attrs.len() == 0 {
        None
    } else {
        match attrs[0] {
            None => attr_value(attrs.skip(1), key),
            Some((k, v)) => if k == vstd::utf8::encode_utf8(key) {
                v
            } else {
                attr_value(attrs.skip(1), key)
            },
        }
    }
}

/// The value of an attribute, empty where it has none.
pub open spec fn attr_or_empty(
    attrs: Seq<Option<(Seq<u8>, Option<Seq<char>>)>>,
    key: Seq<char>,
) -> Seq<char> {
    match attr_value(attrs, key) {
        Some(v) => v,
        None => Seq::empty(),
    }
}

/// The value of an attribute as an identifier.
pub open spec fn attr_id(
    attrs: Seq<Option<(Seq<u8>, Option<Seq<char>>)>>,
    key: Seq<char>,
) -> Option<i64> {
    match attr_value(attrs, key) {
        None => None,
        Some(v) => match parsed_int(v, i64::MIN as int, i64::MAX as int) {
            None => None,
            Some(id) => Some(id as i64),
        },
    }
}

/// A tag as plain values.
#[derive(Debug)]
pub struct XmlTag {
    pub name: Vec<u8>,
    pub attrs: Vec<Attr>,
}

impl View for XmlTag {
    type V = TagView;

    open spec fn view(&self) -> TagView {
        TagView { name: self.name@, attrs: self.attrs@.map_values(|a: Attr| attr_view(a)) }
    }
}

/// An event as plain values.
#[derive(Debug)]
pub enum Node {
    Start(XmlTag),
    Empty(XmlTag),
    End,
    Other,
}

impl View for Node {
    type V = EventView;

    open spec fn view(&self) -> EventView {
        match self {
            Node::Start(t) => EventView::Start(t@),
            Node::Empty(t) => EventView::Empty(t@),
            Node::End => EventView::End,
            Node::Other => EventView::Other,
        }
    }
}

/// Whether bytes are the UTF-8 form of a text.
fn bytes_are(bytes: &[u8], s: &str) -> (r: bool)
    ensures
        r == (bytes@ == vstd::utf8::encode_utf8(s@)),
{
    let other: &[u8] = s.as_bytes();
    if bytes.len() != other.len() {
        return false;
    }
    let mut i: usize = 0;
    while i < bytes.len()
        invariant
            i <= bytes@.len(),
            bytes@.len() == other@.len(),
            other@ == vstd::utf8::encode_utf8(s@),
            forall|j: int| 0 <= j < i ==> bytes@[j] == other@[j],
        decreases bytes@.len() - i,
    {
        if bytes[i] != other[i] {
            return false;
        }
        i = i + 1;
    }
    assert(bytes@ =~= other@);
    true
}

impl XmlTag {
    /// The value of the first attribute with a key.
    pub fn attr_of(&self, key: &str) -> (r: Option<&str>)
        ensures
            match attr_value(self@.attrs, key@) {
                None => r is None,
                Some(v) => r is Some && r->Some_0@ == v,
            },
    {
        let ghost all = self@.attrs;
        let mut i: usize = 0;
        assert(all.skip(0) =~= all);
        while i < self.attrs.len()
            invariant
                i <= self.attrs@.len(),
                all == self@.attrs,
                all.len() == self.attrs@.len(),
                attr_value(all, key@) == attr_value(all.skip(i as int), key@),
            decreases self.attrs@.len() - i,
        {
            proof {
                assert(all.skip(i as int)[0] == all[i as int]);
                assert(all.skip(i as int).skip(1) =~= all.skip(i + 1));
                assert(all[i as int] == attr_view(self.attrs@[i as int]));
            }
            match &self.attrs[i] {
                None => {},
                Some((k, v)) => {
                    if bytes_are(k, key) {
                        return match v {
                            None => None,
                            Some(text) => Some(text.as_str()),
                        };
                    }
                },
            }
            i = i + 1;
        }
        None
    }

    /// The value of an attribute as text, empty where it has none.
    fn text_of(&self, key: &str) -> (r: String)
        ensures
            r@ == attr_or_empty(self@.attrs, key@),
    {
        match self.attr_of(key) {
            Some(v) => v.to_owned(),
            None => String::new(),
        }
    }

    /// The value of an attribute as an identifier.
    fn id_of(&self, key: &str) -> (r: Option<i64>)
        ensures
            r == attr_id(self@.attrs, key@),
    {
        match self.attr_of(key) {
            Some(v) => parse_i64(v),
            None => None,
        }
    }

    /// Whether the tag has a name.
    fn is(&self, name: &str) -> (r: bool)
        ensures
            r == named(self@, name@),
    {
        bytes_are(&self.name, name)
    }
}

/// Whether a tag has a name.
pub open spec fn named(tag: TagView, name: Seq<char>) -> bool {
    tag.name == vstd::utf8::encode_utf8(name)
}

/// The element whose children are being read.
#[derive(Debug, Clone, Copy, PartialEq, Eq, Structural)]
pub enum Ctx {
    Outside,
    Node,
    Way(i64),
    Relation(i64),
}

/// The state of the reader: the elements so far and the element being read.
pub struct BuildView {
    pub data: OsmView,
    pub ctx: Ctx,
}

/// A coordinate as it is kept: "0" where the text is not a number.
pub open spec fn coordinate(text: Seq<char>) -> Seq<char> {
    if is_float(text) {
        text
    } else {
        "0"@
    }
}

/// The state after an opening tag.
pub open spec fn opened(b: BuildView, t: TagView) -> BuildView {
    let id = attr_id(t.attrs, "id"@);
    if named(t, "node"@) {
        match (id, attr_value(t.attrs, "lat"@), attr_value(t.attrs, "lon"@)) {
            (Some(i), Some(lat), Some(lon)) => BuildView {
                data: OsmView {
                    nodes: b.data.nodes.insert(i, (coordinate(lat), coordinate(lon))),
                    ..b.data
                },
                ctx: Ctx::Node,
            },
            _ => BuildView { ctx: Ctx::Outside, ..b },
        }
    } else if named(t, "way"@) {
        match id {
            Some(i) => BuildView {
                data: if b.data.ways.contains_key(i) {
                    b.data
                } else {
                    OsmView {
                        ways: b.data.ways.insert(
                            i,
                            WayView { tags: Map::empty(), node_ids: Seq::empty() },
                        ),
                        ..b.data
                    }
                },
                ctx: Ctx::Way(i),
            },
            None => BuildView { ctx: Ctx::Outside, ..b },
        }
    } else if named(t, "relation"@) {
        match id {
            Some(i) => BuildView {
                data: if b.data.relations.contains_key(i) {
                    b.data
                } else {
                    OsmView {
                        relations: b.data.relations.insert(
                            i,
                            RelationView { tags: Map::empty(), members: Seq::empty() },
                        ),
                        ..b.data
                    }
                },
                ctx: Ctx::Relation(i),
            },
            None => BuildView { ctx: Ctx::Outside, ..b },
        }
    } else {
        BuildView { ctx: Ctx::Outside, ..b }
    }
}

/// The elements with a tag added to the element being read.
pub open spec fn with_tag(b: BuildView, k: Seq<char>, v: Seq<char>) -> OsmView {
    match b.ctx {
        Ctx::Way(id) => {
            let w = b.data.ways[id];
            OsmView {
                ways: b.data.ways.insert(id, WayView { tags: w.tags.insert(k, v), ..w }),
                ..b.data
            }
        },
        Ctx::Relation(id) => {
            let r = b.data.relations[id];
            OsmView {
                relations: b.data.relations.insert(
                    id,
                    RelationView { tags: r.tags.insert(k, v), ..r },
                ),
                ..b.data
            }
        },
        _ => b.data,
    }
}

/// The state after a tag that closes itself. The element being read stays the same.
pub open spec fn self_closed(b: BuildView, t: TagView) -> BuildView {
    let data = if named(t, "node"@) {
        match (
            attr_id(t.attrs, "id"@),
            attr_value(t.attrs, "lat"@),
            attr_value(t.attrs, "lon"@),
        ) {
            (Some(i), Some(lat), Some(lon)) => if is_float(lat) && is_float(lon) {
                OsmView { nodes: b.data.nodes.insert(i, (lat, lon)), ..b.data }
            } else {
                b.data
            },
            _ => b.data,
        }
    } else if named(t, "tag"@) {
        let k = attr_or_empty(t.attrs, "k"@);
        if k.len() > 0 {
            with_tag(b, k, attr_or_empty(t.attrs, "v"@))
        } else {
            b.data
        }
    } else if named(t, "nd"@) {
        match (b.ctx, attr_id(t.attrs, "ref"@)) {
            (Ctx::Way(id), Some(node)) => {
                let w = b.data.ways[id];
                OsmView {
                    ways: b.data.ways.insert(
                        id,
                        WayView { node_ids: w.node_ids.push(node), ..w },
                    ),
                    ..b.data
                }
            },
            _ => b.data,
        }
    } else if named(t, "member"@) {
        match (b.ctx, attr_id(t.attrs, "ref"@)) {
            (Ctx::Relation(id), Some(way)) => if attr_or_empty(t.attrs, "type"@) == "way"@ {
                let r = b.data.relations[id];
                OsmView {
                    relations: b.data.relations.insert(
                        id,
                        RelationView {
                            members: r.members.push((way, attr_or_empty(t.attrs, "role"@))),
                            ..r
                        },
                    ),
                    ..b.data
                }
            } else {
                b.data
            },
            _ => b.data,
        }
    } else {
        b.data
    };
    BuildView { data, ctx: b.ctx }
}

/// The state after an event.
pub open spec fn after_event(b: BuildView, e: EventView) -> BuildView {
    match e {
        EventView::Start(t) => opened(b, t),
        EventView::Empty(t) => self_closed(b, t),
        EventView::End => BuildView { ctx: Ctx::Outside, ..b },
        EventView::Other => b,
    }
}

/// The state after all events of a list.
pub open spec fn built(events: Seq<EventView>) -> BuildView
    decreases events.len(),
{
    if events.len() == 0 {
        BuildView { data: OsmView::empty(), ctx: Ctx::Outside }
    } else {
        after_event(built(events.drop_last()), events.last())
    }
}

/// Collects elements from events.
#[derive(Debug)]
pub struct OsmBuilder {
    pub data: OsmData,
    pub ctx: Ctx,
}

impl View for OsmBuilder {
    type V = BuildView;

    open spec fn view(&self) -> BuildView {
        BuildView { data: self.data@, ctx: self.ctx }
    }
}

impl OsmBuilder {
    /// The elements are well-formed and the element being read is among them.
    pub open spec fn wf(self) -> bool {
        &&& self.data.wf()
        &&& match self.ctx {
            Ctx::Way(id) => self.data.ways@.contains_key(id),
            Ctx::Relation(id) => self.data.relations@.contains_key(id),
            _ => true,
        }
    }

    /// A builder before the first event.
    pub fn new() -> (r: Self)
        ensures
            r.wf(),
            r@ == built(Seq::empty()),
    {
        OsmBuilder { data: OsmData::default(), ctx: Ctx::Outside }
    }

    fn open_node(&mut self, id: i64, lat: &str, lon: &str)
        requires
            old(self).wf(),
        ensures
            final(self).wf(),
            final(self)@ == (BuildView {
                data: OsmView {
                    nodes: old(self)@.data.nodes.insert(id, (coordinate(lat@), coordinate(lon@))),
                    ..old(self)@.data
                },
                ctx: Ctx::Node,
            }),
    {
        let ghost before = self@;
        let pos = NodePos {
            lat: if float_text(lat) { lat.to_owned() } else { "0".to_owned() },
            lon: if float_text(lon) { lon.to_owned() } else { "0".to_owned() },
        };
        let ghost view = pos@;
        self.data.nodes.insert(id, pos);
        self.ctx = Ctx::Node;
        assert(self.data@.nodes =~= before.data.nodes.insert(id, view));
    }

    fn open_tag(&mut self, t: &XmlTag)
        requires
            old(self).wf(),
        ensures
            final(self).wf(),
            final(self)@ == opened(old(self)@, t@),
    {
        let ghost before = self@;
        let id: Option<i64> = t.id_of("id");
        if t.is("node") {
            match (id, t.attr_of("lat"), t.attr_of("lon")) {
                (Some(i), Some(lat), Some(lon)) => {
                    self.open_node(i, lat, lon);
                },
                _ => {
                    self.ctx = Ctx::Outside;
                },
            }
        } else if t.is("way") {
            match id {
                Some(i) => {
                    if self.data.ways.get(i).is_none() {
                        let way = Way { tags: Tags::new(), node_ids: Vec::new() };
                        let ghost view = way@;
                        self.data.ways.insert(i, way);
                        assert(self.data@.ways =~= before.data.ways.insert(i, view));
                    }
                    self.ctx = Ctx::Way(i);
                },
                None => {
                    self.ctx = Ctx::Outside;
                },
            }
        } else if t.is("relation") {
            match id {
                Some(i) => {
                    if self.data.relations.get(i).is_none() {
                        let relation = Relation { tags: Tags::new(), members: Vec::new() };
                        let ghost view = relation@;
                        assert(view.members =~= Seq::empty());
                        self.data.relations.insert(i, relation);
                        assert(self.data@.relations =~= before.data.relations.insert(i, view));
                    }
                    self.ctx = Ctx::Relation(i);
                },
                None => {
                    self.ctx = Ctx::Outside;
                },
            }
        } else {
            self.ctx = Ctx::Outside;
        }
    }

    fn add_tag(&mut self, k: String, v: String)
        requires
            old(self).wf(),
        ensures
            final(self).wf(),
            final(self)@ == (BuildView { data: with_tag(old(self)@, k@, v@), ctx: old(self)@.ctx }),
    {
        let ghost before = self@;
        let ghost key = k@;
        let ghost value = v@;
        match self.ctx {
            Ctx::Way(id) => {
                if let Some(way) = self.data.ways.get_mut(id) {
                    way.tags.insert(k, v);
                }
                assert(self.data@.ways =~= with_tag(before, key, value).ways);
            },
            Ctx::Relation(id) => {
                if let Some(relation) = self.data.relations.get_mut(id) {
                    relation.tags.insert(k, v);
                }
                assert(self.data@.relations =~= with_tag(before, key, value).relations);
            },
            _ => {},
        }
    }

    fn add_node_ref(&mut self, id: i64, node: i64)
        requires
            old(self).wf(),
            old(self).ctx == Ctx::Way(id),
        ensures
            final(self).wf(),
            final(self)@.ctx == old(self)@.ctx,
            final(self)@.data == (OsmView {
                ways: old(self)@.data.ways.insert(
                    id,
                    WayView {
                        node_ids: old(self)@.data.ways[id].node_ids.push(node),
                        ..old(self)@.data.ways[id]
                    },
                ),
                ..old(self)@.data
            }),
    {
        let ghost before = self@.data;
        if let Some(way) = self.data.ways.get_mut(id) {
            way.node_ids.push(node);
        }
        assert(self@.data.ways =~= before.ways.insert(
            id,
            WayView { node_ids: before.ways[id].node_ids.push(node), ..before.ways[id] },
        ));
    }

    fn add_member(&mut self, id: i64, way: i64, role: String)
        requires
            old(self).wf(),
            old(self).ctx == Ctx::Relation(id),
        ensures
            final(self).wf(),
            final(self)@.ctx == old(self)@.ctx,
            final(self)@.data == (OsmView {
                relations: old(self)@.data.relations.insert(
                    id,
                    RelationView {
                        members: old(self)@.data.relations[id].members.push((way, role@)),
                        ..old(self)@.data.relations[id]
                    },
                ),
                ..old(self)@.data
            }),
    {
        let ghost before = self@.data;
        let ghost old_members = self.data.relations@[id].members@;
        let ghost text = role@;
        if let Some(relation) = self.data.relations.get_mut(id) {
            relation.members.push((way, role));
            assert(members_view(relation.members@) =~= members_view(old_members).push((way, text)));
        }
        assert(self@.data.relations =~= before.relations.insert(
            id,
            RelationView {
                members: before.relations[id].members.push((way, text)),
                ..before.relations[id]
            },
        ));
    }

    fn empty_tag(&mut self, t: &XmlTag)
        requires
            old(self).wf(),
        ensures
            final(self).wf(),
            final(self)@ == self_closed(old(self)@, t@),
    {
        let ghost before = self@;
        if t.is("node") {
            match (t.id_of("id"), t.attr_of("lat"), t.attr_of("lon")) {
                (Some(i), Some(lat), Some(lon)) => {
                    if float_text(lat) && float_text(lon) {
                        let pos = NodePos { lat: lat.to_owned(), lon: lon.to_owned() };
                        let ghost view = pos@;
                        self.data.nodes.insert(i, pos);
                        assert(self.data@.nodes =~= before.data.nodes.insert(i, view));
                    }
                },
                _ => {},
            }
        } else if t.is("tag") {
            let k: String = t.text_of("k");
            if k.as_str().unicode_len() > 0 {
                let v: String = t.text_of("v");
                self.add_tag(k, v);
            }
        } else if t.is("nd") {
            match (self.ctx, t.id_of("ref")) {
                (Ctx::Way(id), Some(node)) => self.add_node_ref(id, node),
                _ => {},
            }
        } else if t.is("member") {
            match (self.ctx, t.id_of("ref")) {
                (Ctx::Relation(id), Some(way)) => {
                    if same(t.text_of("type").as_str(), "way") {
                        let role: String = t.text_of("role");
                        self.add_member(id, way, role);
                    }
                },
                _ => {},
            }
        }
    }

    /// Takes one event in.
    pub fn event(&mut self, e: &Node)
        requires
            old(self).wf(),
        ensures
            final(self).wf(),
            final(self)@ == after_event(old(self)@, e@),
    {
        match e {
            Node::Start(t) => self.open_tag(t),
            Node::Empty(t) => self.empty_tag(t),
            Node::End => {
                self.ctx = Ctx::Outside;
            },
            Node::Other => {},
        }
    }
}

/// The elements that a list of events describes.
pub fn osm_from_events(events: &[Node]) -> (r: OsmData)
    ensures
        r.wf(),
        r@ == built(events@.map_values(|e: Node| e@)).data,
{
    let ghost views = events@.map_values(|e: Node| e@);
    let mut b = OsmBuilder::new();
    let mut i: usize = 0;
    assert(views.take(0) =~= Seq::empty());
    while i < events.len()
        invariant
            i <= events@.len(),
            views == events@.map_values(|e: Node| e@),
            b.wf(),
            b@ == built(views.take(i as int)),
        decreases events@.len() - i,
    {
        b.event(&events[i]);
        assert(views.take(i + 1).drop_last() =~= views.take(i as int));
        i = i + 1;
    }
    assert(views.take(views.len() as int) =~= views);
    b.data
}

/// Reads the elements of an OSM document. Fails exactly where reading the XML fails, with the
/// message of that error.
pub fn parse_osm(xml: &str) -> (r: Result<OsmData, String>)
    ensures
        match xml_failure(xml@) {
            None => r is Ok && r->Ok_0.wf() && r->Ok_0@ == built(xml_events(xml@)).data,
            Some(message) => r is Err && r->Err_0@ == "XML 解析错误: "@ + message,
        },
{
    let mut reader = open_xml(xml);
    let mut b = OsmBuilder::new();
    let ghost all = xml_events(xml@);
    let ghost mut done: Seq<EventView> = Seq::empty();
    assert(done + pending(reader) =~= all);
    loop
        invariant
            all == xml_events(xml@),
            failure(reader) == xml_failure(xml@),
            done + pending(reader) =~= all,
            b.wf(),
            b@ == built(done),
        decreases pending(reader).len(),
    {
        let ghost before = pending(reader);
        match next_event(&mut reader) {
            Err(e) => {
                return Err("XML 解析错误: ".to_owned().concat(e.as_str()));
            },
            Ok(None) => {
                assert(done =~= all);
                return Ok(b.data);
            },
            Ok(Some(e)) => {
                let ghost view = e.content();
                let node = match e {
                    XmlEvent::Start(t) => Node::Start(
                        XmlTag { name: tag_name(&t), attrs: tag_attrs(&t) },
                    ),
                    XmlEvent::Empty(t) => Node::Empty(
                        XmlTag { name: tag_name(&t), attrs: tag_attrs(&t) },
                    ),
                    XmlEvent::End => Node::End,
                    XmlEvent::Other => Node::Other,
                };
                b.event(&node);
                proof {
                    assert(done.push(view).drop_last() =~= done);
                    done = done.push(view);
                }
            },
        }
    }
}

} // verus!
