//! Laws of reading documents: which element each part of a document goes to.

use vstd::prelude::*;

use crate::osm::{
    after_event, attr_id, attr_or_empty, attr_value, built, named, BuildView, Ctx, OsmView,
    RelationView, WayView,
};
use crate::text::is_float;
use crate::xml::{EventView, TagView};

verus! {

// ---------- attributes ----------

/// The value of an attribute is that of the first readable attribute with its key; there is none where
/// no attribute has the key.
pub proof fn first_attribute_counts(
    attrs: Seq<Option<(Seq<u8>, Option<Seq<char>>)>>,
    key: Seq<char>,
    i: int,
)
    requires
        0 <= i <= attrs.len(),
        forall|j: int|
            0 <= j < i && (#[trigger] attrs[j]) is Some ==> attrs[j]->Some_0.0
                != vstd::utf8::encode_utf8(key),
        i < attrs.len() ==> attrs[i] is Some && attrs[i]->Some_0.0 == vstd::utf8::encode_utf8(key),
    ensures
        i == attrs.len() ==> attr_value(attrs, key) is None,
        i < attrs.len() ==> attr_value(attrs, key) == attrs[i]->Some_0.1,
    decreases attrs.len(),
{
    if i > 0 {
        let rest = attrs.skip(1);
        assert forall|j: int| 0 <= j < i - 1 && (#[trigger] rest[j]) is Some implies rest[j]->Some_0.0
            != vstd::utf8::encode_utf8(key) by {
            assert(rest[j] == attrs[j + 1]);
        }
        if i < attrs.len() {
            assert(rest[i - 1] == attrs[i]);
        }
        first_attribute_counts(rest, key, i - 1);
    }
}

proof fn lemma_one_name(t: TagView, a: Seq<char>, b: Seq<char>)
    requires
        named(t, a),
        a != b,
    ensures
        !named(t, b),
{
    vstd::utf8::encode_utf8_decode_utf8(a);
    vstd::utf8::encode_utf8_decode_utf8(b);
}

proof fn lemma_names()
    ensures
        "node"@ != "way"@,
        "node"@ != "relation"@,
        "node"@ != "tag"@,
        "node"@ != "nd"@,
        "node"@ != "member"@,
        "way"@ != "relation"@,
        "tag"@ != "nd"@,
        "tag"@ != "member"@,
        "nd"@ != "member"@,
{
    reveal_strlit("node");
    reveal_strlit("way");
    reveal_strlit("relation");
    reveal_strlit("tag");
    reveal_strlit("nd");
    reveal_strlit("member");
    assert("node"@.len() == 4 && "way"@.len() == 3 && "relation"@.len() == 8 && "tag"@.len() == 3
        && "nd"@.len() == 2 && "member"@.len() == 6);
}

// ---------- nodes ----------

/// An opening node with an identifier and two coordinates is kept under its identifier, a coordinate
/// that is no number as 0; one that lacks any of them is not. No other element changes.
pub proof fn opening_nodes_are_kept(b: BuildView, t: TagView)
    requires
        named(t, "node"@),
    ensures
        ({
            let n = after_event(b, EventView::Start(t));
            let (id, lat, lon) = (
                attr_id(t.attrs, "id"@),
                attr_value(t.attrs, "lat"@),
                attr_value(t.attrs, "lon"@),
            );
            &&& n.data.ways == b.data.ways
            &&& n.data.relations == b.data.relations
            &&& forall|i: i64| id != Some(i) ==> (#[trigger] n.data.nodes.contains_key(i)
                == b.data.nodes.contains_key(i)) && n.data.nodes[i] == b.data.nodes[i]
            &&& id is Some && lat is Some && lon is Some ==> {
                &&& n.data.nodes.contains_key(id->Some_0)
                &&& n.data.nodes[id->Some_0].0 == if is_float(lat->Some_0) {
                    lat->Some_0
                } else {
                    seq!['0']
                }
                &&& n.data.nodes[id->Some_0].1 == if is_float(lon->Some_0) {
                    lon->Some_0
                } else {
                    seq!['0']
                }
            }
            &&& id is None || lat is None || lon is None ==> n.data == b.data
        }),
{
    reveal_strlit("0");
    assert("0"@ =~= seq!['0']);
}

/// A node that closes itself is kept under its identifier where it has one and both coordinates are
/// numbers, and not otherwise. No other element changes, and the element being read stays the same.
pub proof fn closed_nodes_are_kept(b: BuildView, t: TagView)
    requires
        named(t, "node"@),
    ensures
        ({
            let n = after_event(b, EventView::Empty(t));
            let (id, lat, lon) = (
                attr_id(t.attrs, "id"@),
                attr_value(t.attrs, "lat"@),
                attr_value(t.attrs, "lon"@),
            );
            let complete = id is Some && lat is Some && lon is Some && is_float(lat->Some_0)
                && is_float(lon->Some_0);
            &&& n.ctx == b.ctx
            &&& n.data.ways == b.data.ways
            &&& n.data.relations == b.data.relations
            &&& complete ==> n.data.nodes == b.data.nodes.insert(
                id->Some_0,
                (lat->Some_0, lon->Some_0),
            )
            &&& !complete ==> n.data == b.data
        }),
{
}

// ---------- the children of ways and relations ----------

/// The node that an event refers to.
pub open spec fn ref_in(e: EventView) -> Option<i64> {
    match e {
        EventView::Empty(t) => if named(t, "nd"@) {
            attr_id(t.attrs, "ref"@)
        } else {
            None
        },
        _ => None,
    }
}

/// The key and the value that an event gives.
pub open spec fn tag_in_event(e: EventView) -> Option<(Seq<char>, Seq<char>)> {
    match e {
        EventView::Empty(t) => if named(t, "tag"@) && attr_or_empty(t.attrs, "k"@).len() > 0 {
            Some((attr_or_empty(t.attrs, "k"@), attr_or_empty(t.attrs, "v"@)))
        } else {
            None
        },
        _ => None,
    }
}

/// The way that an event makes a member, and its role.
pub open spec fn member_in(e: EventView) -> Option<(i64, Seq<char>)> {
    match e {
        EventView::Empty(t) => if named(t, "member"@) && attr_id(t.attrs, "ref"@) is Some
            && attr_or_empty(t.attrs, "type"@) == "way"@ {
            Some((attr_id(t.attrs, "ref"@)->Some_0, attr_or_empty(t.attrs, "role"@)))
        } else {
            None
        },
        _ => None,
    }
}

/// Whether a list has only events that close themselves.
pub open spec fn childless(body: Seq<EventView>) -> bool {
    forall|i: int| 0 <= i < body.len() ==> (#[trigger] body[i]) is Empty
}

/// The nodes that a list of events refers to.
pub open spec fn refs_in(body: Seq<EventView>) -> Seq<i64> {
    body.filter(|e: EventView| ref_in(e) is Some).map_values(|e: EventView| ref_in(e)->Some_0)
}

/// The members that a list of events names.
pub open spec fn members_in(body: Seq<EventView>) -> Seq<(i64, Seq<char>)> {
    body.filter(|e: EventView| member_in(e) is Some).map_values(
        |e: EventView| member_in(e)->Some_0,
    )
}

/// Whether tags are those of before with the ones of a list of events, of which the last with a key
/// counts.
pub open spec fn tags_after(
    before: Map<Seq<char>, Seq<char>>,
    body: Seq<EventView>,
    after: Map<Seq<char>, Seq<char>>,
) -> bool {
    &&& forall|k: Seq<char>|
        !(exists|i: int|
            0 <= i < body.len() && tag_in_event(#[trigger] body[i]) is Some && tag_in_event(
                body[i],
            )->Some_0.0 == k) ==> (#[trigger] after.contains_key(k) == before.contains_key(k))
            && after[k] == before[k]
    &&& forall|i: int|
        0 <= i < body.len() && tag_in_event(#[trigger] body[i]) is Some && (forall|j: int|
            i < j < body.len() && tag_in_event(#[trigger] body[j]) is Some ==> tag_in_event(
                body[j],
            )->Some_0.0 != tag_in_event(body[i])->Some_0.0) ==> after.contains_key(
            tag_in_event(body[i])->Some_0.0,
        ) && after[tag_in_event(body[i])->Some_0.0] == tag_in_event(body[i])->Some_0.1
}

proof fn lemma_way_child(b: BuildView, e: EventView, id: i64)
    requires
        b.ctx == Ctx::Way(id),
        b.data.ways.contains_key(id),
        e is Empty,
    ensures
        ({
            let n = after_event(b, e);
            let (v, w) = (b.data.ways[id], n.data.ways[id]);
            &&& n.ctx == b.ctx
            &&& n.data.relations == b.data.relations
            &&& n.data.ways.contains_key(id)
            &&& n.data.ways.remove(id) == b.data.ways.remove(id)
            &&& w.node_ids == match ref_in(e) {
                Some(r) => v.node_ids.push(r),
                None => v.node_ids,
            }
            &&& w.tags == match tag_in_event(e) {
                Some((k, x)) => v.tags.insert(k, x),
                None => v.tags,
            }
        }),
{
    lemma_names();
    let t = e->Empty_0;
    let n = after_event(b, e);
    if named(t, "node"@) {
        lemma_one_name(t, "node"@, "tag"@);
        lemma_one_name(t, "node"@, "nd"@);
    } else if named(t, "tag"@) {
        lemma_one_name(t, "tag"@, "nd"@);
    }
    assert(n.data.ways.remove(id) =~= b.data.ways.remove(id));
}

proof fn lemma_relation_child(b: BuildView, e: EventView, id: i64)
    requires
        b.ctx == Ctx::Relation(id),
        b.data.relations.contains_key(id),
        e is Empty,
    ensures
        ({
            let n = after_event(b, e);
            let (v, w) = (b.data.relations[id], n.data.relations[id]);
            &&& n.ctx == b.ctx
            &&& n.data.ways == b.data.ways
            &&& n.data.relations.contains_key(id)
            &&& n.data.relations.remove(id) == b.data.relations.remove(id)
            &&& w.members == match member_in(e) {
                Some(m) => v.members.push(m),
                None => v.members,
            }
            &&& w.tags == match tag_in_event(e) {
                Some((k, x)) => v.tags.insert(k, x),
                None => v.tags,
            }
        }),
{
    lemma_names();
    let t = e->Empty_0;
    let n = after_event(b, e);
    if named(t, "node"@) {
        lemma_one_name(t, "node"@, "tag"@);
        lemma_one_name(t, "node"@, "member"@);
    } else if named(t, "tag"@) {
        lemma_one_name(t, "tag"@, "member"@);
    } else if named(t, "nd"@) {
        lemma_one_name(t, "nd"@, "member"@);
    }
    assert(n.data.relations.remove(id) =~= b.data.relations.remove(id));
}

proof fn lemma_refs_push(body: Seq<EventView>, e: EventView)
    ensures
        refs_in(body.push(e)) == match ref_in(e) {
            Some(r) => refs_in(body).push(r),
            None => refs_in(body),
        },
{
    reveal(Seq::filter);
    let f = |e: EventView| ref_in(e) is Some;
    let g = |e: EventView| ref_in(e)->Some_0;
    assert(body.push(e).drop_last() =~= body);
    assert(body.push(e).last() == e);
    if ref_in(e) is Some {
        assert(body.push(e).filter(f) == body.filter(f).push(e));
        assert(body.filter(f).push(e).map_values(g) =~= body.filter(f).map_values(g).push(
            ref_in(e)->Some_0,
        ));
    }
}

proof fn lemma_members_push(body: Seq<EventView>, e: EventView)
    ensures
        members_in(body.push(e)) == match member_in(e) {
            Some(r) => members_in(body).push(r),
            None => members_in(body),
        },
{
    reveal(Seq::filter);
    let f = |e: EventView| member_in(e) is Some;
    let g = |e: EventView| member_in(e)->Some_0;
    assert(body.push(e).drop_last() =~= body);
    assert(body.push(e).last() == e);
    if member_in(e) is Some {
        assert(body.push(e).filter(f) == body.filter(f).push(e));
        assert(body.filter(f).push(e).map_values(g) =~= body.filter(f).map_values(g).push(
            member_in(e)->Some_0,
        ));
    }
}

proof fn lemma_tags_push(
    before: Map<Seq<char>, Seq<char>>,
    body: Seq<EventView>,
    middle: Map<Seq<char>, Seq<char>>,
    e: EventView,
    after: Map<Seq<char>, Seq<char>>,
)
    requires
        tags_after(before, body, middle),
        after == match tag_in_event(e) {
            Some((k, x)) => middle.insert(k, x),
            None => middle,
        },
    ensures
        tags_after(before, body.push(e), after),
{
    let all = body.push(e);
    let n = body.len() as int;
    assert(all[n] == e);
    assert forall|k: Seq<char>|
        !(exists|i: int|
            0 <= i < all.len() && tag_in_event(#[trigger] all[i]) is Some && tag_in_event(
                all[i],
            )->Some_0.0 == k) implies (#[trigger] after.contains_key(k) == before.contains_key(k))
        && after[k] == before[k] by {
        if exists|i: int|
            0 <= i < body.len() && tag_in_event(#[trigger] body[i]) is Some && tag_in_event(
                body[i],
            )->Some_0.0 == k {
            let i = choose|i: int|
                0 <= i < body.len() && tag_in_event(#[trigger] body[i]) is Some && tag_in_event(
                    body[i],
                )->Some_0.0 == k;
            assert(all[i] == body[i]);
            assert(false);
        }
        if tag_in_event(e) is Some && tag_in_event(e)->Some_0.0 == k {
            assert(tag_in_event(all[n]) is Some);
            assert(false);
        }
        assert(middle.contains_key(k) == before.contains_key(k));
    }
    assert forall|i: int|
        0 <= i < all.len() && tag_in_event(#[trigger] all[i]) is Some && (forall|j: int|
            i < j < all.len() && tag_in_event(#[trigger] all[j]) is Some ==> tag_in_event(
                all[j],
            )->Some_0.0 != tag_in_event(all[i])->Some_0.0) implies after.contains_key(
        tag_in_event(all[i])->Some_0.0,
    ) && after[tag_in_event(all[i])->Some_0.0] == tag_in_event(all[i])->Some_0.1 by {
        if i < n {
            assert(all[i] == body[i]);
            assert forall|j: int|
                i < j < body.len() && tag_in_event(#[trigger] body[j]) is Some implies tag_in_event(
                body[j],
            )->Some_0.0 != tag_in_event(body[i])->Some_0.0 by {
                assert(all[j] == body[j]);
            }
            if tag_in_event(e) is Some {
                assert(tag_in_event(all[n]) is Some);
            }
        }
    }
}

proof fn lemma_built_push(events: Seq<EventView>, e: EventView)
    ensures
        built(events.push(e)) == after_event(built(events), e),
{
    assert(events.push(e).drop_last() =~= events);
}

proof fn lemma_way_body(before: Seq<EventView>, body: Seq<EventView>, id: i64)
    requires
        built(before).ctx == Ctx::Way(id),
        built(before).data.ways.contains_key(id),
        childless(body),
    ensures
        ({
            let (b, n) = (built(before), built(before + body));
            &&& n.ctx == Ctx::Way(id)
            &&& n.data.relations == b.data.relations
            &&& n.data.ways.contains_key(id)
            &&& n.data.ways.remove(id) == b.data.ways.remove(id)
            &&& n.data.ways[id].node_ids == b.data.ways[id].node_ids + refs_in(body)
            &&& tags_after(b.data.ways[id].tags, body, n.data.ways[id].tags)
        }),
    decreases body.len(),
{
    if body.len() == 0 {
        reveal(Seq::filter);
        assert(before + body =~= before);
        assert(refs_in(body) =~= Seq::empty());
        assert(built(before).data.ways[id].node_ids + refs_in(body)
            =~= built(before).data.ways[id].node_ids);
    } else {
        let rest = body.drop_last();
        let e = body.last();
        assert forall|i: int| 0 <= i < rest.len() implies (#[trigger] rest[i]) is Empty by {
            assert(body[i] is Empty);
        }
        assert(body[body.len() - 1] is Empty);
        lemma_way_body(before, rest, id);
        let m = built(before + rest);
        lemma_way_child(m, e, id);
        assert(before + body =~= (before + rest).push(e));
        lemma_built_push(before + rest, e);
        assert(rest.push(e) =~= body);
        lemma_refs_push(rest, e);
        lemma_tags_push(
            built(before).data.ways[id].tags,
            rest,
            m.data.ways[id].tags,
            e,
            built(before + body).data.ways[id].tags,
        );
        assert(built(before + body).data.ways[id].node_ids =~= built(before).data.ways[id].node_ids
            + refs_in(body));
    }
}

proof fn lemma_relation_body(before: Seq<EventView>, body: Seq<EventView>, id: i64)
    requires
        built(before).ctx == Ctx::Relation(id),
        built(before).data.relations.contains_key(id),
        childless(body),
    ensures
        ({
            let (b, n) = (built(before), built(before + body));
            &&& n.ctx == Ctx::Relation(id)
            &&& n.data.ways == b.data.ways
            &&& n.data.relations.contains_key(id)
            &&& n.data.relations.remove(id) == b.data.relations.remove(id)
            &&& n.data.relations[id].members == b.data.relations[id].members + members_in(body)
            &&& tags_after(b.data.relations[id].tags, body, n.data.relations[id].tags)
        }),
    decreases body.len(),
{
    if body.len() == 0 {
        reveal(Seq::filter);
        assert(before + body =~= before);
        assert(members_in(body) =~= Seq::empty());
        assert(built(before).data.relations[id].members + members_in(body)
            =~= built(before).data.relations[id].members);
    } else {
        let rest = body.drop_last();
        let e = body.last();
        assert forall|i: int| 0 <= i < rest.len() implies (#[trigger] rest[i]) is Empty by {
            assert(body[i] is Empty);
        }
        assert(body[body.len() - 1] is Empty);
        lemma_relation_body(before, rest, id);
        let m = built(before + rest);
        lemma_relation_child(m, e, id);
        assert(before + body =~= (before + rest).push(e));
        lemma_built_push(before + rest, e);
        assert(rest.push(e) =~= body);
        lemma_members_push(rest, e);
        lemma_tags_push(
            built(before).data.relations[id].tags,
            rest,
            m.data.relations[id].tags,
            e,
            built(before + body).data.relations[id].tags,
        );
        assert(built(before + body).data.relations[id].members
            =~= built(before).data.relations[id].members + members_in(body));
    }
}

/// A way of a document is kept under its identifier with the nodes that it refers to, in order, and with
/// its tags, of which the last with a key counts. Where a way with that identifier was read before, the
/// new nodes follow its nodes and the new tags are added to its tags. No other way and no relation
/// changes.
pub proof fn ways_are_read(before: Seq<EventView>, t: TagView, body: Seq<EventView>, id: i64)
    requires
        named(t, "way"@),
        attr_id(t.attrs, "id"@) == Some(id),
        childless(body),
    ensures
        ({
            let b = built(before).data;
            let n = built(before.push(EventView::Start(t)) + body.push(EventView::End));
            let w = if b.ways.contains_key(id) {
                b.ways[id]
            } else {
                (WayView { tags: Map::empty(), node_ids: Seq::empty() })
            };
            &&& n.ctx == Ctx::Outside
            &&& n.data.relations == b.relations
            &&& n.data.ways.contains_key(id)
            &&& n.data.ways.remove(id) == b.ways.remove(id)
            &&& n.data.ways[id].node_ids == w.node_ids + refs_in(body)
            &&& tags_after(w.tags, body, n.data.ways[id].tags)
        }),
{
    lemma_names();
    lemma_one_name(t, "way"@, "node"@);
    let open = before.push(EventView::Start(t));
    lemma_built_push(before, EventView::Start(t));
    assert(built(open).data.ways.remove(id) =~= built(before).data.ways.remove(id));
    lemma_way_body(open, body, id);
    assert(open + body.push(EventView::End) =~= (open + body).push(EventView::End));
    lemma_built_push(open + body, EventView::End);
}

/// A relation of a document is kept under its identifier with those of its members that are ways, in
/// order and each with its role, and with its tags, of which the last with a key counts. Where a relation
/// with that identifier was read before, the new members follow its members and the new tags are added
/// to its tags. No other relation and no way changes.
pub proof fn relations_are_read(before: Seq<EventView>, t: TagView, body: Seq<EventView>, id: i64)
    requires
        named(t, "relation"@),
        attr_id(t.attrs, "id"@) == Some(id),
        childless(body),
    ensures
        ({
            let b = built(before).data;
            let n = built(before.push(EventView::Start(t)) + body.push(EventView::End));
            let r = if b.relations.contains_key(id) {
                b.relations[id]
            } else {
                (RelationView { tags: Map::empty(), members: Seq::empty() })
            };
            &&& n.ctx == Ctx::Outside
            &&& n.data.ways == b.ways
            &&& n.data.relations.contains_key(id)
            &&& n.data.relations.remove(id) == b.relations.remove(id)
            &&& n.data.relations[id].members == r.members + members_in(body)
            &&& tags_after(r.tags, body, n.data.relations[id].tags)
        }),
{
    lemma_names();
    lemma_one_name(t, "relation"@, "node"@);
    lemma_one_name(t, "relation"@, "way"@);
    let open = before.push(EventView::Start(t));
    lemma_built_push(before, EventView::Start(t));
    assert(built(open).data.relations.remove(id) =~= built(before).data.relations.remove(id));
    lemma_relation_body(open, body, id);
    assert(open + body.push(EventView::End) =~= (open + body).push(EventView::End));
    lemma_built_push(open + body, EventView::End);
}

/// Outside of ways and relations nothing but nodes adds to a document: neither tags, nor references,
/// nor members, nor elements without an identifier, nor elements with another name, nor anything else.
pub proof fn strays_are_ignored(b: BuildView, e: EventView)
    requires
        match e {
            EventView::Start(t) => {
                ||| !named(t, "node"@) && !named(t, "way"@) && !named(t, "relation"@)
                ||| attr_id(t.attrs, "id"@) is None
            },
            EventView::Empty(t) => !named(t, "node"@) && (b.ctx is Outside || b.ctx is Node),
            _ => true,
        },
    ensures
        after_event(b, e).data == b.data,
        e is Start || e is End ==> after_event(b, e).ctx is Outside,
        e is Empty || e is Other ==> after_event(b, e).ctx == b.ctx,
{
}

/// A document starts without elements.
pub proof fn documents_start_empty()
    ensures
        built(Seq::empty()).data == (OsmView {
            nodes: Map::empty(),
            ways: Map::empty(),
            relations: Map::empty(),
        }),
        built(Seq::empty()).ctx is Outside,
{
}

} // verus!
