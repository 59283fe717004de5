//! Laws of drawing by class: which tags and classes are drawn as what, how wide, and in what order of
//! precedence.

use vstd::prelude::*;

use crate::extract::{
    aeroway_shape, drawn_railway, green_landuse, green_leisure, green_natural, highway_class,
    relation_kind, tag_in, tagged_green, tagged_used, used_landuse, waterway_shape, way_shape,
    LineKind, PolyKind, RoadClass, WayShape,
};
use crate::mvt::{
    class_of, is_green, is_landuse, prop_of, road_class, shape, waterway_metres, FeatureView, Shape,
};

verus! {

/// The value of a tag, where there is one.
pub open spec fn value_of(tags: Map<Seq<char>, Seq<char>>, key: Seq<char>) -> Option<Seq<char>> {
    if tags.contains_key(key) {
        Some(tags[key])
    } else {
        None
    }
}

/// The natural features that are drawn green.
pub open spec fn wild(v: Seq<char>) -> bool {
    v == "wood"@ || v == "scrub"@ || v == "wetland"@ || v == "beach"@ || v == "sand"@
}

/// The uses of land that are drawn green.
pub open spec fn cultivated(v: Seq<char>) -> bool {
    v == "forest"@ || v == "grass"@ || v == "meadow"@ || v == "village_green"@
        || v == "recreation_ground"@ || v == "cemetery"@
}

/// The places of leisure that are drawn green.
pub open spec fn recreational(v: Seq<char>) -> bool {
    v == "park"@ || v == "golf_course"@ || v == "pitch"@ || v == "stadium"@ || v == "playground"@
}

/// The uses of land that are drawn as such.
pub open spec fn built_up(v: Seq<char>) -> bool {
    v == "residential"@ || v == "military"@ || v == "industrial"@ || v == "commercial"@
        || v == "farmland"@ || v == "quarry"@ || v == "education"@
}

/// The railways that are drawn.
pub open spec fn railed(v: Seq<char>) -> bool {
    v == "rail"@ || v == "light_rail"@ || v == "tram"@ || v == "subway"@
}

/// The major roads.
pub open spec fn major_road(v: Seq<char>) -> bool {
    v == "motorway"@ || v == "trunk"@ || v == "primary"@ || v == "motorway_link"@
        || v == "trunk_link"@ || v == "primary_link"@
}

/// The roads between.
pub open spec fn middle_road(v: Seq<char>) -> bool {
    v == "secondary"@ || v == "tertiary"@ || v == "secondary_link"@ || v == "tertiary_link"@
}

/// The minor roads of a map file.
pub open spec fn minor_road(v: Seq<char>) -> bool {
    v == "residential"@ || v == "unclassified"@ || v == "living_street"@ || v == "service"@
        || v == "road"@
}

/// The minor roads of a tile.
pub open spec fn minor_tile_road(v: Seq<char>) -> bool {
    v == "minor"@ || v == "service"@ || v == "residential"@ || v == "unclassified"@
        || v == "living_street"@ || v == "road"@
}

/// The classes of a tile that are drawn green.
pub open spec fn green_class(v: Seq<char>) -> bool {
    v == "wood"@ || v == "forest"@ || v == "grass"@ || v == "park"@ || v == "golf_course"@
        || v == "cemetery"@ || v == "scrub"@ || v == "wetland"@ || v == "farmland"@
}

/// The classes of a tile that are drawn as used land.
pub open spec fn used_class(v: Seq<char>) -> bool {
    v == "residential"@ || v == "military"@ || v == "industrial"@ || v == "commercial"@
        || v == "retail"@ || v == "quarry"@ || v == "education"@
}

proof fn lemma_green_natural(v: Seq<char>)
    ensures
        green_natural().contains(v) <==> wild(v),
{
    let list = green_natural();
    assert(list[0] == "wood"@);
    assert(list[1] == "scrub"@);
    assert(list[2] == "wetland"@);
    assert(list[3] == "beach"@);
    assert(list[4] == "sand"@);
    if list.contains(v) {
        let i = choose|i: int| 0 <= i < list.len() && list[i] == v;
        assert(0 <= i < 5);
    }
}

proof fn lemma_green_landuse(v: Seq<char>)
    ensures
        green_landuse().contains(v) <==> cultivated(v),
{
    let list = green_landuse();
    assert(list[0] == "forest"@);
    assert(list[1] == "grass"@);
    assert(list[2] == "meadow"@);
    assert(list[3] == "village_green"@);
    assert(list[4] == "recreation_ground"@);
    assert(list[5] == "cemetery"@);
    if list.contains(v) {
        let i = choose|i: int| 0 <= i < list.len() && list[i] == v;
        assert(0 <= i < 6);
    }
}

proof fn lemma_green_leisure(v: Seq<char>)
    ensures
        green_leisure().contains(v) <==> recreational(v),
{
    let list = green_leisure();
    assert(list[0] == "park"@);
    assert(list[1] == "golf_course"@);
    assert(list[2] == "pitch"@);
    assert(list[3] == "stadium"@);
    assert(list[4] == "playground"@);
    if list.contains(v) {
        let i = choose|i: int| 0 <= i < list.len() && list[i] == v;
        assert(0 <= i < 5);
    }
}

proof fn lemma_used_landuse(v: Seq<char>)
    ensures
        used_landuse().contains(v) <==> built_up(v),
{
    let list = used_landuse();
    assert(list[0] == "residential"@);
    assert(list[1] == "military"@);
    assert(list[2] == "industrial"@);
    assert(list[3] == "commercial"@);
    assert(list[4] == "farmland"@);
    assert(list[5] == "quarry"@);
    assert(list[6] == "education"@);
    if list.contains(v) {
        let i = choose|i: int| 0 <= i < list.len() && list[i] == v;
        assert(0 <= i < 7);
    }
}

proof fn lemma_drawn_railway(v: Seq<char>)
    ensures
        drawn_railway().contains(v) <==> railed(v),
{
    let list = drawn_railway();
    assert(list[0] == "rail"@);
    assert(list[1] == "light_rail"@);
    assert(list[2] == "tram"@);
    assert(list[3] == "subway"@);
    if list.contains(v) {
        let i = choose|i: int| 0 <= i < list.len() && list[i] == v;
        assert(0 <= i < 4);
    }
}

/// Roads of a map file are drawn by their class: 20, 14 and 10 metres wide; no other way is a road.
pub proof fn roads_have_their_classes(v: Seq<char>)
    ensures
        highway_class(v) == Some((RoadClass::Major, 20u32)) <==> major_road(v),
        highway_class(v) == Some((RoadClass::Mid, 14u32)) <==> middle_road(v),
        highway_class(v) == Some((RoadClass::Minor, 10u32)) <==> minor_road(v),
        highway_class(v) is None <==> !major_road(v) && !middle_road(v) && !minor_road(v),
{
    reveal_strlit("motorway");
    assert("motorway"@.len() == 8 && "motorway"@[0] == 'm');
    reveal_strlit("trunk");
    assert("trunk"@.len() == 5);
    reveal_strlit("primary");
    assert("primary"@.len() == 7 && "primary"@[0] == 'p');
    reveal_strlit("motorway_link");
    assert("motorway_link"@.len() == 13 && "motorway_link"@[0] == 'm');
    reveal_strlit("trunk_link");
    assert("trunk_link"@.len() == 10);
    reveal_strlit("primary_link");
    assert("primary_link"@.len() == 12 && "primary_link"@[0] == 'p');
    reveal_strlit("secondary");
    assert("secondary"@.len() == 9);
    reveal_strlit("tertiary");
    assert("tertiary"@.len() == 8 && "tertiary"@[0] == 't');
    reveal_strlit("secondary_link");
    assert("secondary_link"@.len() == 14);
    reveal_strlit("tertiary_link");
    assert("tertiary_link"@.len() == 13 && "tertiary_link"@[0] == 't');
    reveal_strlit("residential");
    assert("residential"@.len() == 11);
    reveal_strlit("unclassified");
    assert("unclassified"@.len() == 12 && "unclassified"@[0] == 'u');
    reveal_strlit("living_street");
    assert("living_street"@.len() == 13 && "living_street"@[0] == 'l');
    reveal_strlit("service");
    assert("service"@.len() == 7 && "service"@[0] == 's');
    reveal_strlit("road");
    assert("road"@.len() == 4);
}

/// Roads of a tile are drawn by their class: 20, 14 and 10 metres wide; no other class is a road.
pub proof fn tile_roads_have_their_classes(v: Seq<char>)
    ensures
        road_class(v) == Some((RoadClass::Major, 20u32)) <==> major_road(v),
        road_class(v) == Some((RoadClass::Mid, 14u32)) <==> middle_road(v),
        road_class(v) == Some((RoadClass::Minor, 10u32)) <==> minor_tile_road(v),
        road_class(v) is None <==> !major_road(v) && !middle_road(v) && !minor_tile_road(v),
{
    reveal_strlit("motorway");
    assert("motorway"@.len() == 8 && "motorway"@[0] == 'm');
    reveal_strlit("trunk");
    assert("trunk"@.len() == 5 && "trunk"@[0] == 't');
    reveal_strlit("primary");
    assert("primary"@.len() == 7 && "primary"@[0] == 'p');
    reveal_strlit("motorway_link");
    assert("motorway_link"@.len() == 13 && "motorway_link"@[0] == 'm');
    reveal_strlit("trunk_link");
    assert("trunk_link"@.len() == 10);
    reveal_strlit("primary_link");
    assert("primary_link"@.len() == 12 && "primary_link"@[0] == 'p');
    reveal_strlit("secondary");
    assert("secondary"@.len() == 9);
    reveal_strlit("tertiary");
    assert("tertiary"@.len() == 8 && "tertiary"@[0] == 't');
    reveal_strlit("secondary_link");
    assert("secondary_link"@.len() == 14);
    reveal_strlit("tertiary_link");
    assert("tertiary_link"@.len() == 13 && "tertiary_link"@[0] == 't');
    reveal_strlit("minor");
    assert("minor"@.len() == 5 && "minor"@[0] == 'm');
    reveal_strlit("service");
    assert("service"@.len() == 7 && "service"@[0] == 's');
    reveal_strlit("residential");
    assert("residential"@.len() == 11);
    reveal_strlit("unclassified");
    assert("unclassified"@.len() == 12 && "unclassified"@[0] == 'u');
    reveal_strlit("living_street");
    assert("living_street"@.len() == 13 && "living_street"@[0] == 'l');
    reveal_strlit("road");
    assert("road"@.len() == 4);
}

/// Green and used classes of a tile.
pub proof fn tile_classes_are_listed(v: Seq<char>)
    ensures
        is_green(v) <==> green_class(v),
        is_landuse(v) <==> used_class(v),
        !(is_green(v) && is_landuse(v)),
{
    reveal_strlit("wood");
    assert("wood"@.len() == 4 && "wood"@[0] == 'w');
    reveal_strlit("forest");
    assert("forest"@.len() == 6 && "forest"@[0] == 'f');
    reveal_strlit("grass");
    assert("grass"@.len() == 5 && "grass"@[0] == 'g');
    reveal_strlit("park");
    assert("park"@.len() == 4 && "park"@[0] == 'p');
    reveal_strlit("golf_course");
    assert("golf_course"@.len() == 11 && "golf_course"@[0] == 'g');
    reveal_strlit("cemetery");
    assert("cemetery"@.len() == 8 && "cemetery"@[0] == 'c');
    reveal_strlit("scrub");
    assert("scrub"@.len() == 5 && "scrub"@[0] == 's');
    reveal_strlit("wetland");
    assert("wetland"@.len() == 7);
    reveal_strlit("farmland");
    assert("farmland"@.len() == 8 && "farmland"@[0] == 'f');
    reveal_strlit("residential");
    assert("residential"@.len() == 11 && "residential"@[0] == 'r');
    reveal_strlit("military");
    assert("military"@.len() == 8 && "military"@[0] == 'm');
    reveal_strlit("industrial");
    assert("industrial"@.len() == 10 && "industrial"@[0] == 'i');
    reveal_strlit("commercial");
    assert("commercial"@.len() == 10 && "commercial"@[0] == 'c');
    reveal_strlit("retail");
    assert("retail"@.len() == 6 && "retail"@[0] == 'r');
    reveal_strlit("quarry");
    assert("quarry"@.len() == 6 && "quarry"@[0] == 'q');
    reveal_strlit("education");
    assert("education"@.len() == 9);
}

/// Waterways are drawn by their kind: rivers, banks and docks 40, canals 24 and streams 10 metres wide;
/// banks and docks are areas where they are closed. Other waterways of a map file are not drawn.
pub proof fn waterways_have_their_widths(v: Seq<char>)
    ensures
        waterway_shape(v) == WayShape::Bank(40) <==> v == "riverbank"@ || v == "dock"@,
        waterway_shape(v) == WayShape::Path(LineKind::Waterway, 40) <==> v == "river"@,
        waterway_shape(v) == WayShape::Path(LineKind::Waterway, 24) <==> v == "canal"@,
        waterway_shape(v) == WayShape::Path(LineKind::Waterway, 10) <==> v == "stream"@,
        waterway_shape(v) == WayShape::Hidden <==> v != "riverbank"@ && v != "dock"@ && v
            != "river"@ && v != "canal"@ && v != "stream"@,
        waterway_metres(v) == Some(40u32) <==> v == "river"@ || v == "riverbank"@ || v == "dock"@,
        waterway_metres(v) == Some(24u32) <==> v == "canal"@,
        waterway_metres(v) == Some(10u32) <==> v == "stream"@,
        waterway_metres(v) is None <==> v != "riverbank"@ && v != "dock"@ && v != "river"@ && v
            != "canal"@ && v != "stream"@,
{
    reveal_strlit("riverbank");
    assert("riverbank"@.len() == 9);
    reveal_strlit("dock");
    assert("dock"@.len() == 4);
    reveal_strlit("river");
    assert("river"@.len() == 5 && "river"@[0] == 'r');
    reveal_strlit("canal");
    assert("canal"@.len() == 5 && "canal"@[0] == 'c');
    reveal_strlit("stream");
    assert("stream"@.len() == 6);
}

/// Runways are 55 and taxiways 22 metres wide, aprons are areas, and nothing else of an airfield is
/// drawn.
pub proof fn airfields_have_their_parts(v: Seq<char>)
    ensures
        aeroway_shape(v) == WayShape::Path(LineKind::Runway, 55) <==> v == "runway"@,
        aeroway_shape(v) == WayShape::Path(LineKind::Taxiway, 22) <==> v == "taxiway"@,
        aeroway_shape(v) == WayShape::Area(PolyKind::Apron) <==> v == "apron"@,
        aeroway_shape(v) == WayShape::Hidden <==> v != "runway"@ && v != "taxiway"@ && v
            != "apron"@,
{
    reveal_strlit("runway");
    assert("runway"@.len() == 6);
    reveal_strlit("taxiway");
    assert("taxiway"@.len() == 7);
    reveal_strlit("apron");
    assert("apron"@.len() == 5);
}

/// Which tags make an area green and which make it used land.
pub proof fn areas_are_told_by_their_tags(tags: Map<Seq<char>, Seq<char>>)
    ensures
        tagged_green(tags) <==> (value_of(tags, "natural"@) is Some && wild(
            value_of(tags, "natural"@)->Some_0,
        )) || (value_of(tags, "landuse"@) is Some && cultivated(
            value_of(tags, "landuse"@)->Some_0,
        )) || (value_of(tags, "leisure"@) is Some && recreational(
            value_of(tags, "leisure"@)->Some_0,
        )),
        tagged_used(tags) <==> value_of(tags, "landuse"@) is Some && built_up(
            value_of(tags, "landuse"@)->Some_0,
        ),
        tag_in(tags, "railway"@, drawn_railway()) <==> value_of(tags, "railway"@) is Some && railed(
            value_of(tags, "railway"@)->Some_0,
        ),
{
    lemma_green_natural(tags["natural"@]);
    lemma_green_landuse(tags["landuse"@]);
    lemma_green_leisure(tags["leisure"@]);
    lemma_used_landuse(tags["landuse"@]);
    lemma_drawn_railway(tags["railway"@]);
}

/// A way is drawn by the first of these that it is: a building, water, a waterway, green, used land, a
/// part of an airfield, a railway, a road. Otherwise it is not drawn.
pub proof fn ways_are_drawn_by_precedence(tags: Map<Seq<char>, Seq<char>>)
    ensures
        ({
            let s = way_shape(tags);
            let building = tags.contains_key("building"@);
            let water = value_of(tags, "natural"@) == Some("water"@);
            let waterway = tags.contains_key("waterway"@);
            let green = tagged_green(tags);
            let used = tagged_used(tags);
            let aeroway = tags.contains_key("aeroway"@);
            let rail = value_of(tags, "railway"@) is Some && railed(
                value_of(tags, "railway"@)->Some_0,
            );
            let highway = tags.contains_key("highway"@);
            &&& building ==> s == WayShape::Area(PolyKind::Building)
            &&& water && !building ==> s == WayShape::Area(PolyKind::Water)
            &&& waterway && !building && !water ==> s == waterway_shape(tags["waterway"@])
            &&& green && !building && !water && !waterway ==> s == WayShape::Area(PolyKind::Green)
            &&& used && !building && !water && !waterway && !green ==> s == WayShape::Area(
                PolyKind::Landuse,
            )
            &&& aeroway && !building && !water && !waterway && !green && !used ==> s
                == aeroway_shape(tags["aeroway"@])
            &&& rail && !building && !water && !waterway && !green && !used && !aeroway ==> s
                == WayShape::Path(LineKind::Rail, 5)
            &&& highway && !building && !water && !waterway && !green && !used && !aeroway && !rail
                ==> s == match highway_class(tags["highway"@]) {
                Some((class, width)) => WayShape::Path(LineKind::Road(class), width),
                None => WayShape::Hidden,
            }
            &&& !highway && !building && !water && !waterway && !green && !used && !aeroway && !rail
                ==> s == WayShape::Hidden
        }),
{
    areas_are_told_by_their_tags(tags);
}

/// A relation bounds an area only where it is a multipolygon: water, else green, else used land.
pub proof fn relations_are_drawn_by_precedence(tags: Map<Seq<char>, Seq<char>>)
    ensures
        ({
            let k = relation_kind(tags);
            let multi = value_of(tags, "type"@) == Some("multipolygon"@);
            let water = value_of(tags, "natural"@) == Some("water"@);
            let green = tagged_green(tags);
            let used = tagged_used(tags);
            &&& multi && water ==> k == Some(PolyKind::Water)
            &&& multi && !water && green ==> k == Some(PolyKind::Green)
            &&& multi && !water && !green && used ==> k == Some(PolyKind::Landuse)
            &&& !multi || (!water && !green && !used) ==> k is None
        }),
{
}

/// The class of a feature, where it has one.
pub open spec fn has_class(f: FeatureView, v: Seq<char>) -> bool {
    prop_of(f.tags, "class"@) == Some(v)
}

/// The class of a feature is what its tag says, and the empty text where there is no such tag.
pub proof fn the_class_is_a_tag(f: FeatureView)
    ensures
        prop_of(f.tags, "class"@) is Some ==> has_class(f, class_of(f.tags)),
        prop_of(f.tags, "class"@) is None ==> class_of(f.tags).len() == 0,
{
}

/// Features are drawn by their layer: water, parks, buildings, green and used land where they are
/// areas, and waterways, runways, taxiways and roads where they are lines. Nothing else is drawn.
pub proof fn features_are_drawn_by_their_layer(layer: Seq<char>, f: FeatureView)
    ensures
        ({
            let s = shape(layer, f);
            let class = class_of(f.tags);
            let aeroway = prop_of(f.tags, "aeroway"@);
            let runway = aeroway == Some("runway"@) || class == "runway"@;
            let taxiway = aeroway == Some("taxiway"@) || class == "taxiway"@;
            let area = f.geom_type == 3;
            let line = f.geom_type == 2;
            &&& !area && !line ==> s == Shape::Skip
            &&& area && layer == "water"@ ==> s == Shape::Area(PolyKind::Water)
            &&& area && layer == "park"@ ==> s == Shape::Area(PolyKind::Green)
            &&& area && layer == "building"@ ==> s == Shape::Area(PolyKind::Building)
            &&& area && layer == "landcover"@ ==> s == if green_class(class) {
                Shape::Area(PolyKind::Green)
            } else {
                Shape::Skip
            }
            &&& area && layer == "landuse"@ ==> s == if green_class(class) {
                Shape::Area(PolyKind::Green)
            } else if used_class(class) {
                Shape::Area(PolyKind::Landuse)
            } else {
                Shape::Skip
            }
            &&& area && layer != "water"@ && layer != "park"@ && layer != "building"@ && layer
                != "landcover"@ && layer != "landuse"@ ==> s == Shape::Skip
            &&& line && layer == "waterway"@ ==> s == Shape::Path(
                LineKind::Waterway,
                match waterway_metres(class) {
                    Some(w) => w,
                    None => 20,
                },
            )
            &&& line && layer == "transportation"@ && runway ==> s == Shape::Path(
                LineKind::Runway,
                55,
            )
            &&& line && layer == "transportation"@ && !runway && taxiway ==> s == Shape::Path(
                LineKind::Taxiway,
                22,
            )
            &&& line && layer == "transportation"@ && !runway && !taxiway ==> s == match road_class(
                class,
            ) {
                Some((rc, w)) => Shape::Path(LineKind::Road(rc), w),
                None => Shape::Skip,
            }
            &&& line && layer != "waterway"@ && layer != "transportation"@ ==> s == Shape::Skip
        }),
{
    reveal_strlit("water");
    assert("water"@.len() == 5);
    reveal_strlit("waterway");
    assert("waterway"@.len() == 8 && "waterway"@[0] == 'w');
    reveal_strlit("landcover");
    assert("landcover"@.len() == 9);
    reveal_strlit("park");
    assert("park"@.len() == 4);
    reveal_strlit("landuse");
    assert("landuse"@.len() == 7);
    reveal_strlit("building");
    assert("building"@.len() == 8 && "building"@[0] == 'b');
    reveal_strlit("transportation");
    assert("transportation"@.len() == 14);
    tile_classes_are_listed(class_of(f.tags));
}

} // verus!
