//! Deciding what becomes of each element of the map.

use crate::bitmap::CoordinateBitmap;
use crate::blocks::Block;
use crate::blocks::BlockWithProperties;
use crate::features;
use crate::features::FeatureView;
use crate::features::PlacedFeature;
use crate::highways;
use crate::highways::features as highway_features;
use crate::osm;
use crate::osm::NodeView;
use crate::osm::ProcessedElement;
use crate::osm::ProcessedMember;
use crate::osm::ProcessedMemberRole;
use crate::osm::ProcessedNode;
use crate::osm::ProcessedRelation;
use crate::osm::ProcessedWay;
use crate::osm::WayView;
use crate::palettes::SurfaceTable;
use crate::tags;
use crate::tags::Tags;
use crate::world_editor;
use crate::world_editor::Edit;
use crate::world_editor::Terrain;
use crate::world_editor::WorldEditor;
use std::collections::HashSet;
use vstd::prelude::*;

verus! {

/// A subject of the map whose ways are turned into features elsewhere.
#[derive(Clone, Copy, Debug, PartialEq, Eq, Structural)]
pub enum Theme {
    Amenity,
    Leisure,
    Barrier,
}

impl Theme {
    /// The key of the tag that ways of the subject carry.
    pub open spec fn key(self) -> Seq<char> {
        match self {
            Theme::Amenity => "amenity"@,
            Theme::Leisure => "leisure"@,
            Theme::Barrier => "barrier"@,
        }
    }
}

/// What becomes of an element.
#[derive(Debug)]
pub enum Placement {
    /// Nothing is left to be done.
    Nothing,
    /// The feature is queued on its layer.
    Queue { layer: i32, feature: PlacedFeature },
    /// The way is made into a building, which is queued on its layer.
    QueueBuilding { layer: i32, way: ProcessedWay },
    /// The way is made into a feature of the theme, as the value of the theme's
    /// tag says, and that feature is queued on its layer.
    QueueWay { layer: i32, theme: Theme, way: ProcessedWay, value: String },
    /// The node is made into the amenity that its tag says, which is queued on
    /// its layer.
    QueueAmenity { layer: i32, node: ProcessedNode, value: String },
    /// The ways are placed at once, in order, as land of the given use; nothing
    /// is queued.
    PlaceLanduse { ways: Vec<ProcessedWay>, landuse: String },
    /// The way is placed at once, as the natural feature that its tag says;
    /// nothing is queued.
    PlaceNatural { way: ProcessedWay, natural: String },
}

/// What a placement is, apart from how its parts are stored.
pub enum PlacementView {
    Nothing,
    Queue { layer: i32, feature: FeatureView },
    QueueBuilding { layer: i32, way: WayView },
    QueueWay { layer: i32, theme: Theme, way: WayView, value: Seq<char> },
    QueueAmenity { layer: i32, node: NodeView, value: Seq<char> },
    PlaceLanduse { ways: Seq<WayView>, landuse: Seq<char> },
    PlaceNatural { way: WayView, natural: Seq<char> },
}

/// The views of a list of ways.
pub open spec fn way_views(ways: Seq<ProcessedWay>) -> Seq<WayView> {
    ways.map_values(|w: ProcessedWay| w@)
}

impl View for Placement {
    type V = PlacementView;

    open spec fn view(&self) -> PlacementView {
        match *self {
            Placement::Nothing => PlacementView::Nothing,
            Placement::Queue { layer, feature } => PlacementView::Queue {
                layer,
                feature: feature@,
            },
            Placement::QueueBuilding { layer, way } => PlacementView::QueueBuilding {
                layer,
                way: way@,
            },
            Placement::QueueWay { layer, theme, way, value } => PlacementView::QueueWay {
                layer,
                theme,
                way: way@,
                value: value@,
            },
            Placement::QueueAmenity { layer, node, value } => PlacementView::QueueAmenity {
                layer,
                node: node@,
                value: value@,
            },
            Placement::PlaceLanduse { ways, landuse } => PlacementView::PlaceLanduse {
                ways: way_views(ways@),
                landuse: landuse@,
            },
            Placement::PlaceNatural { way, natural } => PlacementView::PlaceNatural {
                way: way@,
                natural: natural@,
            },
        }
    }
}

impl PlacementView {
    /// The layer on which something is queued, if anything is.
    pub open spec fn queue_layer(self) -> Option<i32> {
        match self {
            PlacementView::Nothing => None,
            PlacementView::Queue { layer, .. } => Some(layer),
            PlacementView::QueueBuilding { layer, .. } => Some(layer),
            PlacementView::QueueWay { layer, .. } => Some(layer),
            PlacementView::QueueAmenity { layer, .. } => Some(layer),
            PlacementView::PlaceLanduse { .. } => None,
            PlacementView::PlaceNatural { .. } => None,
        }
    }
}

impl Placement {
    /// The layer on which something is queued, if anything is.
    pub fn layer(&self) -> (r: Option<i32>)
        ensures
            r == self@.queue_layer(),
    {
        match self {
            Placement::Nothing => None,
            Placement::Queue { layer, .. } => Some(*layer),
            Placement::QueueBuilding { layer, .. } => Some(*layer),
            Placement::QueueWay { layer, .. } => Some(*layer),
            Placement::QueueAmenity { layer, .. } => Some(*layer),
            Placement::PlaceLanduse { .. } => None,
            Placement::PlaceNatural { .. } => None,
        }
    }
}

/// Whether a way is a building or a part of one.
pub open spec fn is_building(tags: Map<Seq<char>, Seq<char>>) -> bool {
    tags.contains_key("building"@) || tags.contains_key("building:part"@)
}

/// What becomes of a way. Of several subjects the first decides. Land and
/// natural features are the base of the map: they have no layer and are placed
/// at once.
pub open spec fn way_placement(
    way: WayView,
    suppressed: Set<u64>,
    surfaces: Map<Seq<char>, Seq<Block>>,
) -> PlacementView {
    let layer = tags::number_or_zero(way.tags, "layer"@);
    if is_building(way.tags) {
        if suppressed.contains(way.id) {
            PlacementView::Nothing
        } else {
            PlacementView::QueueBuilding { layer, way }
        }
    } else if way.tags.contains_key("highway"@) {
        PlacementView::Queue {
            layer,
            feature: highway_features::highway_feature(way, way.tags["highway"@], surfaces),
        }
    } else if way.tags.contains_key("landuse"@) {
        PlacementView::PlaceLanduse { ways: seq![way], landuse: way.tags["landuse"@] }
    } else if way.tags.contains_key("natural"@) {
        PlacementView::PlaceNatural { way, natural: way.tags["natural"@] }
    } else if way.tags.contains_key("amenity"@) {
        themed(way, layer, Theme::Amenity)
    } else if way.tags.contains_key("leisure"@) {
        themed(way, layer, Theme::Leisure)
    } else if way.tags.contains_key("barrier"@) {
        themed(way, layer, Theme::Barrier)
    } else {
        PlacementView::Nothing
    }
}

/// A way that is queued as a feature of a theme.
pub open spec fn themed(way: WayView, layer: i32, theme: Theme) -> PlacementView {
    PlacementView::QueueWay { layer, theme, way, value: way.tags[theme.key()] }
}

/// Blocks over a node.
pub open spec fn node_blocks(
    node: NodeView,
    layer: i32,
    blocks: Seq<features::PlacedBlockView>,
) -> PlacementView {
    PlacementView::Queue {
        layer,
        feature: FeatureView::SimpleFeature { x: node.x, z: node.z, blocks },
    }
}

/// Whether a node is a door or an entrance.
pub open spec fn is_door(tags: Map<Seq<char>, Seq<char>>) -> bool {
    tags.contains_key("door"@) || tags.contains_key("entrance"@)
}

/// What becomes of a node. Of several subjects the first decides; what stands
/// at a highway node is built at once.
pub open spec fn node_placement(node: NodeView) -> PlacementView {
    let layer = tags::number_or_zero(node.tags, "layer"@);
    if is_door(node.tags) {
        node_blocks(
            node,
            layer,
            seq![
                features::simple_block(0, Block::GrayConcrete),
                features::simple_block(1, Block::DarkOakDoorLower),
                features::simple_block(2, Block::DarkOakDoorUpper),
            ],
        )
    } else if tags::tag_is(node.tags, "natural"@, "tree"@) {
        PlacementView::Queue {
            layer,
            feature: FeatureView::Tree { x: node.x, z: node.z, tags: node.tags },
        }
    } else if node.tags.contains_key("amenity"@) {
        PlacementView::QueueAmenity { layer, node, value: node.tags["amenity"@] }
    } else if tags::tag_is(node.tags, "barrier"@, "bollard"@) {
        node_blocks(node, layer, seq![features::simple_block(1, Block::CobblestoneWall)])
    } else if tags::tag_is(node.tags, "barrier"@, "block"@) {
        node_blocks(node, layer, seq![features::simple_block(1, Block::Stone)])
    } else {
        PlacementView::Nothing
    }
}

/// Whether a node is built at once as a highway node.
pub open spec fn is_highway_node(tags: Map<Seq<char>, Seq<char>>) -> bool {
    &&& !is_door(tags)
    &&& !tags::tag_is(tags, "natural"@, "tree"@)
    &&& !tags.contains_key("amenity"@)
    &&& !tags::tag_is(tags, "barrier"@, "bollard"@)
    &&& !tags::tag_is(tags, "barrier"@, "block"@)
    &&& tags.contains_key("highway"@)
}

/// The outer ways of a relation, as ways with the relation's tags.
pub open spec fn outer_ways(
    members: Seq<ProcessedMember>,
    tags: Map<Seq<char>, Seq<char>>,
) -> Seq<WayView>
    decreases members.len(),
{
    if members.len() == 0 {
        seq![]
    } else {
        let rest = outer_ways(members.drop_last(), tags);
        let last = members.last();
        if last.role == ProcessedMemberRole::Outer {
            rest.push(WayView { id: last.way.id, nodes: osm::node_views(last.way.nodes@), tags })
        } else {
            rest
        }
    }
}

/// What becomes of a multipolygon: its outer ways are placed as land.
pub open spec fn multipolygon_placement(rel: ProcessedRelation) -> PlacementView {
    if rel.tags@.contains_key("landuse"@) {
        PlacementView::PlaceLanduse {
            ways: outer_ways(rel.members@, rel.tags@),
            landuse: rel.tags@["landuse"@],
        }
    } else {
        PlacementView::Nothing
    }
}

/// What becomes of an element.
pub open spec fn placement_of(
    element: ProcessedElement,
    suppressed: Set<u64>,
    surfaces: Map<Seq<char>, Seq<Block>>,
) -> PlacementView {
    match element {
        ProcessedElement::Way(way) => way_placement(way@, suppressed, surfaces),
        ProcessedElement::Node(node) => node_placement(node@),
        ProcessedElement::Relation(rel) => if tags::tag_is(rel.tags@, "type"@, "multipolygon"@) {
            multipolygon_placement(rel)
        } else {
            PlacementView::Nothing
        },
    }
}

/// What is built at once for an element.
pub open spec fn immediate_edits(
    element: ProcessedElement,
    terrain: Terrain,
    roads: Set<(int, int)>,
    nearest_off_road: Option<(i32, i32)>,
) -> Seq<Edit> {
    match element {
        ProcessedElement::Node(node) => if is_highway_node(node.tags@) {
            highway_features::node_edits(
                terrain,
                node,
                node.tags@["highway"@],
                roads.contains((node.x as int, node.z as int)),
                nearest_off_road,
            )
        } else {
            seq![]
        },
        _ => seq![],
    }
}

/// Whether what is built at once for an element is on the map.
pub open spec fn element_on_map(element: ProcessedElement, terrain: Terrain) -> bool {
    match element {
        ProcessedElement::Node(node) => is_highway_node(node.tags@)
            ==> highway_features::node_on_map(terrain, node, node.tags@["highway"@]),
        _ => true,
    }
}

/// The value of a tag, where it is there.
fn value_of(tags: &Tags, key: &str) -> (r: Option<String>)
    ensures
        match r {
            Some(value) => tags::tag_is(tags@, key@, value@),
            None => !tags@.contains_key(key@),
        },
{
    match tags.get(key) {
        Some(value) => Some(value.clone()),
        None => None,
    }
}

fn place_way(way: ProcessedWay, suppressed: &HashSet<u64>, surfaces: &SurfaceTable) -> (r:
    Placement)
    ensures
        r@ == way_placement(way@, suppressed@, surfaces@),
{
    let layer: i32 = way.tags.number_or_zero("layer");
    if way.tags.contains_key("building") || way.tags.contains_key("building:part") {
        if suppressed.contains(&way.id) {
            return Placement::Nothing;
        }
        return Placement::QueueBuilding { layer, way };
    }
    if let Some(highway) = value_of(&way.tags, "highway") {
        let feature = highways::placed_feature(way, highway.as_str(), surfaces);
        return Placement::Queue { layer, feature };
    }
    if let Some(landuse) = value_of(&way.tags, "landuse") {
        let ghost view = way@;
        let mut ways: Vec<ProcessedWay> = Vec::new();
        ways.push(way);
        assert(way_views(ways@) =~= seq![view]);
        return Placement::PlaceLanduse { ways, landuse };
    }
    if let Some(natural) = value_of(&way.tags, "natural") {
        return Placement::PlaceNatural { way, natural };
    }
    if let Some(value) = value_of(&way.tags, "amenity") {
        return Placement::QueueWay { layer, theme: Theme::Amenity, way, value };
    }
    if let Some(value) = value_of(&way.tags, "leisure") {
        return Placement::QueueWay { layer, theme: Theme::Leisure, way, value };
    }
    if let Some(value) = value_of(&way.tags, "barrier") {
        return Placement::QueueWay { layer, theme: Theme::Barrier, way, value };
    }
    Placement::Nothing
}

fn place_node(
    node: ProcessedNode,
    editor: &mut WorldEditor,
    road_mask: &CoordinateBitmap,
    nearest_off_road: Option<(i32, i32)>,
) -> (r: Placement)
    requires
        element_on_map(ProcessedElement::Node(node), old(editor).terrain()),
    ensures
        r@ == node_placement(node@),
        final(editor).extends(
            *old(editor),
            immediate_edits(
                ProcessedElement::Node(node),
                old(editor).terrain(),
                road_mask@,
                nearest_off_road,
            ),
        ),
{
    proof {
        world_editor::extends_by_nothing(*editor);
    }
    let layer: i32 = node.tags.number_or_zero("layer");
    if node.tags.contains_key("door") || node.tags.contains_key("entrance") {
        let mut blocks: Vec<(i32, i32, i32, BlockWithProperties)> = Vec::new();
        blocks.push((0, 0, 0, BlockWithProperties::simple(Block::GrayConcrete)));
        blocks.push((0, 1, 0, BlockWithProperties::simple(Block::DarkOakDoorLower)));
        blocks.push((0, 2, 0, BlockWithProperties::simple(Block::DarkOakDoorUpper)));
        assert(features::block_views(blocks@) =~= seq![
            features::simple_block(0, Block::GrayConcrete),
            features::simple_block(1, Block::DarkOakDoorLower),
            features::simple_block(2, Block::DarkOakDoorUpper),
        ]);
        let feature = PlacedFeature::SimpleFeature { x: node.x, z: node.z, blocks };
        return Placement::Queue { layer, feature };
    }
    if node.tags.holds("natural", "tree") {
        let feature = PlacedFeature::Tree { x: node.x, z: node.z, tags: node.tags };
        return Placement::Queue { layer, feature };
    }
    if let Some(value) = value_of(&node.tags, "amenity") {
        return Placement::QueueAmenity { layer, node, value };
    }
    let bollard: bool = node.tags.holds("barrier", "bollard");
    if bollard || node.tags.holds("barrier", "block") {
        let block = if bollard {
            Block::CobblestoneWall
        } else {
            Block::Stone
        };
        let mut blocks: Vec<(i32, i32, i32, BlockWithProperties)> = Vec::new();
        blocks.push((0, 1, 0, BlockWithProperties::simple(block)));
        assert(features::block_views(blocks@) =~= seq![features::simple_block(1, block)]);
        let feature = PlacedFeature::SimpleFeature { x: node.x, z: node.z, blocks };
        return Placement::Queue { layer, feature };
    }
    if let Some(highway) = value_of(&node.tags, "highway") {
        let built = highways::placed_feature_node(
            editor,
            &node,
            highway.as_str(),
            road_mask,
            nearest_off_road,
        );
        if let Some(feature) = built {
            return Placement::Queue { layer, feature };
        }
    }
    Placement::Nothing
}

/// Finds what becomes of a multipolygon: its outer ways take over its tags and
/// are placed as land.
pub fn create_or_place_multipolygon(
    rel: ProcessedRelation,
    _suppressed_building_outlines: &HashSet<u64>,
) -> (r: Placement)
    ensures
        r@ == multipolygon_placement(rel),
{
    match value_of(&rel.tags, "landuse") {
        Some(landuse) => {
            let mut ways: Vec<ProcessedWay> = Vec::new();
            let n: usize = rel.members.len();
            let mut i: usize = 0;
            assert(way_views(ways@) =~= outer_ways(rel.members@.take(0), rel.tags@));
            while i < n
                invariant
                    n == rel.members@.len(),
                    i <= n,
                    way_views(ways@) == outer_ways(rel.members@.take(i as int), rel.tags@),
                decreases n - i,
            {
                let ghost more = rel.members@.take(i + 1);
                proof {
                    assert(more.drop_last() =~= rel.members@.take(i as int));
                    assert(more.last() == rel.members@[i as int]);
                }
                if rel.members[i].role == ProcessedMemberRole::Outer {
                    let way = ProcessedWay {
                        id: rel.members[i].way.id,
                        nodes: osm::clone_nodes(&rel.members[i].way.nodes),
                        tags: rel.tags.clone(),
                    };
                    let ghost before = ways@;
                    ways.push(way);
                    assert(way_views(ways@) =~= way_views(before).push(way@));
                }
                assert(way_views(ways@) =~= outer_ways(more, rel.tags@));
                i = i + 1;
            }
            assert(rel.members@.take(n as int) =~= rel.members@);
            Placement::PlaceLanduse { ways, landuse }
        },
        None => Placement::Nothing,
    }
}

impl PlacedFeature {
    /// Finds what becomes of an element: a feature to be queued on its layer,
    /// or, for what is not layered, something to be placed at once. What stands
    /// at highway nodes is built right here.
    ///
    /// `suppressed_building_outlines` are the outlines of buildings that are
    /// built from their parts instead. `nearest_off_road` is the nearest column
    /// within four blocks of a node that is not part of a road, where there is
    /// one.
    pub fn create_or_place(
        element: ProcessedElement,
        suppressed_building_outlines: &HashSet<u64>,
        surfaces: &SurfaceTable,
        editor: &mut WorldEditor,
        road_mask: &CoordinateBitmap,
        nearest_off_road: Option<(i32, i32)>,
    ) -> (r: Placement)
        requires
            element_on_map(element, old(editor).terrain()),
        ensures
            r@ == placement_of(element, suppressed_building_outlines@, surfaces@),
            final(editor).extends(
                *old(editor),
                immediate_edits(element, old(editor).terrain(), road_mask@, nearest_off_road),
            ),
    {
        proof {
            world_editor::extends_by_nothing(*editor);
        }
        match element {
            ProcessedElement::Way(way) => place_way(way, suppressed_building_outlines, surfaces),
            ProcessedElement::Node(node) => place_node(node, editor, road_mask, nearest_off_road),
            ProcessedElement::Relation(rel) => {
                if rel.tags.holds("type", "multipolygon") {
                    create_or_place_multipolygon(rel, suppressed_building_outlines)
                } else {
                    Placement::Nothing
                }
            },
        }
    }
}

/// Whatever is queued is queued on the layer that the element's `layer` tag
/// says, or on the ground where the tag is missing or not a number.
pub proof fn queued_on_the_tagged_layer(
    element: ProcessedElement,
    suppressed: Set<u64>,
    surfaces: Map<Seq<char>, Seq<Block>>,
)
    ensures
        placement_of(element, suppressed, surfaces).queue_layer() matches Some(layer) ==> layer
            == tags::number_or_zero(element.tag_map(), "layer"@),
{
}

/// A building whose outline is suppressed is not placed, whatever else its tags
/// say.
pub proof fn suppressed_outlines_are_skipped(
    way: ProcessedWay,
    suppressed: Set<u64>,
    surfaces: Map<Seq<char>, Seq<Block>>,
)
    requires
        is_building(way.tags@),
        suppressed.contains(way.id),
    ensures
        placement_of(ProcessedElement::Way(way), suppressed, surfaces) is Nothing,
{
}

/// Only the outlines of buildings are ever suppressed.
pub proof fn only_buildings_are_suppressed(
    element: ProcessedElement,
    suppressed: Set<u64>,
    surfaces: Map<Seq<char>, Seq<Block>>,
)
    requires
        !is_building(element.tag_map()) || !(element is Way),
    ensures
        placement_of(element, suppressed, surfaces) == placement_of(
            element,
            Set::<u64>::empty(),
            surfaces,
        ),
{
}

/// The base of the map is never queued: land and natural features, unless they
/// are buildings or highways as well.
pub proof fn base_is_never_queued(
    way: ProcessedWay,
    suppressed: Set<u64>,
    surfaces: Map<Seq<char>, Seq<Block>>,
)
    requires
        way.tags@.contains_key("landuse"@) || way.tags@.contains_key("natural"@),
        !is_building(way.tags@),
        !way.tags@.contains_key("highway"@),
    ensures
        placement_of(
            ProcessedElement::Way(way),
            suppressed,
            surfaces,
        ).queue_layer() is None,
        !(placement_of(ProcessedElement::Way(way), suppressed, surfaces) is Nothing),
{
}

/// What is queued for later is not built at once as well.
pub proof fn queued_elements_are_not_built_at_once(
    element: ProcessedElement,
    suppressed: Set<u64>,
    surfaces: Map<Seq<char>, Seq<Block>>,
    terrain: Terrain,
    roads: Set<(int, int)>,
    nearest_off_road: Option<(i32, i32)>,
)
    ensures
        placement_of(element, suppressed, surfaces).queue_layer() is Some ==> immediate_edits(
            element,
            terrain,
            roads,
            nearest_off_road,
        ) == Seq::<Edit>::empty(),
{
}

/// Relations are never queued.
pub proof fn relations_are_never_queued(
    rel: ProcessedRelation,
    suppressed: Set<u64>,
    surfaces: Map<Seq<char>, Seq<Block>>,
)
    ensures
        placement_of(
            ProcessedElement::Relation(rel),
            suppressed,
            surfaces,
        ).queue_layer() is None,
{
}

/// The land that a multipolygon is placed as has an outer way of the relation
/// for each of its ways, with the tags of the relation.
pub proof fn outer_ways_carry_the_relation_tags(
    members: Seq<ProcessedMember>,
    tags: Map<Seq<char>, Seq<char>>,
    i: int,
)
    requires
        0 <= i < outer_ways(members, tags).len(),
    ensures
        outer_ways(members, tags)[i].tags == tags,
        exists|j: int|
            0 <= j < members.len() && #[trigger] members[j].role == ProcessedMemberRole::Outer
                && members[j].way.id == outer_ways(members, tags)[i].id,
    decreases members.len(),
{
    if members.len() > 0 {
        let rest = members.drop_last();
        if i < outer_ways(rest, tags).len() {
            outer_ways_carry_the_relation_tags(rest, tags, i);
            let j = choose|j: int|
                0 <= j < rest.len() && #[trigger] rest[j].role == ProcessedMemberRole::Outer
                    && rest[j].way.id == outer_ways(rest, tags)[i].id;
            assert(members[j] == rest[j]);
            assert(members[j].role == ProcessedMemberRole::Outer);
        } else {
            assert(members[members.len() - 1].role == ProcessedMemberRole::Outer);
        }
    }
}

/// What becomes of a way: a building comes before a highway, and that before land,
/// natural features, amenities, leisure and barriers. Land and natural features
/// are placed at once, everything else is queued on the layer of the way; a
/// suppressed building and a way without any of these tags are left out.
pub proof fn ways_are_placed_by_their_first_subject(
    way: ProcessedWay,
    suppressed: Set<u64>,
    surfaces: Map<Seq<char>, Seq<Block>>,
)
    ensures
        ({
            let placed = placement_of(ProcessedElement::Way(way), suppressed, surfaces);
            let tags = way.tags@;
            let tagged = if tags.contains_key("layer"@) {
                crate::text::parsed_i32(tags["layer"@])
            } else {
                None
            };
            let layer = match tagged {
                Some(number) => number,
                None => 0,
            };
            let building = tags.contains_key("building"@) || tags.contains_key("building:part"@);
            let highway = tags.contains_key("highway"@);
            let land = tags.contains_key("landuse"@);
            let natural = tags.contains_key("natural"@);
            let amenity = tags.contains_key("amenity"@);
            let leisure = tags.contains_key("leisure"@);
            let barrier = tags.contains_key("barrier"@);
            let queued = |theme: Theme, value: Seq<char>|
                PlacementView::QueueWay { layer, theme, way: way@, value };
            if building {
                placed == if suppressed.contains(way.id) {
                    PlacementView::Nothing
                } else {
                    PlacementView::QueueBuilding { layer, way: way@ }
                }
            } else if highway {
                placed == PlacementView::Queue {
                    layer,
                    feature: highway_features::highway_feature(way@, tags["highway"@], surfaces),
                }
            } else if land {
                placed matches PlacementView::PlaceLanduse { ways, landuse } && ways.len() == 1
                    && ways[0] == way@ && landuse == tags["landuse"@]
            } else if natural {
                placed == PlacementView::PlaceNatural { way: way@, natural: tags["natural"@] }
            } else if amenity {
                placed == queued(Theme::Amenity, tags["amenity"@])
            } else if leisure {
                placed == queued(Theme::Leisure, tags["leisure"@])
            } else if barrier {
                placed == queued(Theme::Barrier, tags["barrier"@])
            } else {
                placed == PlacementView::Nothing
            }
        }),
{
}

/// What becomes of a node: a door or an entrance comes before a tree, and that
/// before an amenity, a bollard and a block; these are queued on the layer of the
/// node. Any other node queues nothing.
pub proof fn nodes_are_placed_by_their_first_subject(
    node: ProcessedNode,
    suppressed: Set<u64>,
    surfaces: Map<Seq<char>, Seq<Block>>,
)
    ensures
        ({
            let placed = placement_of(ProcessedElement::Node(node), suppressed, surfaces);
            let tags = node.tags@;
            let tagged = if tags.contains_key("layer"@) {
                crate::text::parsed_i32(tags["layer"@])
            } else {
                None
            };
            let layer = match tagged {
                Some(number) => number,
                None => 0,
            };
            let door = tags.contains_key("door"@) || tags.contains_key("entrance"@);
            let tree = tags.contains_key("natural"@) && tags["natural"@] == "tree"@;
            let barrier = tags.contains_key("barrier"@);
            let plain = |dy: i32, block: Block|
                features::PlacedBlockView { dx: 0, dy, dz: 0, block, properties: None };
            if door {
                placed matches PlacementView::Queue {
                    layer: l,
                    feature: FeatureView::SimpleFeature { x, z, blocks },
                } && {
                    &&& l == layer && x == node.x && z == node.z && blocks.len() == 3
                    &&& blocks[0] == plain(0, Block::GrayConcrete)
                    &&& blocks[1] == plain(1, Block::DarkOakDoorLower)
                    &&& blocks[2] == plain(2, Block::DarkOakDoorUpper)
                }
            } else if tree {
                placed == PlacementView::Queue {
                    layer,
                    feature: FeatureView::Tree { x: node.x, z: node.z, tags },
                }
            } else if tags.contains_key("amenity"@) {
                placed == PlacementView::QueueAmenity {
                    layer,
                    node: node@,
                    value: tags["amenity"@],
                }
            } else if barrier && (tags["barrier"@] == "bollard"@ || tags["barrier"@] == "block"@) {
                placed matches PlacementView::Queue {
                    layer: l,
                    feature: FeatureView::SimpleFeature { x, z, blocks },
                } && {
                    &&& l == layer && x == node.x && z == node.z && blocks.len() == 1
                    &&& blocks[0] == plain(
                        1,
                        if tags["barrier"@] == "bollard"@ {
                            Block::CobblestoneWall
                        } else {
                            Block::Stone
                        },
                    )
                }
            } else {
                placed == PlacementView::Nothing
            }
        }),
{
}

/// What is built at once: the structures at a highway node, where none of the
/// subjects that come first takes the node. Ways and relations build nothing at
/// once.
pub proof fn only_highway_nodes_are_built_at_once(
    element: ProcessedElement,
    terrain: Terrain,
    roads: Set<(int, int)>,
    nearest_off_road: Option<(i32, i32)>,
)
    ensures
        ({
            let edits = immediate_edits(element, terrain, roads, nearest_off_road);
            match element {
                ProcessedElement::Node(node) => {
                    let tags = node.tags@;
                    let taken = tags.contains_key("door"@) || tags.contains_key("entrance"@)
                        || tags.contains_key("amenity"@) || tags.contains_key("natural"@)
                        && tags["natural"@] == "tree"@ || tags.contains_key("barrier"@) && (
                    tags["barrier"@] == "bollard"@ || tags["barrier"@] == "block"@);
                    if !taken && tags.contains_key("highway"@) {
                        edits == highway_features::node_edits(
                            terrain,
                            node,
                            tags["highway"@],
                            roads.contains((node.x as int, node.z as int)),
                            nearest_off_road,
                        )
                    } else {
                        edits.len() == 0
                    }
                },
                _ => edits.len() == 0,
            }
        }),
{
}

/// A multipolygon with a `landuse` tag places its outer ways as that land; any
/// other relation places nothing.
pub proof fn multipolygons_become_land(
    rel: ProcessedRelation,
    suppressed: Set<u64>,
    surfaces: Map<Seq<char>, Seq<Block>>,
)
    ensures
        ({
            let placed = placement_of(ProcessedElement::Relation(rel), suppressed, surfaces);
            let tags = rel.tags@;
            if tags.contains_key("type"@) && tags["type"@] == "multipolygon"@
                && tags.contains_key("landuse"@) {
                placed == PlacementView::PlaceLanduse {
                    ways: outer_ways(rel.members@, tags),
                    landuse: tags["landuse"@],
                }
            } else {
                placed == PlacementView::Nothing
            }
        }),
{
}

/// The outer ways of a relation are its outer members, all of them and in their
/// order: a single member is one if its role says so, with its own number and
/// nodes and with the tags of the relation, and the ways of two lists of members
/// follow each other.
pub proof fn outer_ways_are_the_outer_members(
    first: Seq<ProcessedMember>,
    second: Seq<ProcessedMember>,
    member: ProcessedMember,
    tags: Map<Seq<char>, Seq<char>>,
)
    ensures
        outer_ways(first + second, tags) == outer_ways(first, tags) + outer_ways(second, tags),
        member.role == ProcessedMemberRole::Outer ==> {
            let ways = outer_ways(seq![member], tags);
            &&& ways.len() == 1
            &&& ways[0].id == member.way.id
            &&& ways[0].nodes == member.way@.nodes
            &&& ways[0].tags == tags
        },
        member.role != ProcessedMemberRole::Outer ==> outer_ways(seq![member], tags).len() == 0,
    decreases second.len(),
{
    assert(outer_ways(seq![member].drop_last(), tags) =~= seq![]);
    if second.len() == 0 {
        assert(first + second =~= first);
        assert(outer_ways(first, tags) + outer_ways(second, tags) =~= outer_ways(first, tags));
    } else {
        let rest = second.drop_last();
        outer_ways_are_the_outer_members(first, rest, member, tags);
        assert((first + second).drop_last() =~= first + rest);
        assert(outer_ways(first + second, tags) =~= outer_ways(first, tags) + outer_ways(
            second,
            tags,
        ));
    }
}

/// Everything that is queued has the layer that it is queued on, and what is not
/// queued has none.
pub proof fn what_is_queued_has_a_layer(placed: PlacementView)
    ensures
        match placed {
            PlacementView::Queue { layer, .. } => placed.queue_layer() == Some(layer),
            PlacementView::QueueBuilding { layer, .. } => placed.queue_layer() == Some(layer),
            PlacementView::QueueWay { layer, .. } => placed.queue_layer() == Some(layer),
            PlacementView::QueueAmenity { layer, .. } => placed.queue_layer() == Some(layer),
            PlacementView::Nothing => placed.queue_layer() is None,
            PlacementView::PlaceLanduse { .. } => placed.queue_layer() is None,
            PlacementView::PlaceNatural { .. } => placed.queue_layer() is None,
        },
{
}

/// The view of a placement keeps every part of it.
pub proof fn placements_are_seen_whole(placed: Placement)
    ensures
        match placed {
            Placement::Nothing => placed@ == PlacementView::Nothing,
            Placement::Queue { layer, feature } => placed@ == (PlacementView::Queue {
                layer,
                feature: feature@,
            }),
            Placement::QueueBuilding { layer, way } => placed@ == (PlacementView::QueueBuilding {
                layer,
                way: way@,
            }),
            Placement::QueueWay { layer, theme, way, value } => placed@
                == (PlacementView::QueueWay { layer, theme, way: way@, value: value@ }),
            Placement::QueueAmenity { layer, node, value } => placed@
                == (PlacementView::QueueAmenity { layer, node: node@, value: value@ }),
            Placement::PlaceLanduse { ways, landuse } => placed@ matches PlacementView::PlaceLanduse {
                ways: seen,
                landuse: usage,
            } && usage == landuse@ && seen.len() == ways@.len() && forall|i: int|
                0 <= i < seen.len() ==> #[trigger] seen[i] == ways@[i]@,
            Placement::PlaceNatural { way, natural } => placed@ == (PlacementView::PlaceNatural {
                way: way@,
                natural: natural@,
            }),
        },
{
}

/// Only what is built at once can leave the map: ways, relations and nodes that
/// are no highway nodes are always on it.
pub proof fn what_is_not_built_at_once_is_on_the_map(element: ProcessedElement, terrain: Terrain)
    requires
        element matches ProcessedElement::Node(node) ==> !node.tags@.contains_key("highway"@)
            || highway_features::node_on_map(terrain, node, node.tags@["highway"@]),
    ensures
        element_on_map(element, terrain),
{
}

} // verus!
