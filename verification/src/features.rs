//! Features of the map that are placed in the world layer by layer.

use crate::blocks::Block;
use crate::blocks::BlockWithProperties;
use crate::osm::node_views;
use crate::osm::NodeView;
use crate::osm::ProcessedNode;
use crate::osm::ProcessedWay;
use crate::osm::WayView;
use crate::tags::Tags;
use vstd::prelude::*;

verus! {

/// The width of a highway: what its `width` tag says where that is a decimal
/// number, and `fallback` where it is not. Two widths are the same where they are
/// the same number, however the tags spell it, so there is no `==` on what the
/// tags say.
#[derive(Debug)]
pub struct HighwayWidth {
    pub tagged: Option<String>,
    pub fallback: i32,
}

/// The use of a piece of land, by the value of its `landuse` tag.
#[derive(Debug, PartialEq)]
pub struct LanduseType {
    pub value: String,
}

/// Something to be placed in the world.
#[allow(inconsistent_fields)]
#[derive(Debug)]
pub enum PlacedFeature {
    /// Some blocks, at offsets from a column.
    SimpleFeature { x: i32, z: i32, blocks: Vec<(i32, i32, i32, BlockWithProperties)> },
    /// A road or path.
    Highway {
        node_points: Vec<ProcessedNode>,
        surface: Vec<Block>,
        width: HighwayWidth,
        lanes: i32,
        zebra_crossing: bool,
    },
    /// A way of any other kind.
    WayIdk { way: ProcessedWay },
    /// A paved area.
    Area { way_id: u64, nodes: Vec<ProcessedNode>, surface: Block },
    /// A piece of land.
    Landuse { nodes: Vec<ProcessedNode>, landuse: LanduseType },
    /// A tree.
    Tree { x: i32, z: i32, tags: Tags },
}

/// What a feature is, apart from how its parts are stored.
#[allow(inconsistent_fields)]
pub enum FeatureView {
    SimpleFeature { x: i32, z: i32, blocks: Seq<PlacedBlockView> },
    Highway {
        node_points: Seq<NodeView>,
        surface: Seq<Block>,
        tagged_width: Option<Seq<char>>,
        fallback_width: i32,
        lanes: i32,
        zebra_crossing: bool,
    },
    WayIdk { way: WayView },
    Area { way_id: u64, nodes: Seq<NodeView>, surface: Block },
    Landuse { nodes: Seq<NodeView>, landuse: Seq<char> },
    Tree { x: i32, z: i32, tags: Map<Seq<char>, Seq<char>> },
}

/// A block of a feature and its offset.
pub struct PlacedBlockView {
    pub dx: i32,
    pub dy: i32,
    pub dz: i32,
    pub block: Block,
    pub properties: Option<Map<Seq<char>, Seq<char>>>,
}

/// A block in its default state, straight above or below a column.
pub open spec fn simple_block(dy: i32, block: Block) -> PlacedBlockView {
    PlacedBlockView { dx: 0, dy, dz: 0, block, properties: None }
}

/// The view of a list of blocks.
pub open spec fn block_views(blocks: Seq<(i32, i32, i32, BlockWithProperties)>) -> Seq<
    PlacedBlockView,
> {
    blocks.map_values(
        |b: (i32, i32, i32, BlockWithProperties)|
            PlacedBlockView {
                dx: b.0,
                dy: b.1,
                dz: b.2,
                block: b.3.block,
                properties: match b.3.properties {
                    Some(tags) => Some(tags@),
                    None => None,
                },
            },
    )
}

impl View for PlacedFeature {
    type V = FeatureView;

    open spec fn view(&self) -> FeatureView {
        match *self {
            PlacedFeature::SimpleFeature { x, z, blocks } => FeatureView::SimpleFeature {
                x,
                z,
                blocks: block_views(blocks@),
            },
            PlacedFeature::Highway { node_points, surface, width, lanes, zebra_crossing } => {
                FeatureView::Highway {
                    node_points: node_views(node_points@),
                    surface: surface@,
                    tagged_width: match width.tagged {
                        Some(text) => Some(text@),
                        None => None,
                    },
                    fallback_width: width.fallback,
                    lanes,
                    zebra_crossing,
                }
            },
            PlacedFeature::WayIdk { way } => FeatureView::WayIdk { way: way@ },
            PlacedFeature::Area { way_id, nodes, surface } => FeatureView::Area {
                way_id,
                nodes: node_views(nodes@),
                surface,
            },
            PlacedFeature::Landuse { nodes, landuse } => FeatureView::Landuse {
                nodes: node_views(nodes@),
                landuse: landuse.value@,
            },
            PlacedFeature::Tree { x, z, tags } => FeatureView::Tree { x, z, tags: tags@ },
        }
    }
}

/// The view of a feature keeps every part of it.
pub proof fn features_are_seen_whole(feature: PlacedFeature)
    ensures
        match feature {
            PlacedFeature::SimpleFeature { x, z, blocks } => feature@ matches FeatureView::SimpleFeature {
                x: vx,
                z: vz,
                blocks: seen,
            } && vx == x && vz == z && seen.len() == blocks@.len() && forall|i: int|
                0 <= i < seen.len() ==> {
                    let b = blocks@[i];
                    &&& (#[trigger] seen[i]).dx == b.0 && seen[i].dy == b.1 && seen[i].dz == b.2
                    &&& seen[i].block == b.3.block
                    &&& b.3.properties is None <==> seen[i].properties is None
                },
            PlacedFeature::Highway { node_points, surface, width, lanes, zebra_crossing } => {
                feature@ matches FeatureView::Highway {
                    node_points: nodes,
                    surface: blocks,
                    tagged_width,
                    fallback_width,
                    lanes: count,
                    zebra_crossing: stripes,
                } && {
                    &&& nodes.len() == node_points@.len()
                    &&& forall|i: int|
                        0 <= i < nodes.len() ==> #[trigger] nodes[i] == node_points@[i]@
                    &&& blocks == surface@
                    &&& width.tagged is None <==> tagged_width is None
                    &&& width.tagged matches Some(text) ==> tagged_width == Some(text@)
                    &&& fallback_width == width.fallback
                    &&& count == lanes
                    &&& stripes == zebra_crossing
                }
            },
            PlacedFeature::WayIdk { way } => feature@ == (FeatureView::WayIdk { way: way@ }),
            PlacedFeature::Area { way_id, nodes, surface } => feature@ matches FeatureView::Area {
                way_id: id,
                nodes: seen,
                surface: block,
            } && id == way_id && block == surface && seen.len() == nodes@.len() && forall|i: int|
                0 <= i < seen.len() ==> #[trigger] seen[i] == nodes@[i]@,
            PlacedFeature::Landuse { nodes, landuse } => feature@ matches FeatureView::Landuse {
                nodes: seen,
                landuse: usage,
            } && usage == landuse.value@ && seen.len() == nodes@.len() && forall|i: int|
                0 <= i < seen.len() ==> #[trigger] seen[i] == nodes@[i]@,
            PlacedFeature::Tree { x, z, tags } => feature@ == (FeatureView::Tree {
                x,
                z,
                tags: tags@,
            }),
        },
{
}

} // verus!
