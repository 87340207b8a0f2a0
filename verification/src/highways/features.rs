//! Highways as features, and the small structures at highway nodes.

use crate::bitmap::CoordinateBitmap;
use crate::blocks::BannerDesign;
use crate::blocks::Block;
use crate::blocks::DyeColor;
use crate::blocks::Facing;
use crate::bresenham;
use crate::features::FeatureView;
use crate::features::HighwayWidth;
use crate::features::PlacedFeature;
use crate::osm::ProcessedNode;
use crate::osm::ProcessedWay;
use crate::osm::WayView;
use crate::palettes;
use crate::palettes::SurfaceTable;
use crate::tags;
use crate::tags::Tags;
use crate::text;
use crate::world_editor;
use crate::world_editor::Edit;
use crate::world_editor::Terrain;
use crate::world_editor::WorldEditor;
use vstd::prelude::*;

verus! {

/// More lanes than this are not built.
pub const MAX_LANES: i32 = 16;

/// How many blocks one layer lies above the next.
pub const LAYER_HEIGHT_STEP: i32 = 6;

/// Whether a way looks like a walkway rather than asphalt.
pub open spec fn pedestrian(tags: Map<Seq<char>, Seq<char>>) -> bool {
    ||| tags::tag_is(tags, "highway"@, "footway"@)
    ||| tags::tag_is(tags, "highway"@, "pedestrian"@)
    ||| tags::tag_is(tags, "highway"@, "steps"@)
    ||| tags.contains_key("footway"@) && tags["footway"@] != "no"@
}

/// Whether a way looks like a walkway rather than asphalt. Any `footway` tag
/// says so, except an explicit `footway=no`.
pub fn is_pedestrian_way(way: &ProcessedWay) -> (r: bool)
    ensures
        r == pedestrian(way.tags@),
{
    way.tags.holds("highway", "footway") || way.tags.holds("highway", "pedestrian")
        || way.tags.holds("highway", "steps") || (way.tags.contains_key("footway")
        && !way.tags.holds("footway", "no"))
}

/// The number of lanes of a highway without a usable `lanes` tag.
pub open spec fn default_lanes(tags: Map<Seq<char>, Seq<char>>, highway: Seq<char>) -> i32 {
    if tags::tag_is(tags, "lane_markings"@, "no"@) {
        1
    } else if highway == "motorway"@ || highway == "trunk"@ || highway == "primary"@ || highway
        == "secondary"@ || highway == "tertiary"@ {
        2
    } else {
        1
    }
}

/// The number of lanes of a highway.
pub open spec fn lane_count(tags: Map<Seq<char>, Seq<char>>, highway: Seq<char>) -> i32 {
    let n = if tags.contains_key("lanes"@) && text::parsed_i32(tags["lanes"@]) is Some {
        text::parsed_i32(tags["lanes"@]).unwrap()
    } else {
        default_lanes(tags, highway)
    };
    if n < 0 {
        0
    } else if n > MAX_LANES {
        MAX_LANES
    } else {
        n
    }
}

fn lanes_of(tags: &Tags, highway: &str) -> (r: i32)
    ensures
        r == lane_count(tags@, highway@),
{
    let tagged: Option<i32> = match tags.get("lanes") {
        Some(lanes) => text::parse_i32(lanes.as_str()),
        None => None,
    };
    let n: i32 = match tagged {
        Some(n) => n,
        None => {
            if tags.holds("lane_markings", "no") {
                1
            } else if text::str_eq(highway, "motorway") || text::str_eq(highway, "trunk")
                || text::str_eq(highway, "primary") || text::str_eq(highway, "secondary")
                || text::str_eq(highway, "tertiary") {
                2
            } else {
                1
            }
        },
    };
    if n < 0 {
        0
    } else if n > MAX_LANES {
        MAX_LANES
    } else {
        n
    }
}

/// What a highway is made of where its `surface` tag does not say.
pub open spec fn default_surface(highway: Seq<char>) -> Seq<Block> {
    if highway == "footway"@ || highway == "pedestrian"@ || highway == "service"@ || highway
        == "steps"@ {
        seq![Block::GrayConcrete]
    } else if highway == "path"@ {
        seq![Block::DirtPath]
    } else if highway == "escape"@ {
        seq![Block::Sand]
    } else {
        seq![Block::GrayConcretePowder, Block::CyanTerracotta]
    }
}

/// Whether the `surface` tag names one of the pavements of sidewalks.
pub open spec fn paved(tags: Map<Seq<char>, Seq<char>>) -> bool {
    ||| tags::tag_is(tags, "surface"@, "concrete"@)
    ||| tags::tag_is(tags, "surface"@, "paving_stones"@)
    ||| tags::tag_is(tags, "surface"@, "sett"@)
}

/// What a highway is made of: paved walkways are smooth stone, other highways
/// what their `surface` tag or else their type says.
pub open spec fn highway_surface(
    surfaces: Map<Seq<char>, Seq<Block>>,
    tags: Map<Seq<char>, Seq<char>>,
    highway: Seq<char>,
) -> Seq<Block> {
    if pedestrian(tags) && paved(tags) {
        seq![Block::SmoothStone]
    } else {
        palettes::surface_mix(surfaces, tags, default_surface(highway))
    }
}

/// Whether a highway is a marked crossing for pedestrians.
pub open spec fn zebra(tags: Map<Seq<char>, Seq<char>>, highway: Seq<char>) -> bool {
    &&& highway == "footway"@
    &&& tags::tag_is(tags, "footway"@, "crossing"@)
    &&& !tags::tag_is(tags, "crossing"@, "no"@)
    &&& !tags::tag_is(tags, "crossing"@, "unmarked"@)
    &&& !tags::tag_is(tags, "crossing:markings"@, "no"@)
}

/// The feature that a highway is.
pub open spec fn highway_feature(
    way: WayView,
    highway: Seq<char>,
    surfaces: Map<Seq<char>, Seq<Block>>,
) -> FeatureView {
    if tags::tag_is(way.tags, "area"@, "yes"@) {
        FeatureView::Area {
            way_id: way.id,
            nodes: way.nodes,
            surface: palettes::surface_mix(surfaces, way.tags, seq![Block::Stone])[0],
        }
    } else {
        let lanes = lane_count(way.tags, highway);
        FeatureView::Highway {
            node_points: way.nodes,
            surface: highway_surface(surfaces, way.tags, highway),
            tagged_width: if way.tags.contains_key("width"@) {
                Some(way.tags["width"@])
            } else {
                None
            },
            fallback_width: (2 * lanes + 1) as i32,
            lanes,
            zebra_crossing: zebra(way.tags, highway),
        }
    }
}

fn default_surface_blocks(highway: &str) -> (r: Vec<Block>)
    ensures
        r@ == default_surface(highway@),
        r@.len() > 0,
{
    let r: Vec<Block> = if text::str_eq(highway, "footway") || text::str_eq(highway, "pedestrian")
        || text::str_eq(highway, "service") || text::str_eq(highway, "steps") {
        vec![Block::GrayConcrete]
    } else if text::str_eq(highway, "path") {
        vec![Block::DirtPath]
    } else if text::str_eq(highway, "escape") {
        vec![Block::Sand]
    } else {
        vec![Block::GrayConcretePowder, Block::CyanTerracotta]
    };
    assert(r@ =~= default_surface(highway@));
    r
}

/// The feature that a highway is: a paved area, or a road or path with its
/// surface, width, lanes and markings.
pub fn placed_feature(way: ProcessedWay, highway: &str, surfaces: &SurfaceTable) -> (r:
    PlacedFeature)
    ensures
        r@ == highway_feature(way@, highway@, surfaces@),
{
    if way.tags.holds("area", "yes") {
        let stone: Vec<Block> = vec![Block::Stone];
        assert(stone@ =~= seq![Block::Stone]);
        let blocks = palettes::get_blocks_for_surface_way(surfaces, &way, stone);
        let surface = blocks[0];
        PlacedFeature::Area { way_id: way.id, nodes: way.nodes, surface }
    } else {
        let lanes: i32 = lanes_of(&way.tags, highway);
        let tagged: Option<String> = match way.tags.get("width") {
            Some(width) => Some(width.clone()),
            None => None,
        };
        let surface: Vec<Block> = if is_pedestrian_way(&way) && (way.tags.holds(
            "surface",
            "concrete",
        ) || way.tags.holds("surface", "paving_stones") || way.tags.holds("surface", "sett")) {
            let smooth: Vec<Block> = vec![Block::SmoothStone];
            assert(smooth@ =~= seq![Block::SmoothStone]);
            smooth
        } else {
            palettes::get_blocks_for_surface_way(surfaces, &way, default_surface_blocks(highway))
        };
        let zebra_crossing: bool = text::str_eq(highway, "footway") && way.tags.holds(
            "footway",
            "crossing",
        ) && !way.tags.holds("crossing", "no") && !way.tags.holds("crossing", "unmarked")
            && !way.tags.holds("crossing:markings", "no");
        PlacedFeature::Highway {
            node_points: way.nodes,
            surface,
            width: HighwayWidth { tagged, fallback: lanes * 2 + 1 },
            lanes,
            zebra_crossing,
        }
    }
}

/// How far above the ground the structures at a node stand: its layer, unless
/// it is indoors or below the ground.
pub open spec fn layer_boost(tags: Map<Seq<char>, Seq<char>>) -> int {
    let layer = tags::number_or_zero(tags, "layer"@);
    if tags::tag_is(tags, "indoor"@, "yes"@) || layer < 0 {
        0
    } else {
        layer * LAYER_HEIGHT_STEP
    }
}

/// A request for a block above the ground.
pub open spec fn put(block: Block, x: int, y: int, z: int) -> Edit {
    Edit::SetBlock { block, x: x as i32, y: y as i32, z: z as i32 }
}

/// A street lamp: a fence post on a wall, with a light on top.
pub open spec fn street_lamp(x: int, z: int, boost: int) -> Seq<Edit> {
    Seq::empty()
        .push(put(Block::CobblestoneWall, x, boost + 1, z))
        .push(put(Block::OakFence, x, boost + 2, z))
        .push(put(Block::OakFence, x, boost + 3, z))
        .push(put(Block::OakFence, x, boost + 4, z))
        .push(put(Block::Glowstone, x, boost + 5, z))
}

/// A bus stop: a post with a sign that sticks out to one side.
pub open spec fn bus_stop(x: int, z: int, boost: int) -> Seq<Edit> {
    Seq::empty()
        .push(put(Block::CobblestoneWall, x, boost + 1, z))
        .push(put(Block::CobblestoneWall, x, boost + 2, z))
        .push(put(Block::CobblestoneWall, x, boost + 3, z))
        .push(put(Block::WhiteWool, x, boost + 4, z))
        .push(put(Block::WhiteWool, x + 1, boost + 4, z))
}

/// A pole beside the road at `(ax, az)`, with bars from the signal at `(x, z)`
/// across to it.
pub open spec fn hanging_pole(x: int, y: int, z: int, ax: int, az: int, boost: int) -> Seq<Edit> {
    pole_beside(ax, az, boost) + strung_bars(bresenham::line_points(x, y, z, ax, y, az), boost)
}

/// A pole beside the road.
pub open spec fn pole_beside(ax: int, az: int, boost: int) -> Seq<Edit> {
    Seq::empty()
        .push(put(Block::CobblestoneWall, ax, boost + 1, az))
        .push(put(Block::IronBars, ax, boost + 2, az))
        .push(put(Block::IronBars, ax, boost + 3, az))
        .push(put(Block::IronBars, ax, boost + 4, az))
        .push(put(Block::IronBars, ax, boost + 5, az))
}

/// Bars over the points of a line.
pub open spec fn strung_bars(line: Seq<(int, int, int)>, boost: int) -> Seq<Edit> {
    line.map_values(|p: (int, int, int)| put(Block::IronBars, p.0, boost + 6, p.2))
}

/// A pole under the signal itself.
pub open spec fn standing_pole(x: int, z: int, boost: int) -> Seq<Edit> {
    Seq::empty()
        .push(put(Block::CobblestoneWall, x, boost + 1, z))
        .push(put(Block::IronBars, x, boost + 2, z))
        .push(put(Block::IronBars, x, boost + 3, z))
}

/// A banner that shows the lights of a signal.
pub open spec fn signal_banner(x: int, y: int, z: int, facing: Facing) -> Edit {
    Edit::PlaceWallBanner {
        block: Block::LightGrayWallBanner,
        x: x as i32,
        y: y as i32,
        z: z as i32,
        facing,
        color: DyeColor::LightGray,
        design: BannerDesign::TrafficSignal,
    }
}

/// The head of a traffic signal, with its lights on all four sides at the
/// height `y`.
pub open spec fn signal_head(x: int, y: int, z: int, boost: int) -> Seq<Edit> {
    Seq::empty()
        .push(put(Block::BlackWool, x, boost + 4, z))
        .push(put(Block::BlackWool, x, boost + 5, z))
        .push(signal_banner(x, y, z - 1, Facing::North))
        .push(signal_banner(x, y, z + 1, Facing::South))
        .push(signal_banner(x - 1, y, z, Facing::West))
        .push(signal_banner(x + 1, y, z, Facing::East))
}

/// A traffic signal: it hangs over the road from a pole at `anchor`, or stands
/// on a pole of its own.
pub open spec fn traffic_signal(
    x: int,
    y: int,
    z: int,
    anchor: Option<(i32, i32)>,
    boost: int,
) -> Seq<Edit> {
    let pole = match anchor {
        Some((ax, az)) => hanging_pole(x, y, z, ax as int, az as int, boost),
        None => standing_pole(x, z, boost),
    };
    pole + signal_head(x, y, z, boost)
}

/// What is built at a highway node. `on_road` tells whether the node lies on a
/// road and `nearest_off_road` which column beside the road is the nearest.
pub open spec fn node_edits(
    terrain: Terrain,
    node: ProcessedNode,
    highway: Seq<char>,
    on_road: bool,
    nearest_off_road: Option<(i32, i32)>,
) -> Seq<Edit> {
    let x = node.x as int;
    let z = node.z as int;
    let boost = layer_boost(node.tags@);
    if highway == "street_lamp"@ {
        street_lamp(x, z, boost)
    } else if highway == "crossing"@ && tags::tag_is(
        node.tags@,
        "crossing"@,
        "traffic_signals"@,
    ) {
        let anchor = if on_road {
            nearest_off_road
        } else {
            None
        };
        traffic_signal(x, terrain.level(node.x, node.z) + boost + 5, z, anchor, boost)
    } else if highway == "bus_stop"@ {
        bus_stop(x, z, boost)
    } else {
        seq![]
    }
}

/// Whether everything that is built at a highway node is on the map.
pub open spec fn node_on_map(terrain: Terrain, node: ProcessedNode, highway: Seq<char>) -> bool {
    let boost = layer_boost(node.tags@);
    &&& boost <= i32::MAX
    &&& highway == "street_lamp"@ ==> boost + 6 <= i32::MAX
    &&& highway == "crossing"@ && tags::tag_is(node.tags@, "crossing"@, "traffic_signals"@) ==> {
        &&& boost + 6 <= i32::MAX
        &&& i32::MIN < node.x < i32::MAX
        &&& i32::MIN < node.z < i32::MAX
        &&& terrain.level(node.x, node.z) + boost + 5 <= i32::MAX
    }
    &&& highway == "bus_stop"@ ==> boost + 6 <= i32::MAX && node.x < i32::MAX
}

fn boost_of(tags: &Tags) -> (r: i32)
    requires
        layer_boost(tags@) <= i32::MAX,
    ensures
        r == layer_boost(tags@),
        r >= 0,
{
    let layer: i32 = tags.number_or_zero("layer");
    if tags.holds("indoor", "yes") || layer < 0 {
        0
    } else {
        layer * LAYER_HEIGHT_STEP
    }
}

fn build_street_lamp(editor: &mut WorldEditor, x: i32, z: i32, boost: i32)
    requires
        0 <= boost <= i32::MAX - 6,
    ensures
        final(editor).extends(*old(editor), street_lamp(x as int, z as int, boost as int)),
{
    broadcast use world_editor::edits_accumulate;

    proof {
        world_editor::extends_by_nothing(*editor);
    }
    editor.set_block(Block::CobblestoneWall, x, boost + 1, z);
    editor.set_block(Block::OakFence, x, boost + 2, z);
    editor.set_block(Block::OakFence, x, boost + 3, z);
    editor.set_block(Block::OakFence, x, boost + 4, z);
    editor.set_block(Block::Glowstone, x, boost + 5, z);
}

fn build_bus_stop(editor: &mut WorldEditor, x: i32, z: i32, boost: i32)
    requires
        0 <= boost <= i32::MAX - 6,
        x < i32::MAX,
    ensures
        final(editor).extends(*old(editor), bus_stop(x as int, z as int, boost as int)),
{
    broadcast use world_editor::edits_accumulate;

    proof {
        world_editor::extends_by_nothing(*editor);
    }
    editor.set_block(Block::CobblestoneWall, x, boost + 1, z);
    editor.set_block(Block::CobblestoneWall, x, boost + 2, z);
    editor.set_block(Block::CobblestoneWall, x, boost + 3, z);
    editor.set_block(Block::WhiteWool, x, boost + 4, z);
    editor.set_block(Block::WhiteWool, x + 1, boost + 4, z);
}

fn build_hanging_pole(
    editor: &mut WorldEditor,
    x: i32,
    y: i32,
    z: i32,
    ax: i32,
    az: i32,
    boost: i32,
)
    requires
        0 <= boost <= i32::MAX - 6,
    ensures
        final(editor).extends(
            *old(editor),
            hanging_pole(x as int, y as int, z as int, ax as int, az as int, boost as int),
        ),
{
    broadcast use world_editor::edits_accumulate;

    let ghost before = *editor;
    proof {
        world_editor::extends_by_nothing(before);
    }
    editor.set_block(Block::CobblestoneWall, ax, boost + 1, az);
    editor.set_block(Block::IronBars, ax, boost + 2, az);
    editor.set_block(Block::IronBars, ax, boost + 3, az);
    editor.set_block(Block::IronBars, ax, boost + 4, az);
    editor.set_block(Block::IronBars, ax, boost + 5, az);
    let ghost pole = *editor;
    proof {
        world_editor::extends_by_nothing(pole);
    }
    let points = bresenham::bresenham_line(x, y, z, ax, y, az);
    let ghost line = bresenham::points_view(points@);
    let ghost bars = strung_bars(line, boost as int);
    let n: usize = points.len();
    let mut k: usize = 0;
    assert(bars.take(0) =~= Seq::empty());
    while k < n
        invariant
            n == points@.len(),
            k <= n,
            0 <= boost <= i32::MAX - 6,
            line == bresenham::points_view(points@),
            bars == strung_bars(line, boost as int),
            editor.extends(pole, bars.take(k as int)),
        decreases n - k,
    {
        broadcast use world_editor::edits_accumulate;

        let (lx, _, lz): (i32, i32, i32) = points[k];
        assert(line[k as int] == (
            points@[k as int].0 as int,
            points@[k as int].1 as int,
            points@[k as int].2 as int,
        ));
        editor.set_block(Block::IronBars, lx, boost + 6, lz);
        assert(bars.take(k + 1) =~= bars.take(k as int).push(bars[k as int]));
        k = k + 1;
    }
    assert(bars.take(n as int) =~= bars);
    proof {
        let post = pole_beside(ax as int, az as int, boost as int);
        world_editor::extensions_add_up(before, pole, *editor, post, bars);
    }
}

fn build_standing_pole(editor: &mut WorldEditor, x: i32, z: i32, boost: i32)
    requires
        0 <= boost <= i32::MAX - 6,
    ensures
        final(editor).extends(*old(editor), standing_pole(x as int, z as int, boost as int)),
{
    broadcast use world_editor::edits_accumulate;

    proof {
        world_editor::extends_by_nothing(*editor);
    }
    editor.set_block(Block::CobblestoneWall, x, boost + 1, z);
    editor.set_block(Block::IronBars, x, boost + 2, z);
    editor.set_block(Block::IronBars, x, boost + 3, z);
}

fn build_signal_head(editor: &mut WorldEditor, x: i32, y: i32, z: i32, boost: i32)
    requires
        0 <= boost <= i32::MAX - 6,
        i32::MIN < x < i32::MAX,
        i32::MIN < z < i32::MAX,
    ensures
        final(editor).extends(
            *old(editor),
            signal_head(x as int, y as int, z as int, boost as int),
        ),
{
    broadcast use world_editor::edits_accumulate;

    proof {
        world_editor::extends_by_nothing(*editor);
    }
    editor.set_block(Block::BlackWool, x, boost + 4, z);
    editor.set_block(Block::BlackWool, x, boost + 5, z);
    let banner = Block::LightGrayWallBanner;
    let color = DyeColor::LightGray;
    let design = BannerDesign::TrafficSignal;
    editor.place_wall_banner(banner, x, y, z - 1, Facing::North, color, design);
    editor.place_wall_banner(banner, x, y, z + 1, Facing::South, color, design);
    editor.place_wall_banner(banner, x - 1, y, z, Facing::West, color, design);
    editor.place_wall_banner(banner, x + 1, y, z, Facing::East, color, design);
}

fn build_traffic_signal(
    editor: &mut WorldEditor,
    x: i32,
    z: i32,
    anchor: Option<(i32, i32)>,
    boost: i32,
)
    requires
        0 <= boost <= i32::MAX - 6,
        i32::MIN < x < i32::MAX,
        i32::MIN < z < i32::MAX,
        old(editor).terrain().level(x, z) + boost + 5 <= i32::MAX,
    ensures
        final(editor).extends(
            *old(editor),
            traffic_signal(
                x as int,
                old(editor).terrain().level(x, z) + boost + 5,
                z as int,
                anchor,
                boost as int,
            ),
        ),
{
    let y: i32 = editor.get_absolute_y(x, boost + 5, z);
    let ghost before = *editor;
    match anchor {
        Some((ax, az)) => {
            build_hanging_pole(editor, x, y, z, ax, az, boost);
        },
        None => {
            build_standing_pole(editor, x, z, boost);
        },
    }
    let ghost between = *editor;
    build_signal_head(editor, x, y, z, boost);
    proof {
        let pole = match anchor {
            Some((ax, az)) => hanging_pole(
                x as int,
                y as int,
                z as int,
                ax as int,
                az as int,
                boost as int,
            ),
            None => standing_pole(x as int, z as int, boost as int),
        };
        let head = signal_head(x as int, y as int, z as int, boost as int);
        world_editor::extensions_add_up(before, between, *editor, pole, head);
    }
}

/// Builds what stands at a highway node: a street lamp, the signals of a
/// crossing or a bus stop. These are built at once, so there is no feature
/// left to be placed.
///
/// `nearest_off_road` is the nearest column within four blocks that is not part
/// of a road, where there is one.
pub fn placed_feature_node(
    editor: &mut WorldEditor,
    node: &ProcessedNode,
    highway: &str,
    road_mask: &CoordinateBitmap,
    nearest_off_road: Option<(i32, i32)>,
) -> (r: Option<PlacedFeature>)
    requires
        node_on_map(old(editor).terrain(), *node, highway@),
    ensures
        r is None,
        final(editor).extends(
            *old(editor),
            node_edits(
                old(editor).terrain(),
                *node,
                highway@,
                road_mask@.contains((node.x as int, node.z as int)),
                nearest_off_road,
            ),
        ),
{
    proof {
        reveal_strlit("street_lamp");
        reveal_strlit("crossing");
        reveal_strlit("bus_stop");
        assert("street_lamp"@[0] != "crossing"@[0]);
        assert("street_lamp"@[0] != "bus_stop"@[0]);
        assert("crossing"@[0] != "bus_stop"@[0]);
        world_editor::extends_by_nothing(*editor);
    }
    let boost: i32 = boost_of(&node.tags);
    if text::str_eq(highway, "street_lamp") {
        build_street_lamp(editor, node.x, node.z, boost);
    } else if text::str_eq(highway, "crossing") {
        if node.tags.holds("crossing", "traffic_signals") {
            let anchor: Option<(i32, i32)> = if road_mask.contains(node.x, node.z) {
                nearest_off_road
            } else {
                None
            };
            build_traffic_signal(editor, node.x, node.z, anchor, boost);
        }
    } else if text::str_eq(highway, "bus_stop") {
        build_bus_stop(editor, node.x, node.z, boost);
    }
    None
}

/// However many lanes the tags claim, the number stays in bounds.
pub proof fn lanes_are_bounded(tags: Map<Seq<char>, Seq<char>>, highway: Seq<char>)
    ensures
        0 <= lane_count(tags, highway) <= MAX_LANES,
{
}

/// A zebra crossing is always part of a walkway.
pub proof fn zebra_crossings_are_pedestrian(tags: Map<Seq<char>, Seq<char>>, highway: Seq<char>)
    requires
        zebra(tags, highway),
    ensures
        pedestrian(tags),
{
    reveal_strlit("crossing");
    reveal_strlit("no");
    assert("crossing"@.len() != "no"@.len());
}

/// Every highway has a surface.
pub proof fn highways_have_a_surface(
    surfaces: Map<Seq<char>, Seq<Block>>,
    tags: Map<Seq<char>, Seq<char>>,
    highway: Seq<char>,
)
    requires
        forall|name: Seq<char>| #[trigger] surfaces.contains_key(name) ==> surfaces[name].len() > 0,
    ensures
        highway_surface(surfaces, tags, highway).len() > 0,
{
}

/// Nothing that stands at a highway node sinks below the terrain, whatever its
/// layer.
pub proof fn node_structures_stand_above_the_ground(
    terrain: Terrain,
    node: ProcessedNode,
    highway: Seq<char>,
    on_road: bool,
    nearest_off_road: Option<(i32, i32)>,
    i: int,
)
    requires
        node_on_map(terrain, node, highway),
        0 <= i < node_edits(terrain, node, highway, on_road, nearest_off_road).len(),
    ensures
        match node_edits(terrain, node, highway, on_road, nearest_off_road)[i] {
            Edit::SetBlock { y, .. } => y >= 1,
            Edit::SetBlockAbsolute { .. } => false,
            Edit::PlaceWallBanner { y, .. } => y > terrain.level(node.x, node.z),
        },
{
    let boost = layer_boost(node.tags@);
    assert(boost >= 0);
    reveal_strlit("street_lamp");
    reveal_strlit("crossing");
    reveal_strlit("bus_stop");
    assert("street_lamp"@[0] != "crossing"@[0]);
    assert("street_lamp"@[0] != "bus_stop"@[0]);
    assert("crossing"@[0] != "bus_stop"@[0]);
}

/// What stands at a node is lifted by six blocks for each layer above the ground.
/// Indoors, below the ground, and where the `layer` tag is no number, it stands on
/// the ground.
pub proof fn layers_lift_by_six_blocks(tags: Map<Seq<char>, Seq<char>>)
    ensures
        ({
            let indoors = tags.contains_key("indoor"@) && tags["indoor"@] == "yes"@;
            let tagged = if tags.contains_key("layer"@) {
                text::parsed_i32(tags["layer"@])
            } else {
                None
            };
            &&& indoors ==> layer_boost(tags) == 0
            &&& tagged is None ==> layer_boost(tags) == 0
            &&& tagged matches Some(layer) ==> {
                &&& layer <= 0 ==> layer_boost(tags) == 0
                &&& layer >= 0 && !indoors ==> layer_boost(tags) == 6 * layer
            }
        }),
{
}

proof fn lemma_node_kinds()
    ensures
        "street_lamp"@ != "crossing"@,
        "street_lamp"@ != "bus_stop"@,
        "crossing"@ != "bus_stop"@,
{
    reveal_strlit("street_lamp");
    reveal_strlit("crossing");
    reveal_strlit("bus_stop");
    assert("street_lamp"@[0] != "crossing"@[0]);
    assert("street_lamp"@[0] != "bus_stop"@[0]);
    assert("crossing"@[0] != "bus_stop"@[0]);
}

/// A street lamp is five blocks high, one block over the other: a wall, three
/// fence posts and a light.
pub proof fn street_lamps_stand_upright(
    terrain: Terrain,
    node: ProcessedNode,
    on_road: bool,
    nearest_off_road: Option<(i32, i32)>,
    i: int,
)
    requires
        node_on_map(terrain, node, "street_lamp"@),
        0 <= i < 5,
    ensures
        ({
            let edits = node_edits(terrain, node, "street_lamp"@, on_road, nearest_off_road);
            &&& edits.len() == 5
            &&& edits[i] matches Edit::SetBlock { block, x, y, z } && {
                &&& x == node.x && z == node.z
                &&& y == layer_boost(node.tags@) + 1 + i
                &&& block == if i == 0 {
                    Block::CobblestoneWall
                } else if i < 4 {
                    Block::OakFence
                } else {
                    Block::Glowstone
                }
            }
        }),
{
    assert(layer_boost(node.tags@) >= 0);
}

/// A bus stop is a post of three wall blocks with a block of white wool on top
/// and another one beside it, to the east.
pub proof fn bus_stops_have_a_post_and_a_sign(
    terrain: Terrain,
    node: ProcessedNode,
    on_road: bool,
    nearest_off_road: Option<(i32, i32)>,
    i: int,
)
    requires
        node_on_map(terrain, node, "bus_stop"@),
        0 <= i < 5,
    ensures
        ({
            let edits = node_edits(terrain, node, "bus_stop"@, on_road, nearest_off_road);
            let boost = layer_boost(node.tags@);
            &&& edits.len() == 5
            &&& edits[i] matches Edit::SetBlock { block, x, y, z } && {
                &&& z == node.z
                &&& i < 3 ==> block == Block::CobblestoneWall && x == node.x && y == boost + 1 + i
                &&& i == 3 ==> block == Block::WhiteWool && x == node.x && y == boost + 4
                &&& i == 4 ==> block == Block::WhiteWool && x == node.x + 1 && y == boost + 4
            }
        }),
{
    lemma_node_kinds();
    assert(layer_boost(node.tags@) >= 0);
}

/// The bars of a traffic signal that hangs over the road connect it to its pole:
/// the first is over the signal, the last over the pole, each next one over a
/// column next to the one before, and there are as many as the larger of the two
/// distances, and one more. `k` counts the bars.
pub proof fn bars_connect_the_signal_to_its_pole(
    terrain: Terrain,
    node: ProcessedNode,
    ax: i32,
    az: i32,
    k: int,
)
    requires
        node_on_map(terrain, node, "crossing"@),
        node.tags@.contains_key("crossing"@),
        node.tags@["crossing"@] == "traffic_signals"@,
        0 <= k < node_edits(terrain, node, "crossing"@, true, Some((ax, az))).len() - 11,
    ensures
        ({
            let edits = node_edits(terrain, node, "crossing"@, true, Some((ax, az)));
            let count = edits.len() - 11;
            let over = layer_boost(node.tags@) + 6;
            let apart_x = if ax >= node.x {
                ax - node.x
            } else {
                node.x - ax
            };
            let apart_z = if az >= node.z {
                az - node.z
            } else {
                node.z - az
            };
            &&& apart_x >= apart_z ==> count == apart_x + 1
            &&& apart_z >= apart_x ==> count == apart_z + 1
            &&& edits[5 + k] matches Edit::SetBlock { block, x, y, z } && {
                &&& block == Block::IronBars && y == over
                &&& k == 0 ==> x == node.x && z == node.z
                &&& k == count - 1 ==> x == ax && z == az
                &&& k < count - 1 ==> (edits[6 + k] matches Edit::SetBlock { x: nx, z: nz, .. }
                    && -1 <= nx - x <= 1 && -1 <= nz - z <= 1 && !(nx == x && nz == z))
            }
        }),
{
    lemma_node_kinds();
    let boost = layer_boost(node.tags@);
    let (x, z) = (node.x as int, node.z as int);
    let y = terrain.level(node.x, node.z) + boost + 5;
    let line = bresenham::line_points(x, y, z, ax as int, y, az as int);
    let n = bresenham::line_steps(x, y, z, ax as int, y, az as int);
    let bars = strung_bars(line, boost);
    let post = pole_beside(ax as int, az as int, boost);
    let head = signal_head(x, y, z, boost);
    let edits = node_edits(terrain, node, "crossing"@, true, Some((ax, az)));
    assert(edits == (post + bars) + head);
    assert(post.len() == 5 && head.len() == 6 && bars.len() == line.len());
    bresenham::line_connects_its_ends(x, y, z, ax as int, y, az as int);
    bresenham::line_stays_between_its_ends(x, ax as int, n, k);
    bresenham::line_stays_between_its_ends(z, az as int, n, k);
    assert(edits[5 + k] == bars[k]);
    assert(bars[k] == put(Block::IronBars, line[k].0, boost + 6, line[k].2));
    if k < line.len() - 1 {
        bresenham::line_stays_between_its_ends(x, ax as int, n, k + 1);
        bresenham::line_stays_between_its_ends(z, az as int, n, k + 1);
        bresenham::line_stays_between_its_ends(y, y, n, k);
        bresenham::line_stays_between_its_ends(y, y, n, k + 1);
        assert(edits[6 + k] == bars[k + 1]);
        assert(bars[k + 1] == put(Block::IronBars, line[k + 1].0, boost + 6, line[k + 1].2));
        assert(line[k] != line[k + 1]);
    }
}

/// The pole of a traffic signal stands beside the road where there is a column
/// beside the road, and under the signal where there is none or where the signal
/// is not on a road: a wall with iron bars on top, five blocks high beside the
/// road, three under the signal.
pub proof fn signals_stand_on_a_pole(
    terrain: Terrain,
    node: ProcessedNode,
    on_road: bool,
    nearest_off_road: Option<(i32, i32)>,
    i: int,
)
    requires
        node_on_map(terrain, node, "crossing"@),
        node.tags@.contains_key("crossing"@),
        node.tags@["crossing"@] == "traffic_signals"@,
        0 <= i < 5,
    ensures
        ({
            let edits = node_edits(terrain, node, "crossing"@, on_road, nearest_off_road);
            let boost = layer_boost(node.tags@);
            let hangs = on_road && nearest_off_road is Some;
            let (px, pz) = if hangs {
                nearest_off_road.unwrap()
            } else {
                (node.x, node.z)
            };
            &&& hangs ==> edits.len() >= 12
            &&& !hangs ==> edits.len() == 9
            &&& hangs || i < 3 ==> (edits[i] matches Edit::SetBlock { block, x, y, z } && {
                &&& x == px && z == pz
                &&& y == boost + 1 + i
                &&& block == if i == 0 {
                    Block::CobblestoneWall
                } else {
                    Block::IronBars
                }
            })
        }),
{
    lemma_node_kinds();
    let boost = layer_boost(node.tags@);
    assert(boost >= 0);
    let (x, z) = (node.x as int, node.z as int);
    let y = terrain.level(node.x, node.z) + boost + 5;
    let head = signal_head(x, y, z, boost);
    let edits = node_edits(terrain, node, "crossing"@, on_road, nearest_off_road);
    if on_road && nearest_off_road is Some {
        let (ax, az) = nearest_off_road.unwrap();
        let line = bresenham::line_points(x, y, z, ax as int, y, az as int);
        let post = pole_beside(ax as int, az as int, boost);
        assert(edits == (post + strung_bars(line, boost)) + head);
        assert(edits[i] == post[i]);
        bresenham::line_connects_its_ends(x, y, z, ax as int, y, az as int);
    } else {
        assert(edits == standing_pole(x, z, boost) + head);
    }
}

/// The head of a traffic signal is two blocks of black wool over the node, with a
/// banner on each of its four sides at the height of the upper one; every banner
/// faces away from the head. `i` counts the last six edits.
pub proof fn signals_show_their_lights_on_all_sides(
    terrain: Terrain,
    node: ProcessedNode,
    on_road: bool,
    nearest_off_road: Option<(i32, i32)>,
    i: int,
)
    requires
        node_on_map(terrain, node, "crossing"@),
        node.tags@.contains_key("crossing"@),
        node.tags@["crossing"@] == "traffic_signals"@,
        0 <= i < 6,
    ensures
        ({
            let edits = node_edits(terrain, node, "crossing"@, on_road, nearest_off_road);
            let boost = layer_boost(node.tags@);
            &&& edits.len() >= 6
            &&& i < 2 ==> (edits[edits.len() - 6 + i] matches Edit::SetBlock { block, x, y, z }
                && block == Block::BlackWool && x == node.x && z == node.z && y == boost + 4 + i)
            &&& i >= 2 ==> (edits[edits.len() - 6 + i] matches Edit::PlaceWallBanner {
                block,
                x,
                y,
                z,
                facing,
                color,
                design,
            } && {
                &&& block == Block::LightGrayWallBanner && color == DyeColor::LightGray
                &&& design == BannerDesign::TrafficSignal
                &&& y == terrain.level(node.x, node.z) + boost + 5
                &&& facing == Facing::North ==> x == node.x && z == node.z - 1
                &&& facing == Facing::South ==> x == node.x && z == node.z + 1
                &&& facing == Facing::West ==> x == node.x - 1 && z == node.z
                &&& facing == Facing::East ==> x == node.x + 1 && z == node.z
                &&& i == 2 ==> facing == Facing::North
                &&& i == 3 ==> facing == Facing::South
                &&& i == 4 ==> facing == Facing::West
                &&& i == 5 ==> facing == Facing::East
            })
        }),
{
    lemma_node_kinds();
    let boost = layer_boost(node.tags@);
    assert(boost >= 0);
    let (x, z) = (node.x as int, node.z as int);
    let y = terrain.level(node.x, node.z) + boost + 5;
    let head = signal_head(x, y, z, boost);
    let edits = node_edits(terrain, node, "crossing"@, on_road, nearest_off_road);
    let pole = match (if on_road {
        nearest_off_road
    } else {
        None
    }) {
        Some((ax, az)) => hanging_pole(x, y, z, ax as int, az as int, boost),
        None => standing_pole(x, z, boost),
    };
    assert(edits == pole + head);
    assert(edits[edits.len() - 6 + i] == head[i]);
}

/// Nothing else stands at highway nodes: only lamps, bus stops and crossings with
/// traffic signals are built.
pub proof fn other_nodes_build_nothing(
    terrain: Terrain,
    node: ProcessedNode,
    highway: Seq<char>,
    on_road: bool,
    nearest_off_road: Option<(i32, i32)>,
)
    requires
        highway != "street_lamp"@ && highway != "bus_stop"@,
        highway != "crossing"@ || !node.tags@.contains_key("crossing"@) || node.tags@["crossing"@]
            != "traffic_signals"@,
    ensures
        node_edits(terrain, node, highway, on_road, nearest_off_road).len() == 0,
{
}

/// The number of lanes is what the `lanes` tag says, but no less than none and no
/// more than sixteen. Where the tag does not give a number, the larger roads have
/// two lanes and the others one; a road without lane markings has one.
pub proof fn lanes_follow_the_tags(tags: Map<Seq<char>, Seq<char>>, highway: Seq<char>)
    ensures
        ({
            let tagged = if tags.contains_key("lanes"@) {
                text::parsed_i32(tags["lanes"@])
            } else {
                None
            };
            let unmarked = tags.contains_key("lane_markings"@) && tags["lane_markings"@] == "no"@;
            let large = highway == "motorway"@ || highway == "trunk"@ || highway == "primary"@
                || highway == "secondary"@ || highway == "tertiary"@;
            let lanes = lane_count(tags, highway);
            &&& tagged matches Some(n) ==> {
                &&& n <= 0 ==> lanes == 0
                &&& 0 <= n <= 16 ==> lanes == n
                &&& n >= 16 ==> lanes == 16
            }
            &&& tagged is None && large && !unmarked ==> lanes == 2
            &&& tagged is None && (!large || unmarked) ==> lanes == 1
        }),
{
}

/// A walkway is a footway, a pedestrian street or a flight of steps, or whatever
/// has a `footway` tag that does not deny it.
pub proof fn walkways_by_their_tags(tags: Map<Seq<char>, Seq<char>>)
    ensures
        pedestrian(tags) <==> {
            ||| tags.contains_key("highway"@) && (tags["highway"@] == "footway"@
                || tags["highway"@] == "pedestrian"@ || tags["highway"@] == "steps"@)
            ||| tags.contains_key("footway"@) && tags["footway"@] != "no"@
        },
{
}

/// What a road is made of: paved walkways are smooth stone; otherwise a `surface`
/// tag with a known value decides, whatever the type; and without one the type
/// does, asphalt being what most types have.
pub proof fn surfaces_follow_the_tags(
    surfaces: Map<Seq<char>, Seq<Block>>,
    tags: Map<Seq<char>, Seq<char>>,
    highway: Seq<char>,
)
    ensures
        ({
            let made_of = highway_surface(surfaces, tags, highway);
            let tagged = tags.contains_key("surface"@);
            let value = tags["surface"@];
            let smooth = pedestrian(tags) && tagged && (value == "concrete"@ || value
                == "paving_stones"@ || value == "sett"@);
            let known = tagged && surfaces.contains_key(value);
            let plain = highway == "footway"@ || highway == "pedestrian"@ || highway == "service"@
                || highway == "steps"@;
            let untold = !smooth && !known;
            &&& smooth ==> made_of == seq![Block::SmoothStone]
            &&& !smooth && known ==> made_of == surfaces[value]
            &&& untold && plain ==> made_of == seq![Block::GrayConcrete]
            &&& untold && highway == "path"@ ==> made_of == seq![Block::DirtPath]
            &&& untold && highway == "escape"@ ==> made_of == seq![Block::Sand]
            &&& untold && !plain && highway != "path"@ && highway != "escape"@ ==> made_of == seq![
                Block::GrayConcretePowder,
                Block::CyanTerracotta,
            ]
        }),
{
    reveal_strlit("footway");
    reveal_strlit("pedestrian");
    reveal_strlit("service");
    reveal_strlit("steps");
    reveal_strlit("path");
    reveal_strlit("escape");
    assert("path"@.len() == 4 && "escape"@.len() == 6);
}

/// A footway that is tagged as a crossing has stripes, unless a tag says that it
/// is no crossing, or is not marked.
pub proof fn stripes_follow_the_tags(tags: Map<Seq<char>, Seq<char>>, highway: Seq<char>)
    ensures
        zebra(tags, highway) <==> {
            let crossing = tags.contains_key("footway"@) && tags["footway"@] == "crossing"@;
            let denied = tags.contains_key("crossing"@) && (tags["crossing"@] == "no"@
                || tags["crossing"@] == "unmarked"@) || tags.contains_key("crossing:markings"@)
                && tags["crossing:markings"@] == "no"@;
            highway == "footway"@ && crossing && !denied
        },
{
}

/// A highway becomes a paved area where it is tagged as one, of the first block of
/// its surface or of stone; otherwise a road through all its nodes. A road is as
/// wide as its `width` tag says, or two blocks for each lane and one more.
pub proof fn highways_become_roads_or_areas(
    way: WayView,
    highway: Seq<char>,
    surfaces: Map<Seq<char>, Seq<Block>>,
)
    ensures
        ({
            let feature = highway_feature(way, highway, surfaces);
            let tags = way.tags;
            let is_area = tags.contains_key("area"@) && tags["area"@] == "yes"@;
            let known = tags.contains_key("surface"@) && surfaces.contains_key(tags["surface"@]);
            &&& is_area ==> (feature matches FeatureView::Area { way_id, nodes, surface } && {
                &&& way_id == way.id && nodes == way.nodes
                &&& known ==> surface == surfaces[tags["surface"@]][0]
                &&& !known ==> surface == Block::Stone
            })
            &&& !is_area ==> (feature matches FeatureView::Highway {
                node_points,
                surface,
                tagged_width,
                fallback_width,
                lanes,
                zebra_crossing,
            } && {
                &&& node_points == way.nodes
                &&& surface == highway_surface(surfaces, tags, highway)
                &&& tags.contains_key("width"@) ==> tagged_width == Some(tags["width"@])
                &&& !tags.contains_key("width"@) ==> tagged_width is None
                &&& lanes == lane_count(tags, highway)
                &&& fallback_width == lanes + lanes + 1
                &&& zebra_crossing == zebra(tags, highway)
            })
        }),
{
    lanes_are_bounded(way.tags, highway);
}

/// Whatever stands at a node is on the map where no coordinate leaves 32 bits: six
/// blocks above its layer, one block to each side, and five blocks above the
/// height of its ground and its layer.
pub proof fn nodes_away_from_the_edge_are_on_the_map(
    terrain: Terrain,
    node: ProcessedNode,
    highway: Seq<char>,
)
    requires
        layer_boost(node.tags@) + 6 <= 0x7fff_ffff,
        -0x8000_0000 <= node.x - 1 && node.x + 1 <= 0x7fff_ffff,
        -0x8000_0000 <= node.z - 1 && node.z + 1 <= 0x7fff_ffff,
        terrain.level(node.x, node.z) + layer_boost(node.tags@) + 5 <= 0x7fff_ffff,
    ensures
        node_on_map(terrain, node, highway),
{
}

} // verus!
