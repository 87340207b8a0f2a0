use roadworks::bitmap::CoordinateBitmap;
use roadworks::blocks::{BannerDesign, Block, BlockWithProperties, DyeColor, Facing};
use roadworks::coords::{XZBBox, XZPoint};
use roadworks::features::{HighwayWidth, PlacedFeature};
use roadworks::highways::{is_pedestrian_way, placed_feature, placed_feature_node};
use roadworks::osm::{
    ProcessedElement, ProcessedMember, ProcessedMemberRole, ProcessedNode, ProcessedRelation,
    ProcessedWay,
};
use roadworks::palettes::SurfaceTable;
use roadworks::placement::{Placement, Theme};
use roadworks::tags::Tags;
use roadworks::world_editor::{Edit, WorldEditor};
use std::collections::HashSet;

fn tags(pairs: &[(&str, &str)]) -> Tags {
    let mut all = Tags::new();
    for (key, value) in pairs {
        all = all.with(key, value);
    }
    all
}

fn node(x: i32, z: i32, pairs: &[(&str, &str)]) -> ProcessedNode {
    ProcessedNode { id: 7, x, z, tags: tags(pairs) }
}

fn way(id: u64, pairs: &[(&str, &str)]) -> ProcessedWay {
    ProcessedWay { id, nodes: vec![node(0, 0, &[]), node(5, 5, &[])], tags: tags(pairs) }
}

fn surfaces() -> SurfaceTable {
    let mut table = SurfaceTable::new();
    table.insert("sand", vec![Block::Sand]);
    table.insert("concrete", vec![Block::LightGrayConcrete, Block::GrayConcrete]);
    table
}

/// All parts of a feature, in words.
fn shown(feature: &PlacedFeature) -> String {
    format!("{:?}", feature)
}

fn put(block: Block, x: i32, y: i32, z: i32) -> Edit {
    Edit::SetBlock { block, x, y, z }
}

#[test]
fn walkways() {
    for h in ["footway", "pedestrian", "steps"] {
        assert!(is_pedestrian_way(&way(1, &[("highway", h)])));
        assert!(is_pedestrian_way(&way(1, &[("highway", h), ("footway", "no")])));
    }
    assert!(is_pedestrian_way(&way(1, &[("highway", "path"), ("footway", "sidewalk")])));
    assert!(is_pedestrian_way(&way(1, &[("footway", "")])));
    assert!(!is_pedestrian_way(&way(1, &[("highway", "path"), ("footway", "no")])));
    assert!(!is_pedestrian_way(&way(1, &[("highway", "primary")])));
    assert!(!is_pedestrian_way(&way(1, &[])));
}

fn as_highway(feature: PlacedFeature) -> (Vec<Block>, HighwayWidth, i32, bool) {
    match feature {
        PlacedFeature::Highway { node_points, surface, width, lanes, zebra_crossing } => {
            assert_eq!(node_points.len(), 2);
            (surface, width, lanes, zebra_crossing)
        }
        other => panic!("{:?}", other),
    }
}

#[test]
fn highway_lanes_and_widths() {
    let lanes_of = |highway: &str, pairs: &[(&str, &str)]| {
        let (_, width, lanes, _) = as_highway(placed_feature(way(1, pairs), highway, &surfaces()));
        assert_eq!(width.fallback, 2 * lanes + 1);
        lanes
    };
    for h in ["motorway", "trunk", "primary", "secondary", "tertiary"] {
        assert_eq!(lanes_of(h, &[]), 2);
        assert_eq!(lanes_of(h, &[("lane_markings", "no")]), 1);
        assert_eq!(lanes_of(h, &[("lane_markings", "yes"), ("lanes", "x")]), 2);
    }
    assert_eq!(lanes_of("residential", &[]), 1);
    assert_eq!(lanes_of("residential", &[("lanes", "3")]), 3);
    assert_eq!(lanes_of("residential", &[("lanes", "-3")]), 0);
    assert_eq!(lanes_of("residential", &[("lanes", "999999")]), 16);
    assert_eq!(lanes_of("residential", &[("lanes", "16")]), 16);
    assert_eq!(lanes_of("residential", &[("lanes", "99999999999")]), 1);
    let tagged = as_highway(placed_feature(way(1, &[("width", "7.5")]), "path", &surfaces())).1;
    assert_eq!((tagged.tagged, tagged.fallback), (Some("7.5".to_string()), 3));
    let bare = as_highway(placed_feature(way(1, &[]), "path", &surfaces())).1;
    assert_eq!((bare.tagged, bare.fallback), (None, 3));
}

#[test]
fn highway_surfaces() {
    let surface_of = |highway: &str, pairs: &[(&str, &str)]| {
        as_highway(placed_feature(way(1, pairs), highway, &surfaces())).0
    };
    for h in ["footway", "pedestrian", "service", "steps"] {
        assert_eq!(surface_of(h, &[]), vec![Block::GrayConcrete]);
    }
    assert_eq!(surface_of("path", &[]), vec![Block::DirtPath]);
    assert_eq!(surface_of("escape", &[]), vec![Block::Sand]);
    let asphalt = vec![Block::GrayConcretePowder, Block::CyanTerracotta];
    assert_eq!(surface_of("primary", &[]), asphalt);
    assert_eq!(surface_of("primary", &[("surface", "lava")]), asphalt);
    assert_eq!(surface_of("primary", &[("surface", "sand")]), vec![Block::Sand]);
    assert_eq!(
        surface_of("primary", &[("surface", "concrete")]),
        vec![Block::LightGrayConcrete, Block::GrayConcrete]
    );
    for s in ["concrete", "paving_stones", "sett"] {
        let pairs = [("highway", "footway"), ("surface", s)];
        assert_eq!(surface_of("footway", &pairs), vec![Block::SmoothStone]);
    }
    let sandy = [("highway", "footway"), ("surface", "sand")];
    assert_eq!(surface_of("footway", &sandy), vec![Block::Sand]);
}

#[test]
fn zebra_crossings() {
    let zebra = |highway: &str, pairs: &[(&str, &str)]| {
        as_highway(placed_feature(way(1, pairs), highway, &surfaces())).3
    };
    assert!(zebra("footway", &[("footway", "crossing")]));
    assert!(zebra("footway", &[("footway", "crossing"), ("crossing", "zebra")]));
    assert!(!zebra("path", &[("footway", "crossing")]));
    assert!(!zebra("footway", &[("footway", "sidewalk")]));
    assert!(!zebra("footway", &[("footway", "crossing"), ("crossing", "no")]));
    assert!(!zebra("footway", &[("footway", "crossing"), ("crossing", "unmarked")]));
    assert!(!zebra("footway", &[("footway", "crossing"), ("crossing:markings", "no")]));
}

#[test]
fn highway_areas() {
    let area = |pairs: &[(&str, &str)]| placed_feature(way(9, pairs), "pedestrian", &surfaces());
    let plain = PlacedFeature::Area {
        way_id: 9,
        nodes: way(9, &[]).nodes,
        surface: Block::Stone,
    };
    assert_eq!(shown(&area(&[("area", "yes")])), shown(&plain));
    let mixed = PlacedFeature::Area {
        way_id: 9,
        nodes: way(9, &[]).nodes,
        surface: Block::LightGrayConcrete,
    };
    assert_eq!(shown(&area(&[("area", "yes"), ("surface", "concrete")])), shown(&mixed));
}

fn road_mask(columns: &[(i32, i32)]) -> CoordinateBitmap {
    let bbox = XZBBox { min: XZPoint { x: -50, z: -50 }, max: XZPoint { x: 50, z: 50 } };
    let mut mask = CoordinateBitmap::new(&bbox);
    for (x, z) in columns {
        mask.set(*x, *z);
    }
    mask
}

fn built(n: &ProcessedNode, highway: &str, mask: &CoordinateBitmap, near: Option<(i32, i32)>) -> Vec<Edit> {
    let mut editor = WorldEditor::new(60);
    assert!(placed_feature_node(&mut editor, n, highway, mask, near).is_none());
    editor.edits().clone()
}

#[test]
fn street_lamps() {
    let lamp = |pairs: &[(&str, &str)]| built(&node(3, 4, pairs), "street_lamp", &road_mask(&[]), None);
    let expected = |h: i32| {
        vec![
            put(Block::CobblestoneWall, 3, h + 1, 4),
            put(Block::OakFence, 3, h + 2, 4),
            put(Block::OakFence, 3, h + 3, 4),
            put(Block::OakFence, 3, h + 4, 4),
            put(Block::Glowstone, 3, h + 5, 4),
        ]
    };
    assert_eq!(lamp(&[]), expected(0));
    assert_eq!(lamp(&[("layer", "2")]), expected(12));
    assert_eq!(lamp(&[("layer", "-2")]), expected(0));
    assert_eq!(lamp(&[("layer", "2"), ("indoor", "yes")]), expected(0));
    assert_eq!(lamp(&[("layer", "2"), ("indoor", "no")]), expected(12));
}

#[test]
fn bus_stops() {
    let edits = built(&node(3, 4, &[("layer", "1")]), "bus_stop", &road_mask(&[]), None);
    assert_eq!(
        edits,
        vec![
            put(Block::CobblestoneWall, 3, 7, 4),
            put(Block::CobblestoneWall, 3, 8, 4),
            put(Block::CobblestoneWall, 3, 9, 4),
            put(Block::WhiteWool, 3, 10, 4),
            put(Block::WhiteWool, 4, 10, 4),
        ]
    );
}

fn banner(x: i32, y: i32, z: i32, facing: Facing) -> Edit {
    Edit::PlaceWallBanner {
        block: Block::LightGrayWallBanner,
        x,
        y,
        z,
        facing,
        color: DyeColor::LightGray,
        design: BannerDesign::TrafficSignal,
    }
}

fn head() -> Vec<Edit> {
    vec![
        put(Block::BlackWool, 3, 4, 4),
        put(Block::BlackWool, 3, 5, 4),
        banner(3, 65, 3, Facing::North),
        banner(3, 65, 5, Facing::South),
        banner(2, 65, 4, Facing::West),
        banner(4, 65, 4, Facing::East),
    ]
}

#[test]
fn traffic_signals_stand_beside_the_road() {
    let signal = node(3, 4, &[("crossing", "traffic_signals")]);
    let mut expected = vec![
        put(Block::CobblestoneWall, 3, 1, 4),
        put(Block::IronBars, 3, 2, 4),
        put(Block::IronBars, 3, 3, 4),
    ];
    expected.extend(head());
    assert_eq!(built(&signal, "crossing", &road_mask(&[]), Some((5, 4))), expected);
    assert_eq!(built(&signal, "crossing", &road_mask(&[(3, 4)]), None), expected);
}

#[test]
fn traffic_signals_hang_over_the_road() {
    let signal = node(3, 4, &[("crossing", "traffic_signals")]);
    let mut expected = vec![
        put(Block::CobblestoneWall, 5, 1, 4),
        put(Block::IronBars, 5, 2, 4),
        put(Block::IronBars, 5, 3, 4),
        put(Block::IronBars, 5, 4, 4),
        put(Block::IronBars, 5, 5, 4),
        put(Block::IronBars, 3, 6, 4),
        put(Block::IronBars, 4, 6, 4),
        put(Block::IronBars, 5, 6, 4),
    ];
    expected.extend(head());
    assert_eq!(built(&signal, "crossing", &road_mask(&[(3, 4)]), Some((5, 4))), expected);
}

#[test]
fn other_highway_nodes_build_nothing() {
    let mask = road_mask(&[(3, 4)]);
    assert!(built(&node(3, 4, &[]), "crossing", &mask, None).is_empty());
    assert!(built(&node(3, 4, &[("crossing", "zebra")]), "crossing", &mask, None).is_empty());
    assert!(built(&node(3, 4, &[]), "stop", &mask, None).is_empty());
}

fn place(element: ProcessedElement, suppressed: &[u64]) -> (Placement, Vec<Edit>) {
    let outlines: HashSet<u64> = suppressed.iter().copied().collect();
    let mut editor = WorldEditor::new(60);
    let placement = PlacedFeature::create_or_place(
        element,
        &outlines,
        &surfaces(),
        &mut editor,
        &road_mask(&[]),
        None,
    );
    (placement, editor.edits().clone())
}

fn place_way(id: u64, pairs: &[(&str, &str)]) -> Placement {
    let (placement, edits) = place(ProcessedElement::Way(way(id, pairs)), &[4]);
    assert!(edits.is_empty());
    placement
}

#[test]
fn buildings_come_first() {
    for key in ["building", "building:part"] {
        let all = [(key, "yes"), ("highway", "path"), ("layer", "-2")];
        let placement = place_way(3, &all);
        assert_eq!(placement.layer(), Some(-2));
        assert!(matches!(placement, Placement::QueueBuilding { layer: -2, way: w } if w.id == 3));
        let skipped = place_way(4, &all);
        assert_eq!(skipped.layer(), None);
        assert!(matches!(skipped, Placement::Nothing));
    }
    assert!(matches!(place_way(4, &[("highway", "path")]), Placement::Queue { .. }));
}

#[test]
fn highways_are_queued_on_their_layer() {
    let pairs = [("highway", "path"), ("landuse", "grass"), ("layer", "3")];
    match place_way(3, &pairs) {
        Placement::Queue { layer, feature } => {
            assert_eq!(layer, 3);
            let path = placed_feature(way(3, &pairs), "path", &surfaces());
            assert_eq!(shown(&feature), shown(&path));
        }
        other => panic!("{:?}", other),
    }
    let odd = place_way(3, &[("highway", "path"), ("layer", "top")]);
    assert_eq!(odd.layer(), Some(0));
}

#[test]
fn landuse_is_placed_at_once() {
    let placement = place_way(3, &[("landuse", "grass"), ("natural", "wood"), ("layer", "3")]);
    assert_eq!(placement.layer(), None);
    match placement {
        Placement::PlaceLanduse { ways, landuse } => {
            assert_eq!(ways.len(), 1);
            assert_eq!(ways[0].id, 3);
            assert_eq!(landuse, "grass");
        }
        other => panic!("{:?}", other),
    }
}

#[test]
fn natural_ways_are_placed_at_once() {
    let placement = place_way(3, &[("natural", "wood"), ("amenity", "park"), ("layer", "3")]);
    assert_eq!(placement.layer(), None);
    match placement {
        Placement::PlaceNatural { way: w, natural } => {
            assert_eq!(w.id, 3);
            assert_eq!(natural, "wood");
        }
        other => panic!("{:?}", other),
    }
}

#[test]
fn themes_in_order() {
    let order = [
        ("amenity", Theme::Amenity),
        ("leisure", Theme::Leisure),
        ("barrier", Theme::Barrier),
    ];
    for first in 0..3 {
        let pairs: Vec<(&str, &str)> = order[first..].iter().map(|t| (t.0, t.0)).collect();
        match place_way(3, &pairs) {
            Placement::QueueWay { layer, theme, way: w, value } => {
                assert_eq!(layer, 0);
                assert_eq!(theme, order[first].1);
                assert_eq!(value, order[first].0);
                assert_eq!(w, way(3, &pairs));
            }
            other => panic!("{:?}", other),
        }
    }
    assert!(matches!(place_way(3, &[("shop", "books")]), Placement::Nothing));
}

fn place_node(pairs: &[(&str, &str)]) -> (Placement, Vec<Edit>) {
    place(ProcessedElement::Node(node(3, 4, pairs)), &[])
}

fn simple(blocks: Vec<(i32, Block)>) -> PlacedFeature {
    PlacedFeature::SimpleFeature {
        x: 3,
        z: 4,
        blocks: blocks
            .into_iter()
            .map(|b| (0, b.0, 0, BlockWithProperties::simple(b.1)))
            .collect(),
    }
}

fn queued(pairs: &[(&str, &str)]) -> (i32, String) {
    match place_node(pairs) {
        (Placement::Queue { layer, feature }, edits) => {
            assert!(edits.is_empty());
            (layer, shown(&feature))
        }
        other => panic!("{:?}", other),
    }
}

#[test]
fn nodes_that_become_features() {
    let door = simple(vec![
        (0, Block::GrayConcrete),
        (1, Block::DarkOakDoorLower),
        (2, Block::DarkOakDoorUpper),
    ]);
    let other_door = simple(vec![
        (0, Block::GrayConcrete),
        (1, Block::DarkOakDoorLower),
        (2, Block::DarkOakDoorUpper),
    ]);
    assert_eq!(queued(&[("door", "yes"), ("layer", "2")]), (2, shown(&door)));
    assert_eq!(queued(&[("entrance", "main"), ("natural", "tree")]), (0, shown(&other_door)));
    let tree = [("natural", "tree"), ("amenity", "bench"), ("layer", "-1")];
    let planted = PlacedFeature::Tree { x: 3, z: 4, tags: tags(&tree) };
    assert_eq!(queued(&tree), (-1, shown(&planted)));
    let bollard = simple(vec![(1, Block::CobblestoneWall)]);
    assert_eq!(queued(&[("barrier", "bollard"), ("highway", "street_lamp")]), (0, shown(&bollard)));
    let block = simple(vec![(1, Block::Stone)]);
    assert_eq!(queued(&[("barrier", "block")]), (0, shown(&block)));
}

#[test]
fn nodes_that_become_amenities() {
    match place_node(&[("amenity", "bench"), ("barrier", "bollard"), ("natural", "peak")]).0 {
        Placement::QueueAmenity { layer, node: n, value } => {
            assert_eq!(layer, 0);
            assert_eq!((n.x, n.z), (3, 4));
            assert_eq!(value, "bench");
        }
        other => panic!("{:?}", other),
    }
}

#[test]
fn highway_nodes_are_built_at_once() {
    let (placement, edits) = place_node(&[("barrier", "gate"), ("highway", "street_lamp")]);
    assert!(matches!(placement, Placement::Nothing));
    assert_eq!(edits.len(), 5);
    let (nothing, none) = place_node(&[("barrier", "gate")]);
    assert!(matches!(nothing, Placement::Nothing));
    assert!(none.is_empty());
}

fn relation(pairs: &[(&str, &str)]) -> ProcessedElement {
    let member = |id: u64, role: ProcessedMemberRole| ProcessedMember {
        role,
        way: way(id, &[("own", "tag")]),
    };
    ProcessedElement::Relation(ProcessedRelation {
        id: 5,
        members: vec![
            member(10, ProcessedMemberRole::Outer),
            member(11, ProcessedMemberRole::Inner),
            member(12, ProcessedMemberRole::Part),
            member(13, ProcessedMemberRole::Outer),
        ],
        tags: tags(pairs),
    })
}

#[test]
fn multipolygons_place_their_outer_ways() {
    let pairs = [("type", "multipolygon"), ("landuse", "forest")];
    match place(relation(&pairs), &[10]).0 {
        Placement::PlaceLanduse { ways, landuse } => {
            assert_eq!(landuse, "forest");
            assert_eq!(ways, vec![way(10, &pairs), way(13, &pairs)]);
        }
        other => panic!("{:?}", other),
    }
    let plain = [("type", "multipolygon"), ("natural", "wood")];
    assert!(matches!(place(relation(&plain), &[]).0, Placement::Nothing));
    let route = [("type", "route"), ("landuse", "forest")];
    assert!(matches!(place(relation(&route), &[]).0, Placement::Nothing));
}
