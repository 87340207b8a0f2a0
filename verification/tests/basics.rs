use roadworks::bitmap::CoordinateBitmap;
use roadworks::blocks::{BannerDesign, BannerShape, Block, DyeColor, Facing};
use roadworks::bresenham::bresenham_line;
use roadworks::coords::{CellMap, XZBBox, XZPoint};
use roadworks::osm::{ProcessedElement, ProcessedNode};
use roadworks::palettes::SurfaceTable;
use roadworks::scale::Scale;
use roadworks::tags::Tags;
use roadworks::text::str_eq;
use roadworks::world_editor::{Edit, WorldEditor};

#[test]
fn strings_compare_by_content() {
    assert!(str_eq("", ""));
    assert!(str_eq("straße", "straße"));
    assert!(!str_eq("straße", "strasse"));
    assert!(!str_eq("road", "roads"));
    assert!(!str_eq("road", "rood"));
}

#[test]
fn tags_replace_and_compare() {
    let tags = Tags::new().with("highway", "path").with("layer", "1").with("highway", "steps");
    assert_eq!(tags.get("highway").unwrap(), "steps");
    assert_eq!(tags.get("layer").unwrap(), "1");
    assert!(tags.get("width").is_none());
    assert!(tags.contains_key("layer"));
    assert!(!tags.contains_key("Layer"));
    assert!(tags.holds("layer", "1"));
    assert!(!tags.holds("layer", "2"));
    assert_eq!(tags, Tags::new().with("layer", "1").with("highway", "steps"));
    assert_ne!(tags, Tags::new().with("highway", "steps"));
    assert_ne!(Tags::new().with("highway", "steps"), tags);
    assert_eq!(tags, tags.clone());
}

#[test]
fn numbers_in_tags() {
    let cases = [
        ("7", 7),
        ("+7", 7),
        ("-7", -7),
        ("007", 7),
        ("-0", 0),
        ("2147483647", 2147483647),
        ("2147483648", 0),
        ("-2147483648", -2147483648),
        ("-2147483649", 0),
        ("", 0),
        ("+", 0),
        ("-", 0),
        ("--1", 0),
        ("+-1", 0),
        ("1.5", 0),
        (" 1", 0),
        ("1 ", 0),
        ("1_000", 0),
        ("٣", 0),
    ];
    for (text, number) in cases {
        assert_eq!(Tags::new().with("layer", text).number_or_zero("layer"), number);
    }
    assert_eq!(Tags::new().number_or_zero("layer"), 0);
}

#[test]
fn elements_give_their_tags() {
    let node = ProcessedNode { id: 1, x: 2, z: 3, tags: Tags::new().with("a", "b") };
    assert_eq!(node.xz(), XZPoint { x: 2, z: 3 });
    let element = ProcessedElement::Node(node);
    assert!(element.tags().holds("a", "b"));
}

#[test]
fn cells_hold_one_value_each() {
    let mut map: CellMap<i32> = CellMap::new();
    assert!(map.is_empty());
    map.insert(i32::MIN, i32::MAX, 1);
    map.insert(-1, 0, 2);
    map.insert(0, -1, 3);
    map.insert(0, -1, 4);
    assert!(!map.is_empty());
    assert_eq!(map.get(i32::MIN, i32::MAX), Some(&1));
    assert_eq!(map.get(-1, 0), Some(&2));
    assert_eq!(map.get(0, -1), Some(&4));
    assert_eq!(map.get(0, 0), None);
    assert_eq!(map.remove(-1, 0), Some(2));
    assert_eq!(map.remove(-1, 0), None);
    assert_eq!(map.get(0, -1), Some(&4));
}

#[test]
fn bitmap_keeps_to_its_rectangle() {
    let bbox = XZBBox { min: XZPoint { x: -2, z: 5 }, max: XZPoint { x: 3, z: 7 } };
    let mut bitmap = CoordinateBitmap::new(&bbox);
    bitmap.set(-2, 5);
    bitmap.set(3, 7);
    bitmap.set(4, 7);
    bitmap.set(0, 8);
    for x in -4..6 {
        for z in 3..10 {
            let expected = (x, z) == (-2, 5) || (x, z) == (3, 7);
            assert_eq!(bitmap.contains(x, z), expected);
        }
    }
    let mut empty = CoordinateBitmap::new_empty();
    empty.set(0, 0);
    empty.set(-1, -1);
    assert!(!empty.contains(0, 0));
    assert!(!empty.contains(-1, -1));
}

#[test]
fn lines_are_bresenham_lines() {
    assert_eq!(bresenham_line(3, 4, 5, 3, 4, 5), vec![(3, 4, 5)]);
    assert_eq!(
        bresenham_line(0, 0, 0, 5, 0, 2),
        vec![(0, 0, 0), (1, 0, 0), (2, 0, 1), (3, 0, 1), (4, 0, 2), (5, 0, 2)]
    );
    assert_eq!(
        bresenham_line(0, 7, 0, -1, 7, 4),
        vec![(0, 7, 0), (0, 7, 1), (-1, 7, 2), (-1, 7, 3), (-1, 7, 4)]
    );
    assert_eq!(bresenham_line(0, 0, 0, 1, 3, 1).len(), 4);
}

/// The textbook algorithm, with its error terms written out.
fn textbook_line(x1: i32, z1: i32, x2: i32, z2: i32) -> Vec<(i32, i32, i32)> {
    let (dx, dz) = ((x2 - x1).abs(), (z2 - z1).abs());
    let (sx, sz) = (if x1 < x2 { 1 } else { -1 }, if z1 < z2 { 1 } else { -1 });
    let (mut x, mut z) = (x1, z1);
    let mut points = Vec::new();
    if dx >= dz {
        let mut p = 2 * dz - dx;
        while x != x2 {
            points.push((x, 0, z));
            if p >= 0 {
                z += sz;
                p -= 2 * dx;
            }
            p += 2 * dz;
            x += sx;
        }
    } else {
        let mut p = 2 * dx - dz;
        while z != z2 {
            points.push((x, 0, z));
            if p >= 0 {
                x += sx;
                p -= 2 * dz;
            }
            p += 2 * dx;
            z += sz;
        }
    }
    points.push((x2, 0, z2));
    points
}

#[test]
fn lines_follow_the_error_terms() {
    for x in -9..=9 {
        for z in -9..=9 {
            assert_eq!(bresenham_line(2, 0, -3, x, 0, z), textbook_line(2, -3, x, z));
        }
    }
}

#[test]
fn scale_products_round_like_doubles() {
    let scales = [
        0.0,
        -0.0,
        1.0,
        0.5,
        0.2,
        0.1,
        1.0 / 3.0,
        2.0 / 3.0,
        0.25,
        0.6,
        0.7,
        0.999999999999999,
        0.9999999999999999,
        1.0000000000000002,
        1.25,
        2.0,
        7.3,
        1e9,
        1e300,
        f64::MAX,
        f64::MIN_POSITIVE,
        5e-324,
        -0.5,
        -0.2,
        -1.0 / 3.0,
        -1e300,
        -5e-324,
        f64::INFINITY,
        f64::NEG_INFINITY,
        f64::NAN,
    ];
    for s in scales {
        let scale = Scale::from_bits(s.to_bits());
        assert_eq!(scale.less_than_one(), s < 1.0, "{}", s);
        for n in 1..=12 {
            assert_eq!(scale.floor_times(n), (n as f64 * s).floor() as i32, "{} {}", n, s);
            assert_eq!(scale.ceiling_times(n), (n as f64 * s).ceil() as i32, "{} {}", n, s);
        }
    }
    for i in 0..2000 {
        let s = i as f64 / 997.0;
        let scale = Scale::from_bits(s.to_bits());
        assert_eq!(scale.less_than_one(), s < 1.0);
        for n in 1..=12 {
            assert_eq!(scale.floor_times(n), (n as f64 * s).floor() as i32);
            assert_eq!(scale.ceiling_times(n), (n as f64 * s).ceil() as i32);
        }
    }
}

#[test]
fn a_third_times_three_is_one() {
    let third = Scale::from_bits((1.0f64 / 3.0).to_bits());
    assert_eq!(third.floor_times(3), 1);
    assert_eq!(third.floor_times(5), 1);
    assert_eq!(third.ceiling_times(5), 2);
}

#[test]
fn surfaces_are_looked_up_by_name() {
    let mut table = SurfaceTable::new();
    table.insert("sand", vec![Block::Sand]);
    table.insert("asphalt", vec![Block::GrayConcretePowder, Block::CyanTerracotta]);
    table.insert("sand", vec![Block::Other(5)]);
    assert_eq!(table.get("sand"), Some(&vec![Block::Other(5)]));
    assert_eq!(table.get("asphalt").unwrap().len(), 2);
    assert_eq!(table.get("mud"), None);
}

#[test]
fn editor_reads_the_terrain_and_logs_edits() {
    let mut editor = WorldEditor::new(60);
    editor.describe_ground(1, 2, 70);
    editor.describe_surface(1, 2, Block::WhiteConcrete);
    assert_eq!(editor.get_ground_level(1, 2), 70);
    assert_eq!(editor.get_ground_level(2, 1), 60);
    assert_eq!(editor.get_absolute_y(1, -3, 2), 67);
    assert!(editor.check_for_block(1, 2, &vec![Block::Stone, Block::WhiteConcrete]));
    assert!(!editor.check_for_block(1, 2, &vec![Block::Stone]));
    assert!(!editor.check_for_block(2, 1, &vec![Block::WhiteConcrete]));
    editor.set_block(Block::Stone, 1, 2, 3);
    editor.set_block_absolute(Block::Sand, 4, 5, 6);
    assert_eq!(
        *editor.edits(),
        vec![
            Edit::SetBlock { block: Block::Stone, x: 1, y: 2, z: 3 },
            Edit::SetBlockAbsolute { block: Block::Sand, x: 4, y: 5, z: 6 },
        ]
    );
}

#[test]
fn editor_sees_what_was_built() {
    let road = vec![Block::BlackConcrete];
    let mut editor = WorldEditor::new(60);
    editor.describe_ground(1, 2, 70);
    editor.set_block(Block::BlackConcrete, 1, 1, 2);
    editor.set_block_absolute(Block::BlackConcrete, 1, 60, 2);
    assert!(!editor.check_for_block(1, 2, &road));
    editor.set_block(Block::BlackConcrete, 1, 0, 2);
    assert!(editor.check_for_block(1, 2, &road));
    assert!(!editor.check_for_block(2, 1, &road));
    editor.set_block_absolute(Block::Stone, 1, 70, 2);
    assert!(!editor.check_for_block(1, 2, &road));
    assert!(editor.check_for_block(1, 2, &vec![Block::Stone]));
    editor.set_block(Block::BlackConcrete, 3, 0, 3);
    let (color, design) = (DyeColor::LightGray, BannerDesign::TrafficSignal);
    let banner = Block::LightGrayWallBanner;
    editor.place_wall_banner(banner, 3, 61, 3, Facing::North, color, design);
    assert!(editor.check_for_block(3, 3, &road));
    editor.place_wall_banner(banner, 3, 60, 3, Facing::North, color, design);
    assert!(!editor.check_for_block(3, 3, &road));
    assert_eq!(editor.get_ground_level(1, 2), 70);
    assert_eq!(editor.get_ground_level(3, 3), 60);
    assert_eq!(editor.edits().len(), 7);
}

#[test]
fn names_of_banner_parts() {
    assert_eq!(Facing::North.name(), "north");
    assert_eq!(Facing::South.name(), "south");
    assert_eq!(Facing::West.name(), "west");
    assert_eq!(Facing::East.name(), "east");
    assert_eq!(DyeColor::LightGray.name(), "light_gray");
    let patterns: Vec<(&str, &str)> = BannerDesign::TrafficSignal
        .patterns()
        .iter()
        .map(|p: &(DyeColor, BannerShape)| (p.0.name(), p.1.id()))
        .collect();
    assert_eq!(
        patterns,
        vec![
            ("red", "minecraft:triangle_top"),
            ("lime", "minecraft:triangle_bottom"),
            ("yellow", "minecraft:circle"),
            ("black", "minecraft:curly_border"),
            ("black", "minecraft:border"),
        ]
    );
}
