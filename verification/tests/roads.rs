use roadworks::blocks::Block;
use roadworks::highways::{
    add_highway_support_pillar, add_highway_support_pillar_absolute,
    build_highway_connectivity_map, calculate_point_elevation, calculate_way_length,
    generate_aeroway, generate_siding, perpendicular_median_ground_y, perpendicular_median_raw,
    precompute_row_medians, should_add_slope_at_node, HighwayConnectivityMap,
};
use roadworks::osm::{ProcessedElement, ProcessedNode, ProcessedWay};
use roadworks::scale::{Args, Scale};
use roadworks::tags::Tags;
use roadworks::world_editor::{Edit, WorldEditor};

fn node(x: i32, z: i32) -> ProcessedNode {
    ProcessedNode { id: 0, x, z, tags: Tags::new() }
}

fn way(points: &[(i32, i32)], tags: Tags) -> ProcessedWay {
    ProcessedWay { id: 1, nodes: points.iter().map(|p| node(p.0, p.1)).collect(), tags }
}

#[test]
fn median_across_the_road() {
    let mut editor = WorldEditor::new(0);
    for (z, level) in [(8, 9), (9, 1), (10, 5), (11, 7), (12, 3)] {
        editor.describe_ground(4, z, level);
        editor.describe_ground(z, 4, level + 100);
    }
    assert_eq!(perpendicular_median_raw(&editor, 4, 99, 77, 10, 2, true), 5);
    assert_eq!(perpendicular_median_raw(&editor, 99, 4, 10, 77, 2, false), 105);
    assert_eq!(perpendicular_median_raw(&editor, 4, 0, 0, 9, 0, true), 1);
    assert_eq!(perpendicular_median_raw(&editor, 4, 0, 0, 9, 1, true), 5);
}

#[test]
fn single_block_holes_are_smoothed_and_ramps_kept() {
    let mut editor = WorldEditor::new(1);
    for z in -8..=8 {
        editor.describe_ground(0, z, 0);
    }
    for x in 0..20 {
        assert_eq!(perpendicular_median_ground_y(&editor, x - 10, 3, x, 0, 8, true), 1);
    }
    let mut ramp = WorldEditor::new(0);
    for x in -10..10 {
        for z in -10..10 {
            ramp.describe_ground(x, z, 2 * z);
        }
    }
    for z in -8..8 {
        assert_eq!(perpendicular_median_ground_y(&ramp, 5, z, 0, 0, 3, false), 2 * z);
    }
}

#[test]
fn row_table_serves_every_cell_of_the_stamp() {
    let mut editor = WorldEditor::new(0);
    for x in -12..=12 {
        for z in -12..=12 {
            editor.describe_ground(x, z, (x * 7 + z * 13 + x * z) % 11);
        }
    }
    for horizontal in [true, false] {
        let mut table = [-1; 9];
        precompute_row_medians(&editor, 1, -2, 3, horizontal, &mut table);
        for dx in -3..=3i32 {
            for dz in -3..=3i32 {
                let axial = if horizontal { dx } else { dz };
                assert_eq!(
                    table[(axial + 3) as usize],
                    perpendicular_median_ground_y(&editor, 1 + dx, -2 + dz, 1, -2, 3, horizontal)
                );
            }
        }
        assert_eq!(table[7], -1);
        assert_eq!(table[8], -1);
    }
}

fn float_elevation(distance: usize, length: usize, base: i32, s: bool, e: bool, slope: usize) -> i32 {
    if !s && !e {
        return base;
    }
    if length == 0 || slope == 0 {
        return base;
    }
    if s && distance <= slope {
        return (base as f32 * (distance as f32 / slope as f32)) as i32;
    }
    if e && distance >= length.saturating_sub(slope) {
        return (base as f32 * ((length - distance) as f32 / slope as f32)) as i32;
    }
    base
}

#[test]
fn elevations_agree_with_floats() {
    let bases = [0, 1, -1, 6, 12, 18, -7, 96, 16777217, 2147483647, -2147483648, 123456789];
    for base in bases {
        for slope in [0, 1, 3, 7, 15, 35, 50] {
            for length in [0, 1, 10, 49, 100] {
                for distance in 0..=length {
                    for (s, e) in [(true, true), (true, false), (false, true), (false, false)] {
                        let expected = float_elevation(distance, length, base, s, e, slope);
                        let segments = usize::from(length > 0);
                        assert_eq!(
                            calculate_point_elevation(
                                0, distance, length, segments, base, s, e, slope
                            ),
                            expected,
                            "{} {} {} {}",
                            base,
                            slope,
                            length,
                            distance
                        );
                    }
                }
            }
        }
    }
}

#[test]
fn elevations_agree_with_floats_on_large_distances() {
    let mut state: u64 = 12345;
    for _ in 0..5000 {
        state = state.wrapping_mul(6364136223846793005).wrapping_add(1442695040888963407);
        let slope = ((state >> 20) as usize % 1_000_000_007) + 1;
        state = state.wrapping_mul(6364136223846793005).wrapping_add(1442695040888963407);
        let distance = (state >> 20) as usize % (slope + 1);
        state = state.wrapping_mul(6364136223846793005).wrapping_add(1442695040888963407);
        let base = (state >> 32) as i32;
        assert_eq!(
            calculate_point_elevation(0, distance, slope, 3, base, true, false, slope),
            float_elevation(distance, 3 * slope, base, true, false, slope)
        );
    }
}

#[test]
fn a_bridge_rises_and_falls() {
    let at = |segment, point| calculate_point_elevation(segment, point, 10, 4, 6, true, true, 12);
    assert_eq!(at(0, 0), 0);
    assert_eq!(at(0, 2), 1);
    assert_eq!(at(0, 6), 3);
    assert_eq!(at(1, 2), 6);
    assert_eq!(at(2, 0), 6);
    assert_eq!(at(3, 4), 3);
    assert_eq!(at(4, 0), 0);
}

#[test]
fn full_heights_are_rounded_to_single_precision() {
    let top = |base| calculate_point_elevation(0, 9, 9, 3, base, true, false, 9);
    assert_eq!(top(16777216), 16777216);
    assert_eq!(top(-16777216), -16777216);
    assert_eq!(top(16777219), 16777220);
    assert_eq!(top(i32::MAX), i32::MAX);
    assert_eq!(calculate_point_elevation(0, 10, 10, 1, 6, true, true, 12), 5);
    assert_eq!(calculate_point_elevation(0, 10, 10, 1, 6, false, true, 12), 0);
}

#[test]
fn way_lengths_agree_with_floats() {
    assert_eq!(calculate_way_length(&way(&[], Tags::new())), 0);
    assert_eq!(calculate_way_length(&way(&[(5, 5)], Tags::new())), 0);
    assert_eq!(calculate_way_length(&way(&[(0, 0), (3, 4), (3, 4), (4, 5)], Tags::new())), 6);
    let mut state: u64 = 99;
    for _ in 0..3000 {
        state = state.wrapping_mul(6364136223846793005).wrapping_add(1442695040888963407);
        let dx = (state >> 40) as i32 % 32000;
        state = state.wrapping_mul(6364136223846793005).wrapping_add(1442695040888963407);
        let dz = (state >> 40) as i32 % 32000;
        let expected = ((dx * dx + dz * dz) as f32).sqrt() as usize;
        let w = way(&[(7, -9), (7 - dx, -9 + dz)], Tags::new());
        assert_eq!(calculate_way_length(&w), expected);
    }
    for n in 0..46341 {
        let w = way(&[(0, 0), (n, 0)], Tags::new());
        assert_eq!(calculate_way_length(&w), ((n * n) as f32).sqrt() as usize);
    }
}

fn highway(points: &[(i32, i32)], layer: &str) -> ProcessedElement {
    let tags = Tags::new().with("highway", "primary").with("layer", layer);
    ProcessedElement::Way(way(points, tags))
}

#[test]
fn connectivity_lists_layers_in_order() {
    let elements = vec![
        highway(&[(0, 0), (5, 5), (9, 9)], "1"),
        highway(&[(9, 9), (20, 20)], "-2"),
        ProcessedElement::Way(way(&[(0, 0), (1, 1)], Tags::new().with("railway", "rail"))),
        highway(&[(9, 9), (30, 0), (9, 9)], "two"),
        highway(&[], "4"),
        highway(&[(0, 0)], "3"),
        ProcessedElement::Node(node(0, 0)),
    ];
    let map = build_highway_connectivity_map(&elements);
    assert_eq!(map.get(0, 0), Some(&vec![1, 3, 3]));
    assert_eq!(map.get(9, 9), Some(&vec![1, 0, 0, 0]));
    assert_eq!(map.get(20, 20), Some(&vec![0]));
    assert_eq!(map.get(5, 5), None);
    assert_eq!(map.get(1, 1), None);
    assert!(!map.is_empty());
    assert!(build_highway_connectivity_map(&[]).is_empty());
}

#[test]
fn slopes_where_layers_end() {
    let elements = vec![
        highway(&[(0, 0), (9, 9)], "1"),
        highway(&[(9, 9), (20, 20)], "1"),
        highway(&[(20, 20), (30, 30)], "0"),
    ];
    let map = build_highway_connectivity_map(&elements);
    assert!(should_add_slope_at_node(&node(0, 0), 1, &map));
    assert!(!should_add_slope_at_node(&node(9, 9), 1, &map));
    assert!(should_add_slope_at_node(&node(20, 20), 1, &map));
    assert!(!should_add_slope_at_node(&node(20, 20), 0, &map));
    assert!(should_add_slope_at_node(&node(50, 50), 2, &map));
    assert!(should_add_slope_at_node(&node(50, 50), -1, &map));
    assert!(!should_add_slope_at_node(&node(50, 50), 0, &map));
    let none = HighwayConnectivityMap::new();
    assert!(should_add_slope_at_node(&node(0, 0), 1, &none));
    assert!(!should_add_slope_at_node(&node(0, 0), 0, &none));
}

#[test]
fn pillars_under_highways() {
    let mut editor = WorldEditor::new(64);
    add_highway_support_pillar(&mut editor, 3, 4, 5, 1, 0, 2);
    add_highway_support_pillar(&mut editor, 3, 4, 4, 0, 0, 2);
    assert!(editor.edits().is_empty());
    add_highway_support_pillar(&mut editor, 3, 4, 5, 0, 0, 2);
    let mut expected = Vec::new();
    for y in 1..4 {
        expected.push(Edit::SetBlock { block: Block::StoneBricks, x: 3, y, z: 5 });
    }
    for dx in -1..=1 {
        for dz in -1..=1 {
            expected.push(Edit::SetBlock { block: Block::StoneBricks, x: 3 + dx, y: 0, z: 5 + dz });
        }
    }
    assert_eq!(*editor.edits(), expected);
}

#[test]
fn pillars_under_bridges() {
    let mut editor = WorldEditor::new(64);
    editor.describe_ground(-4, -4, 50);
    add_highway_support_pillar_absolute(&mut editor, -4, 50, -4, 0, 0, 2);
    add_highway_support_pillar_absolute(&mut editor, -4, 40, -4, 0, 0, 2);
    assert!(editor.edits().is_empty());
    add_highway_support_pillar_absolute(&mut editor, -4, 53, -4, 0, 0, 2);
    let mut expected = Vec::new();
    for y in 51..53 {
        expected.push(Edit::SetBlockAbsolute { block: Block::StoneBricks, x: -4, y, z: -4 });
    }
    for dx in -1..=1 {
        for dz in -1..=1 {
            let (x, z) = (-4 + dx, -4 + dz);
            expected.push(Edit::SetBlockAbsolute { block: Block::StoneBricks, x, y: 50, z });
        }
    }
    assert_eq!(*editor.edits(), expected);
}

#[test]
fn sidings_leave_roads_free() {
    let mut editor = WorldEditor::new(0);
    editor.describe_surface(1, 0, Block::WhiteConcrete);
    editor.describe_surface(2, 0, Block::BlackConcrete);
    editor.describe_surface(3, 0, Block::Stone);
    generate_siding(&mut editor, &way(&[(0, 0), (4, 0), (4, 1)], Tags::new()));
    let places: Vec<(i32, i32)> = editor
        .edits()
        .iter()
        .map(|e| match e {
            Edit::SetBlock { block: Block::StoneBrickSlab, x, y: 1, z } => (*x, *z),
            other => panic!("{:?}", other),
        })
        .collect();
    assert_eq!(places, vec![(0, 0), (3, 0), (4, 0), (4, 0), (4, 1)]);
}

fn slabs(editor: &WorldEditor) -> Vec<(i32, i32)> {
    editor
        .edits()
        .iter()
        .filter_map(|e| match e {
            Edit::SetBlock { block: Block::StoneBrickSlab, x, y: 1, z } => Some((*x, *z)),
            _ => None,
        })
        .collect()
}

#[test]
fn sidings_leave_new_roads_free() {
    let mut editor = WorldEditor::new(0);
    editor.describe_surface(1, 0, Block::WhiteConcrete);
    editor.set_block(Block::BlackConcrete, 2, 0, 0);
    editor.set_block(Block::BlackConcrete, 3, 1, 0);
    editor.set_block(Block::GrayConcretePowder, 4, 0, 0);
    editor.set_block(Block::Stone, 4, 0, 0);
    generate_siding(&mut editor, &way(&[(0, 0), (4, 0)], Tags::new()));
    assert_eq!(slabs(&editor), vec![(0, 0), (3, 0), (4, 0)]);
    editor.set_block(Block::Stone, 1, 0, 0);
    generate_siding(&mut editor, &way(&[(0, 0), (4, 0)], Tags::new()));
    assert_eq!(slabs(&editor), vec![(0, 0), (3, 0), (4, 0), (0, 0), (1, 0), (3, 0), (4, 0)]);
}

#[test]
fn pavement_and_pillars_cover_roads() {
    let mut editor = WorldEditor::new(0);
    for x in 0..5 {
        editor.describe_surface(x, 0, Block::WhiteConcrete);
    }
    let args = Args { scale: Scale::from_bits(0.0f64.to_bits()) };
    generate_aeroway(&mut editor, &way(&[(0, 0), (1, 0)], Tags::new()), &args);
    generate_siding(&mut editor, &way(&[(0, 0), (4, 0)], Tags::new()));
    assert_eq!(slabs(&editor), vec![(0, 0), (1, 0)]);
    add_highway_support_pillar_absolute(&mut editor, 4, 3, 4, 0, 0, 2);
    add_highway_support_pillar(&mut editor, 4, 3, -4, 0, 0, 2);
    assert!(editor.check_for_block(4, 4, &vec![Block::StoneBricks]));
    assert!(editor.check_for_block(3, -5, &vec![Block::StoneBricks]));
}

#[test]
fn way_lengths_add_up_in_both_directions() {
    let points = [(0, 0), (3, 4), (3, 5), (10, 12), (0, 12)];
    let length = |p: &[(i32, i32)]| calculate_way_length(&way(p, Tags::new()));
    assert_eq!(length(&points), 5 + 1 + 9 + 10);
    for k in 0..points.len() {
        assert_eq!(length(&points[..=k]) + length(&points[k..]), length(&points));
    }
    let back: Vec<(i32, i32)> = points.iter().rev().copied().collect();
    assert_eq!(length(&back), length(&points));
}

#[test]
fn connections_of_two_lists() {
    let highway = |points: &[(i32, i32)], layer: &str| {
        ProcessedElement::Way(way(
            points,
            Tags::new().with("highway", "path").with("layer", layer),
        ))
    };
    let first = [highway(&[(0, 0), (5, 0)], "1"), highway(&[(5, 0), (5, 0)], "2")];
    let second = [highway(&[(5, 0), (9, 9)], "3"), highway(&[], "4")];
    let both = [
        highway(&[(0, 0), (5, 0)], "1"),
        highway(&[(5, 0), (5, 0)], "2"),
        highway(&[(5, 0), (9, 9)], "3"),
        highway(&[], "4"),
    ];
    let at = |map: &HighwayConnectivityMap, x: i32, z: i32| -> Vec<i32> {
        map.get(x, z).cloned().unwrap_or_default()
    };
    let (a, b) = (build_highway_connectivity_map(&first), build_highway_connectivity_map(&second));
    let all = build_highway_connectivity_map(&both);
    let mut entries = 0;
    for (x, z) in [(0, 0), (5, 0), (9, 9), (1, 1)] {
        let mut parts = at(&a, x, z);
        parts.extend(at(&b, x, z));
        assert_eq!(at(&all, x, z), parts);
        entries += parts.len();
    }
    assert_eq!(at(&all, 5, 0), vec![1, 2, 2, 3]);
    assert_eq!(entries, 2 * 3);
}

#[test]
fn aeroways_scale_their_width() {
    for (scale, width) in [(0.1f64, 2), (0.25, 3), (0.0, 0)] {
        let mut editor = WorldEditor::new(0);
        let args = Args { scale: Scale::from_bits(scale.to_bits()) };
        generate_aeroway(&mut editor, &way(&[(10, 10), (11, 10)], Tags::new()), &args);
        let mut expected = Vec::new();
        for x in 10..=11 {
            for dx in -width..=width {
                for dz in -width..=width {
                    let block = Block::LightGrayConcrete;
                    expected.push(Edit::SetBlock { block, x: x + dx, y: 0, z: 10 + dz });
                }
            }
        }
        assert_eq!(*editor.edits(), expected);
    }
    let mut editor = WorldEditor::new(0);
    let args = Args { scale: Scale::from_bits(1.0f64.to_bits()) };
    generate_aeroway(&mut editor, &way(&[(0, 0), (0, 0)], Tags::new()), &args);
    assert_eq!(editor.edits().len(), 625);
    generate_aeroway(&mut editor, &way(&[(0, 0)], Tags::new()), &args);
    assert_eq!(editor.edits().len(), 625);
}
