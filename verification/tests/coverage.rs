use roadworks::coords::{XZBBox, XZPoint};
use roadworks::highways::{
    collect_building_passage_coords, collect_road_surface_coords, highway_block_range,
};
use roadworks::osm::{ProcessedElement, ProcessedNode, ProcessedWay};
use roadworks::scale::Scale;
use roadworks::tags::Tags;

fn node(x: i32, z: i32) -> ProcessedNode {
    ProcessedNode { id: 0, x, z, tags: Tags::new() }
}

fn road(points: &[(i32, i32)], tags: Tags) -> ProcessedElement {
    ProcessedElement::Way(ProcessedWay {
        id: 1,
        nodes: points.iter().map(|p| node(p.0, p.1)).collect(),
        tags,
    })
}

fn scale(s: f64) -> Scale {
    Scale::from_bits(s.to_bits())
}

fn bbox() -> XZBBox {
    XZBBox { min: XZPoint { x: -10, z: -10 }, max: XZPoint { x: 20, z: 20 } }
}

#[test]
fn half_widths_by_type() {
    let cases = [
        ("footway", 1),
        ("pedestrian", 1),
        ("path", 1),
        ("motorway", 5),
        ("primary", 5),
        ("trunk", 5),
        ("secondary", 4),
        ("tertiary", 2),
        ("track", 1),
        ("service", 2),
        ("secondary_link", 1),
        ("tertiary_link", 1),
        ("escape", 1),
        ("steps", 1),
        ("residential", 2),
    ];
    for (highway, range) in cases {
        assert_eq!(highway_block_range(highway, &Tags::new(), scale(1.0)), range);
        assert_eq!(highway_block_range(highway, &Tags::new(), scale(3.0)), range);
        for s in [0.0, 0.1, 0.2, 1.0 / 3.0, 0.5, 0.6, 0.99] {
            let expected = ((range as f64) * s).floor() as i32;
            assert_eq!(highway_block_range(highway, &Tags::new(), scale(s)), expected);
        }
    }
    for (lanes, range) in [("1", 2), ("2", 3), ("3", 4), ("many", 4), ("", 4)] {
        let tags = Tags::new().with("lanes", lanes);
        assert_eq!(highway_block_range("residential", &tags, scale(1.0)), range);
        assert_eq!(highway_block_range("motorway", &tags, scale(1.0)), 5);
    }
}

#[test]
fn road_surface_is_the_stamped_line() {
    let elements = vec![road(&[(0, 0), (6, 0)], Tags::new().with("highway", "path"))];
    let bitmap = collect_road_surface_coords(&elements, &bbox(), scale(1.0));
    for x in -12..=22 {
        for z in -12..=22 {
            let expected = (-1..=7).contains(&x) && (-1..=1).contains(&z);
            assert_eq!(bitmap.contains(x, z), expected, "{} {}", x, z);
        }
    }
    let narrow = collect_road_surface_coords(&elements, &bbox(), scale(0.5));
    assert!(narrow.contains(3, 0));
    assert!(!narrow.contains(3, 1));
}

#[test]
fn roads_are_cut_at_the_rectangle() {
    let elements = vec![road(&[(-30, 0), (0, 0)], Tags::new().with("highway", "primary"))];
    let bitmap = collect_road_surface_coords(&elements, &bbox(), scale(1.0));
    assert!(bitmap.contains(-10, 5));
    assert!(!bitmap.contains(-11, 0));
    assert!(!bitmap.contains(-10, 6));
}

#[test]
fn excluded_ways_cover_nothing() {
    let highway = || Tags::new().with("highway", "path");
    let excluded = [
        Tags::new(),
        Tags::new().with("highway", "street_lamp"),
        Tags::new().with("highway", "crossing"),
        Tags::new().with("highway", "bus_stop"),
        highway().with("area", "yes"),
        highway().with("indoor", "yes"),
        highway().with("level", "-1"),
    ];
    for tags in excluded {
        let elements = vec![road(&[(0, 0), (6, 0)], tags)];
        let bitmap = collect_road_surface_coords(&elements, &bbox(), scale(1.0));
        assert!(!bitmap.contains(0, 0));
    }
    let included = [
        highway().with("area", "no"),
        highway().with("indoor", "no"),
        highway().with("level", "0"),
        highway().with("level", "-1.5"),
        highway().with("layer", "-1"),
    ];
    for tags in included {
        let elements = vec![ProcessedElement::Node(node(0, 0)), road(&[(0, 0), (6, 0)], tags)];
        let bitmap = collect_road_surface_coords(&elements, &bbox(), scale(1.0));
        assert!(bitmap.contains(0, 0));
        assert!(bitmap.contains(6, 0));
    }
    let single = vec![road(&[(0, 0)], highway())];
    assert!(!collect_road_surface_coords(&single, &bbox(), scale(1.0)).contains(0, 0));
}

#[test]
fn passages_are_highways_through_buildings() {
    let passage = Tags::new().with("tunnel", "building_passage");
    let elements = vec![
        road(&[(0, 0), (6, 0)], Tags::new().with("highway", "path")),
        road(&[(0, 10), (6, 10)], passage.clone()),
        road(&[(0, 5), (6, 5)], passage.clone().with("highway", "service")),
        road(&[(0, -5), (6, -5)], Tags::new().with("highway", "path").with("tunnel", "yes")),
    ];
    let bitmap = collect_building_passage_coords(&elements, &bbox(), scale(1.0));
    for x in -12..=22 {
        for z in -12..=22 {
            let expected = (-2..=8).contains(&x) && (3..=7).contains(&z);
            assert_eq!(bitmap.contains(x, z), expected);
        }
    }
    let none = collect_building_passage_coords(&elements[..2], &bbox(), scale(1.0));
    assert!(!none.contains(0, 0));
    assert!(!none.contains(0, 10));
}

#[test]
fn coverage_joins_all_roads() {
    let path = || Tags::new().with("highway", "path");
    let first = road(&[(0, 0), (3, 0)], path());
    let second = road(&[(10, 10), (10, 13)], path());
    let both = vec![second.clone_for_test(), first.clone_for_test()];
    let joined = collect_road_surface_coords(&both, &bbox(), scale(1.0));
    let a = collect_road_surface_coords(&[first], &bbox(), scale(1.0));
    let b = collect_road_surface_coords(&[second], &bbox(), scale(1.0));
    for x in -10..=20 {
        for z in -10..=20 {
            assert_eq!(joined.contains(x, z), a.contains(x, z) || b.contains(x, z));
        }
    }
}

trait CloneForTest {
    fn clone_for_test(&self) -> ProcessedElement;
}

impl CloneForTest for ProcessedElement {
    fn clone_for_test(&self) -> ProcessedElement {
        match self {
            ProcessedElement::Way(way) => ProcessedElement::Way(way.clone()),
            other => panic!("{:?}", other),
        }
    }
}

#[test]
fn half_widths_grow_with_the_scale() {
    let scales = [0.0, 5e-324, 1e-300, 0.19, 0.2, 0.3, 0.5, 0.8, 0.999999, 1.0, 7.5, f64::INFINITY];
    for highway in ["motorway", "secondary", "residential", "path"] {
        let widths: Vec<i32> = scales
            .iter()
            .map(|s| highway_block_range(highway, &Tags::new(), scale(*s)))
            .collect();
        assert!(widths.windows(2).all(|w| w[0] <= w[1]));
        assert_eq!(widths[0], 0);
    }
}

#[test]
fn passages_lie_on_roads() {
    let passage = Tags::new().with("highway", "service").with("tunnel", "building_passage");
    let elements = [
        road(&[(0, 0), (6, 3)], passage),
        road(&[(0, 9), (6, 9)], Tags::new().with("highway", "path")),
    ];
    let passages = collect_building_passage_coords(&elements, &bbox(), scale(1.0));
    let roads = collect_road_surface_coords(&elements, &bbox(), scale(1.0));
    let mut count = 0;
    for x in -10..=20 {
        for z in -10..=20 {
            if passages.contains(x, z) {
                count += 1;
                assert!(roads.contains(x, z));
            }
        }
    }
    assert!(count > 0);
    assert!(roads.contains(3, 9) && !passages.contains(3, 9));
}

#[test]
fn collected_columns_can_be_added_to() {
    let passage = Tags::new().with("highway", "path").with("tunnel", "building_passage");
    let elements = [road(&[(0, 0), (1, 0)], passage)];
    let mut passages = collect_building_passage_coords(&elements, &bbox(), scale(1.0));
    let mut roads = collect_road_surface_coords(&elements, &bbox(), scale(1.0));
    let mut none = collect_building_passage_coords(&[], &bbox(), scale(1.0));
    for mask in [&mut passages, &mut roads] {
        assert!(!mask.contains(20, -10));
        mask.set(20, -10);
        assert!(mask.contains(20, -10));
        mask.set(21, 0);
        assert!(!mask.contains(21, 0));
    }
    none.set(20, -10);
    assert!(!none.contains(20, -10));
}
