//! Which block columns roads cover.

use crate::bitmap::CoordinateBitmap;
use crate::bresenham;
use crate::bresenham::span;
use crate::coords::XZBBox;
use crate::highways::surfaces;
use crate::osm::ProcessedElement;
use crate::osm::ProcessedNode;
use crate::scale::Scale;
use crate::tags;
use crate::tags::Tags;
use crate::text;
use vstd::prelude::*;

verus! {

/// The half-width of a highway of the given type in a world of usual size.
pub open spec fn unscaled_range(
    highway_type: Seq<char>,
    tags: Map<Seq<char>, Seq<char>>,
) -> int {
    let t = highway_type;
    if t == "motorway"@ || t == "primary"@ || t == "trunk"@ {
        5
    } else if t == "secondary"@ {
        4
    } else if t == "tertiary"@ || t == "service"@ {
        2
    } else if t == "footway"@ || t == "pedestrian"@ || t == "path"@ || t == "track"@ || t
        == "secondary_link"@ || t == "tertiary_link"@ || t == "escape"@ || t == "steps"@ {
        1
    } else if !tags.contains_key("lanes"@) || tags["lanes"@] == "1"@ {
        2
    } else if tags["lanes"@] == "2"@ {
        3
    } else {
        4
    }
}

/// The half-width of a highway: scales below one make it smaller, rounding
/// down; scales above one leave it as it is.
pub open spec fn block_range(
    highway_type: Seq<char>,
    tags: Map<Seq<char>, Seq<char>>,
    scale: Scale,
) -> i32 {
    let range = unscaled_range(highway_type, tags);
    if scale.below_one() {
        scale.floor_of_product(range)
    } else {
        range as i32
    }
}

fn unscaled_block_range(highway_type: &str, tags: &Tags) -> (r: i32)
    ensures
        r == unscaled_range(highway_type@, tags@),
        1 <= r <= 5,
{
    if text::str_eq(highway_type, "motorway") || text::str_eq(highway_type, "primary")
        || text::str_eq(highway_type, "trunk") {
        5
    } else if text::str_eq(highway_type, "secondary") {
        4
    } else if text::str_eq(highway_type, "tertiary") || text::str_eq(highway_type, "service") {
        2
    } else if text::str_eq(highway_type, "footway") || text::str_eq(highway_type, "pedestrian")
        || text::str_eq(highway_type, "path") || text::str_eq(highway_type, "track")
        || text::str_eq(highway_type, "secondary_link") || text::str_eq(
        highway_type,
        "tertiary_link",
    ) || text::str_eq(highway_type, "escape") || text::str_eq(highway_type, "steps") {
        1
    } else {
        match tags.get("lanes") {
            Some(lanes) => {
                if text::str_eq(lanes.as_str(), "2") {
                    proof {
                        reveal_strlit("1");
                        reveal_strlit("2");
                        assert("1"@[0] != "2"@[0]);
                    }
                    3
                } else if text::str_eq(lanes.as_str(), "1") {
                    2
                } else {
                    4
                }
            },
            None => 2,
        }
    }
}

/// The half-width of a highway in blocks.
pub fn highway_block_range(highway_type: &str, tags: &Tags, scale: Scale) -> (r: i32)
    ensures
        r == block_range(highway_type@, tags@, scale),
{
    let range: i32 = unscaled_block_range(highway_type, tags);
    if scale.less_than_one() {
        scale.floor_times(range)
    } else {
        range
    }
}

/// Which roads to collect.
#[derive(Clone, Copy, Debug, PartialEq, Eq, Structural)]
pub enum RoadKind {
    /// Everything with a road or path surface.
    Surface,
    /// Passages through buildings.
    BuildingPassage,
}

impl RoadKind {
    /// Whether a way with these tags is a road of this kind.
    pub open spec fn admits(self, tags: Map<Seq<char>, Seq<char>>) -> bool {
        match self {
            RoadKind::Surface => has_road_surface(tags),
            RoadKind::BuildingPassage => is_building_passage(tags),
        }
    }

    /// Whether a way with these tags is a road of this kind.
    pub fn accepts(self, tags: &Tags) -> (r: bool)
        ensures
            r == self.admits(tags@),
    {
        match self {
            RoadKind::Surface => {
                match tags.get("highway") {
                    Some(highway) => {
                        let h = highway.as_str();
                        !text::str_eq(h, "street_lamp") && !text::str_eq(h, "crossing")
                            && !text::str_eq(h, "bus_stop") && !tags.holds("area", "yes")
                            && !tags.holds("indoor", "yes") && tags.number_or_zero("level") >= 0
                    },
                    None => false,
                }
            },
            RoadKind::BuildingPassage => {
                tags.holds("tunnel", "building_passage") && tags.contains_key("highway")
            },
        }
    }
}

/// Whether a way has a road or path surface: it is a highway, but not one that
/// is only a point, nor an area, nor indoors, nor on a level below the ground.
pub open spec fn has_road_surface(tags: Map<Seq<char>, Seq<char>>) -> bool {
    &&& tags.contains_key("highway"@)
    &&& tags["highway"@] != "street_lamp"@
    &&& tags["highway"@] != "crossing"@
    &&& tags["highway"@] != "bus_stop"@
    &&& !tags::tag_is(tags, "area"@, "yes"@)
    &&& !tags::tag_is(tags, "indoor"@, "yes"@)
    &&& tags::number_or_zero(tags, "level"@) >= 0
}

/// Whether a way is a highway that leads through a building.
pub open spec fn is_building_passage(tags: Map<Seq<char>, Seq<char>>) -> bool {
    tags::tag_is(tags, "tunnel"@, "building_passage"@) && tags.contains_key("highway"@)
}

/// Whether the column `c` is within `range` of the `k`th point of the line
/// between two nodes, along both axes.
pub open spec fn near_point(
    a: ProcessedNode,
    b: ProcessedNode,
    range: int,
    c: (int, int),
    k: int,
) -> bool {
    let line = surfaces::ground_line(a, b);
    &&& 0 <= k < line.len()
    &&& span(line[k].0, c.0) <= range
    &&& span(line[k].2, c.1) <= range
}

/// Whether the column `c` is within `range` of the line between two nodes.
pub open spec fn near_line(a: ProcessedNode, b: ProcessedNode, range: int, c: (int, int)) -> bool {
    exists|k: int| near_point(a, b, range, c, k)
}

/// Whether the column `c` is within `range` of the `i`th segment of a way.
pub open spec fn near_segment(
    nodes: Seq<ProcessedNode>,
    range: int,
    c: (int, int),
    i: int,
) -> bool {
    0 < i < nodes.len() && near_line(nodes[i - 1], nodes[i], range, c)
}

/// The half-width of the road that an element is; none where it is no road of
/// the kind.
pub open spec fn road_range(element: ProcessedElement, kind: RoadKind, scale: Scale) -> Option<
    i32,
> {
    match element {
        ProcessedElement::Way(way) => if kind.admits(way.tags@) {
            Some(block_range(way.tags@["highway"@], way.tags@, scale))
        } else {
            None
        },
        _ => None,
    }
}

/// The nodes of an element that is a way.
pub open spec fn way_nodes(element: ProcessedElement) -> Seq<ProcessedNode> {
    match element {
        ProcessedElement::Way(way) => way.nodes@,
        _ => seq![],
    }
}

/// Whether an element is a road of the kind that covers the column `c`.
pub open spec fn road_covers(
    element: ProcessedElement,
    kind: RoadKind,
    scale: Scale,
    c: (int, int),
) -> bool {
    match road_range(element, kind, scale) {
        Some(range) => exists|i: int| near_segment(way_nodes(element), range as int, c, i),
        None => false,
    }
}

/// The columns of a rectangle that roads of a kind cover.
pub open spec fn covered(
    elements: Seq<ProcessedElement>,
    kind: RoadKind,
    xzbbox: XZBBox,
    scale: Scale,
) -> Set<(int, int)> {
    Set::new(
        |c: (int, int)|
            xzbbox.covers(c.0, c.1) && exists|j: int|
                0 <= j < elements.len() && road_covers(#[trigger] elements[j], kind, scale, c),
    )
}

/// Whether everything that an element may cover is on the map.
pub open spec fn road_on_map(element: ProcessedElement, kind: RoadKind, scale: Scale) -> bool {
    match road_range(element, kind, scale) {
        Some(range) => range >= 0 && way_nodes(element).len() >= 2 ==> forall|i: int|
            0 <= i < way_nodes(element).len() ==> surfaces::surroundings_on_map(
                #[trigger] way_nodes(element)[i],
                range as int,
            ),
        None => true,
    }
}

/// Adds the square of columns within `range` of `(x, z)`.
fn stamp_square(bitmap: &mut CoordinateBitmap, x: i32, z: i32, range: i32)
    requires
        range >= 0 ==> i32::MIN <= x - range && x + range <= i32::MAX && i32::MIN <= z - range && z
            + range <= i32::MAX,
    ensures
        final(bitmap).area() == old(bitmap).area(),
        final(bitmap)@ == old(bitmap)@.union(
            Set::new(
                |c: (int, int)|
                    old(bitmap).area().covers(c.0, c.1) && span(x as int, c.0) <= range && span(
                        z as int,
                        c.1,
                    ) <= range,
            ),
        ),
{
    let ghost before = bitmap@;
    let ghost area = bitmap.area();
    if range < 0 {
        assert(bitmap@ =~= before.union(
            Set::new(
                |c: (int, int)|
                    area.covers(c.0, c.1) && span(x as int, c.0) <= range && span(z as int, c.1)
                        <= range,
            ),
        ));
        return ;
    }
    let mut dx: i64 = -(range as i64);
    while dx <= range as i64
        invariant
            0 <= range,
            -range <= dx <= range + 1,
            i32::MIN <= x - range && x + range <= i32::MAX && i32::MIN <= z - range && z + range
                <= i32::MAX,
            bitmap.area() == area,
            forall|c: (int, int)| #[trigger]
                bitmap@.contains(c) <==> before.contains(c) || (area.covers(c.0, c.1) && x - range
                    <= c.0 < x + dx && span(z as int, c.1) <= range),
        decreases range + 1 - dx,
    {
        let ghost row_before = bitmap@;
        let mut dz: i64 = -(range as i64);
        while dz <= range as i64
            invariant
                0 <= range,
                -range <= dx <= range,
                -range <= dz <= range + 1,
                i32::MIN <= x - range && x + range <= i32::MAX && i32::MIN <= z - range && z + range
                    <= i32::MAX,
                bitmap.area() == area,
                forall|c: (int, int)| #[trigger]
                    bitmap@.contains(c) <==> row_before.contains(c) || (area.covers(c.0, c.1)
                        && c.0 == x + dx && z - range <= c.1 < z + dz),
            decreases range + 1 - dz,
        {
            bitmap.set((x as i64 + dx) as i32, (z as i64 + dz) as i32);
            dz = dz + 1;
        }
        dx = dx + 1;
    }
    assert(bitmap@ =~= before.union(
        Set::new(
            |c: (int, int)|
                area.covers(c.0, c.1) && span(x as int, c.0) <= range && span(z as int, c.1)
                    <= range,
        ),
    ));
}

/// Adds the columns within `range` of the line between two nodes.
fn stamp_segment(bitmap: &mut CoordinateBitmap, a: &ProcessedNode, b: &ProcessedNode, range: i32)
    requires
        range >= 0 ==> surfaces::surroundings_on_map(*a, range as int)
            && surfaces::surroundings_on_map(*b, range as int),
    ensures
        final(bitmap).area() == old(bitmap).area(),
        forall|c: (int, int)| #[trigger]
            final(bitmap)@.contains(c) <==> old(bitmap)@.contains(c) || (old(bitmap).area().covers(
                c.0,
                c.1,
            ) && near_line(*a, *b, range as int, c)),
{
    let ghost before = bitmap@;
    let ghost area = bitmap.area();
    let prev = a.xz();
    let cur = b.xz();
    let points = bresenham::bresenham_line(prev.x, 0, prev.z, cur.x, 0, cur.z);
    let ghost line = surfaces::ground_line(*a, *b);
    assert(bresenham::points_view(points@) == line);
    let n: usize = points.len();
    let mut k: usize = 0;
    while k < n
        invariant
            n == points@.len(),
            k <= n,
            line == surfaces::ground_line(*a, *b),
            bresenham::points_view(points@) == line,
            range >= 0 ==> surfaces::surroundings_on_map(*a, range as int)
                && surfaces::surroundings_on_map(*b, range as int),
            bitmap.area() == area,
            forall|c: (int, int)| #[trigger]
                bitmap@.contains(c) <==> before.contains(c) || (area.covers(c.0, c.1) && exists|
                    j: int,
                |
                    j < k && near_point(*a, *b, range as int, c, j)),
        decreases n - k,
    {
        let (bx, _, bz): (i32, i32, i32) = points[k];
        let ghost earlier = bitmap@;
        proof {
            assert(line.len() == n);
            let steps = bresenham::line_steps(
                a.x as int,
                0,
                a.z as int,
                b.x as int,
                0,
                b.z as int,
            );
            bresenham::line_stays_between_its_ends(a.x as int, b.x as int, steps, k as int);
            bresenham::line_stays_between_its_ends(a.z as int, b.z as int, steps, k as int);
            assert(line[k as int] == (
                points@[k as int].0 as int,
                points@[k as int].1 as int,
                points@[k as int].2 as int,
            ));
        }
        stamp_square(bitmap, bx, bz, range);
        assert forall|c: (int, int)| #[trigger]
            bitmap@.contains(c) <==> before.contains(c) || (area.covers(c.0, c.1) && exists|j: int|
                j < k + 1 && near_point(*a, *b, range as int, c, j)) by {
            if area.covers(c.0, c.1) {
                let here = near_point(*a, *b, range as int, c, k as int);
                assert(bitmap@.contains(c) <==> earlier.contains(c) || here);
                if exists|j: int| j < k + 1 && near_point(*a, *b, range as int, c, j) {
                    let j = choose|j: int| j < k + 1 && near_point(*a, *b, range as int, c, j);
                    assert(j < k || j == k);
                }
            } else {
                assert(bitmap@.contains(c) <==> earlier.contains(c));
            }
        }
        k = k + 1;
    }
    assert forall|c: (int, int)| #[trigger]
        bitmap@.contains(c) <==> before.contains(c) || (area.covers(c.0, c.1) && near_line(
            *a,
            *b,
            range as int,
            c,
        )) by {
        if near_line(*a, *b, range as int, c) {
            let j = choose|j: int| near_point(*a, *b, range as int, c, j);
            assert(j < n);
        }
    }
}

/// Adds the columns within `range` of a way.
fn stamp_way(bitmap: &mut CoordinateBitmap, nodes: &Vec<ProcessedNode>, range: i32)
    requires
        range >= 0 && nodes@.len() >= 2 ==> forall|i: int|
            0 <= i < nodes@.len() ==> surfaces::surroundings_on_map(
                #[trigger] nodes@[i],
                range as int,
            ),
    ensures
        final(bitmap).area() == old(bitmap).area(),
        forall|c: (int, int)| #[trigger]
            final(bitmap)@.contains(c) <==> old(bitmap)@.contains(c) || (old(bitmap).area().covers(
                c.0,
                c.1,
            ) && exists|i: int| near_segment(nodes@, range as int, c, i)),
{
    let ghost before = bitmap@;
    let ghost area = bitmap.area();
    let n: usize = nodes.len();
    let mut i: usize = 1;
    while i < n
        invariant
            n == nodes@.len(),
            1 <= i,
            n >= 1 ==> i <= n,
            range >= 0 && n >= 2 ==> forall|j: int|
                0 <= j < n ==> surfaces::surroundings_on_map(#[trigger] nodes@[j], range as int),
            bitmap.area() == area,
            forall|c: (int, int)| #[trigger]
                bitmap@.contains(c) <==> before.contains(c) || (area.covers(c.0, c.1) && exists|
                    j: int,
                |
                    j < i && near_segment(nodes@, range as int, c, j)),
        decreases n - i,
    {
        let ghost earlier = bitmap@;
        stamp_segment(bitmap, &nodes[i - 1], &nodes[i], range);
        assert forall|c: (int, int)| #[trigger]
            bitmap@.contains(c) <==> before.contains(c) || (area.covers(c.0, c.1) && exists|j: int|
                j < i + 1 && near_segment(nodes@, range as int, c, j)) by {
            let here = near_segment(nodes@, range as int, c, i as int);
            assert(bitmap@.contains(c) <==> earlier.contains(c) || (area.covers(c.0, c.1) && here));
            if exists|j: int| j < i + 1 && near_segment(nodes@, range as int, c, j) {
                let j = choose|j: int| j < i + 1 && near_segment(nodes@, range as int, c, j);
                assert(j < i || j == i);
            }
        }
        i = i + 1;
    }
    assert forall|c: (int, int)| #[trigger]
        bitmap@.contains(c) <==> before.contains(c) || (area.covers(c.0, c.1) && exists|j: int|
            near_segment(nodes@, range as int, c, j)) by {
        if exists|j: int| near_segment(nodes@, range as int, c, j) {
            let j = choose|j: int| near_segment(nodes@, range as int, c, j);
            assert(j < i);
        }
    }
}

/// Collects the columns that roads of a kind cover.
fn collect_coords(
    elements: &[ProcessedElement],
    kind: RoadKind,
    xzbbox: &XZBBox,
    scale: Scale,
) -> (r: CoordinateBitmap)
    requires
        xzbbox.area() <= isize::MAX,
        forall|j: int|
            0 <= j < elements@.len() ==> road_on_map(#[trigger] elements@[j], kind, scale),
    ensures
        r@ == covered(elements@, kind, *xzbbox, scale),
        r.area() == *xzbbox,
{
    let mut bitmap = CoordinateBitmap::new(xzbbox);
    let n: usize = elements.len();
    let mut i: usize = 0;
    while i < n
        invariant
            n == elements@.len(),
            i <= n,
            forall|j: int|
                0 <= j < elements@.len() ==> road_on_map(#[trigger] elements@[j], kind, scale),
            bitmap.area() == *xzbbox,
            forall|c: (int, int)| #[trigger]
                bitmap@.contains(c) <==> xzbbox.covers(c.0, c.1) && exists|j: int|
                    0 <= j < i && road_covers(#[trigger] elements@[j], kind, scale, c),
        decreases n - i,
    {
        let ghost earlier = bitmap@;
        assert(road_on_map(elements@[i as int], kind, scale));
        if let ProcessedElement::Way(way) = &elements[i] {
            if kind.accepts(&way.tags) {
                if let Some(highway_type) = way.tags.get("highway") {
                    let range: i32 = highway_block_range(highway_type.as_str(), &way.tags, scale);
                    assert(road_range(elements@[i as int], kind, scale) == Some(range));
                    assert(way_nodes(elements@[i as int]) == way.nodes@);
                    stamp_way(&mut bitmap, &way.nodes, range);
                }
            }
        }
        assert forall|c: (int, int)| #[trigger]
            bitmap@.contains(c) <==> xzbbox.covers(c.0, c.1) && exists|j: int|
                0 <= j < i + 1 && road_covers(#[trigger] elements@[j], kind, scale, c) by {
            let here = road_covers(elements@[i as int], kind, scale, c);
            assert(bitmap@.contains(c) <==> earlier.contains(c) || (xzbbox.covers(c.0, c.1)
                && here));
            if exists|j: int|
                0 <= j < i + 1 && road_covers(#[trigger] elements@[j], kind, scale, c) {
                let j = choose|j: int|
                    0 <= j < i + 1 && road_covers(#[trigger] elements@[j], kind, scale, c);
                assert(j < i || j == i);
            }
        }
        i = i + 1;
    }
    assert(bitmap@ =~= covered(elements@, kind, *xzbbox, scale));
    bitmap
}

/// Collects the columns that a road or path surface covers: those within the
/// half-width of a segment of some highway that has a surface.
pub fn collect_road_surface_coords(
    elements: &[ProcessedElement],
    xzbbox: &XZBBox,
    scale: Scale,
) -> (r: CoordinateBitmap)
    requires
        xzbbox.area() <= isize::MAX,
        forall|j: int|
            0 <= j < elements@.len() ==> road_on_map(
                #[trigger] elements@[j],
                RoadKind::Surface,
                scale,
            ),
    ensures
        r@ == covered(elements@, RoadKind::Surface, *xzbbox, scale),
        r.area() == *xzbbox,
{
    collect_coords(elements, RoadKind::Surface, xzbbox, scale)
}

/// Whether some element is a building passage.
fn has_any_passage(elements: &[ProcessedElement]) -> (r: bool)
    ensures
        r == exists|j: int|
            0 <= j < elements@.len() && is_passage_way(#[trigger] elements@[j]),
{
    let n: usize = elements.len();
    let mut i: usize = 0;
    while i < n
        invariant
            n == elements@.len(),
            i <= n,
            forall|j: int| 0 <= j < i ==> !is_passage_way(#[trigger] elements@[j]),
        decreases n - i,
    {
        if let ProcessedElement::Way(way) = &elements[i] {
            if RoadKind::BuildingPassage.accepts(&way.tags) {
                assert(is_passage_way(elements@[i as int]));
                return true;
            }
        }
        i = i + 1;
    }
    false
}

/// Whether an element is a highway that leads through a building.
pub open spec fn is_passage_way(element: ProcessedElement) -> bool {
    match element {
        ProcessedElement::Way(way) => is_building_passage(way.tags@),
        _ => false,
    }
}

/// Collects the columns that highways through buildings cover. Without such
/// highways nothing is allocated.
pub fn collect_building_passage_coords(
    elements: &[ProcessedElement],
    xzbbox: &XZBBox,
    scale: Scale,
) -> (r: CoordinateBitmap)
    requires
        (exists|j: int| 0 <= j < elements@.len() && is_passage_way(#[trigger] elements@[j]))
            ==> xzbbox.area() <= isize::MAX,
        forall|j: int|
            0 <= j < elements@.len() ==> road_on_map(
                #[trigger] elements@[j],
                RoadKind::BuildingPassage,
                scale,
            ),
    ensures
        r@ == covered(elements@, RoadKind::BuildingPassage, *xzbbox, scale),
        (exists|j: int| 0 <= j < elements@.len() && is_passage_way(#[trigger] elements@[j]))
            ==> r.area() == *xzbbox,
        !(exists|j: int| 0 <= j < elements@.len() && is_passage_way(#[trigger] elements@[j]))
            ==> r.area().area() == 0,
{
    if !has_any_passage(elements) {
        let r = CoordinateBitmap::new_empty();
        proof {
            assert forall|c: (int, int)|
                !covered(elements@, RoadKind::BuildingPassage, *xzbbox, scale).contains(c) by {
                assert forall|j: int| 0 <= j < elements@.len() implies !road_covers(
                    #[trigger] elements@[j],
                    RoadKind::BuildingPassage,
                    scale,
                    c,
                ) by {
                    assert(!is_passage_way(elements@[j]));
                }
            }
            assert(r@ =~= covered(elements@, RoadKind::BuildingPassage, *xzbbox, scale));
        }
        return r;
    }
    collect_coords(elements, RoadKind::BuildingPassage, xzbbox, scale)
}

/// A scale that is not negative never makes a highway wider than five blocks to
/// each side, nor wider than it is in a world of usual size.
pub proof fn block_range_is_bounded(
    highway_type: Seq<char>,
    tags: Map<Seq<char>, Seq<char>>,
    scale: Scale,
)
    requires
        !scale.negative(),
    ensures
        0 <= block_range(highway_type, tags, scale) <= unscaled_range(highway_type, tags) <= 5,
{
    if scale.below_one() {
        crate::scale::small_scales_do_not_widen(scale, unscaled_range(highway_type, tags));
    }
}

/// In a larger world no highway is narrower. The scales are numbers that are
/// not negative; these are in the order of their bit patterns.
pub proof fn highways_widen_with_the_scale(
    highway_type: Seq<char>,
    tags: Map<Seq<char>, Seq<char>>,
    smaller: Scale,
    larger: Scale,
)
    requires
        !smaller.negative() && !smaller.is_nan(),
        !larger.negative() && !larger.is_nan(),
        smaller.bits <= larger.bits,
    ensures
        block_range(highway_type, tags, smaller) <= block_range(highway_type, tags, larger),
{
    crate::scale::larger_scales_do_not_narrow(
        smaller,
        larger,
        unscaled_range(highway_type, tags),
    );
    block_range_is_bounded(highway_type, tags, smaller);
}

/// Only roads of the kind cover anything: an area, an indoor way, a way below
/// the ground, a single point or an element that is no way adds nothing.
pub proof fn only_roads_cover(
    element: ProcessedElement,
    kind: RoadKind,
    scale: Scale,
    c: (int, int),
)
    requires
        road_covers(element, kind, scale, c),
    ensures
        element matches ProcessedElement::Way(way) && kind.admits(way.tags@) && way.nodes@.len()
            >= 2,
{
}

/// What two lists of elements cover together is what either covers.
pub proof fn coverage_is_a_union(
    first: Seq<ProcessedElement>,
    second: Seq<ProcessedElement>,
    kind: RoadKind,
    xzbbox: XZBBox,
    scale: Scale,
)
    ensures
        covered(first + second, kind, xzbbox, scale) == covered(first, kind, xzbbox, scale).union(
            covered(second, kind, xzbbox, scale),
        ),
{
    let both = first + second;
    let a = covered(both, kind, xzbbox, scale);
    let b = covered(first, kind, xzbbox, scale).union(covered(second, kind, xzbbox, scale));
    assert forall|c: (int, int)| a.contains(c) == b.contains(c) by {
        if a.contains(c) {
            let j = choose|j: int|
                0 <= j < both.len() && road_covers(#[trigger] both[j], kind, scale, c);
            if j < first.len() {
                assert(road_covers(first[j], kind, scale, c));
            } else {
                assert(road_covers(second[j - first.len()], kind, scale, c));
            }
        }
        if covered(first, kind, xzbbox, scale).contains(c) {
            let j = choose|j: int|
                0 <= j < first.len() && road_covers(#[trigger] first[j], kind, scale, c);
            assert(road_covers(both[j], kind, scale, c));
        }
        if covered(second, kind, xzbbox, scale).contains(c) {
            let j = choose|j: int|
                0 <= j < second.len() && road_covers(#[trigger] second[j], kind, scale, c);
            assert(both[first.len() + j] == second[j]);
            assert(road_covers(both[first.len() + j], kind, scale, c));
        }
    }
    assert(a =~= b);
}

/// Building passages are part of the roads: every column that they cover, road
/// surfaces cover as well, where each passage has a road surface at all.
pub proof fn passages_are_part_of_the_roads(
    elements: Seq<ProcessedElement>,
    xzbbox: XZBBox,
    scale: Scale,
)
    requires
        forall|j: int|
            0 <= j < elements.len() && is_passage_way(#[trigger] elements[j])
                ==> road_range(elements[j], RoadKind::Surface, scale) is Some,
    ensures
        covered(elements, RoadKind::BuildingPassage, xzbbox, scale).subset_of(
            covered(elements, RoadKind::Surface, xzbbox, scale),
        ),
{
    let passages = covered(elements, RoadKind::BuildingPassage, xzbbox, scale);
    let roads = covered(elements, RoadKind::Surface, xzbbox, scale);
    assert forall|c: (int, int)| passages.contains(c) implies roads.contains(c) by {
        let j = choose|j: int|
            0 <= j < elements.len() && road_covers(
                #[trigger] elements[j],
                RoadKind::BuildingPassage,
                scale,
                c,
            );
        assert(is_passage_way(elements[j]));
        assert(road_covers(elements[j], RoadKind::Surface, scale, c));
    }
}

/// A road covers the columns of all its nodes.
pub proof fn roads_cover_their_nodes(
    elements: Seq<ProcessedElement>,
    kind: RoadKind,
    xzbbox: XZBBox,
    scale: Scale,
    j: int,
    i: int,
)
    requires
        0 <= j < elements.len(),
        road_range(elements[j], kind, scale) matches Some(range) && range >= 0,
        way_nodes(elements[j]).len() >= 2,
        0 <= i < way_nodes(elements[j]).len(),
        xzbbox.covers(way_nodes(elements[j])[i].x as int, way_nodes(elements[j])[i].z as int),
    ensures
        covered(elements, kind, xzbbox, scale).contains(
            (way_nodes(elements[j])[i].x as int, way_nodes(elements[j])[i].z as int),
        ),
{
    let nodes = way_nodes(elements[j]);
    let range = road_range(elements[j], kind, scale).unwrap() as int;
    let c = (nodes[i].x as int, nodes[i].z as int);
    let s = if i == 0 {
        1
    } else {
        i
    };
    let a = nodes[s - 1];
    let b = nodes[s];
    bresenham::line_connects_its_ends(a.x as int, 0, a.z as int, b.x as int, 0, b.z as int);
    let line = surfaces::ground_line(a, b);
    let k = if i == 0 {
        0
    } else {
        line.len() - 1
    };
    assert(near_point(a, b, range, c, k));
    assert(near_line(a, b, range, c));
    assert(near_segment(nodes, range, c, s));
    assert(road_covers(elements[j], kind, scale, c));
}

/// A road is as wide along one axis as along the other: every column of the
/// rectangle that is at most the half-width away, along x and along z, from a
/// block of the line of one of its segments is covered.
pub proof fn columns_within_the_half_width_are_covered(
    elements: Seq<ProcessedElement>,
    kind: RoadKind,
    xzbbox: XZBBox,
    scale: Scale,
    j: int,
    i: int,
    k: int,
    x: int,
    z: int,
)
    requires
        0 <= j < elements.len(),
        elements[j] matches ProcessedElement::Way(way) && {
            let half_width = block_range(way.tags@["highway"@], way.tags@, scale);
            let nodes = way.nodes@;
            let line = bresenham::line_points(
                nodes[i - 1].x as int,
                0,
                nodes[i - 1].z as int,
                nodes[i].x as int,
                0,
                nodes[i].z as int,
            );
            &&& kind.admits(way.tags@)
            &&& 0 < i < nodes.len()
            &&& 0 <= k < line.len()
            &&& -half_width <= x - line[k].0 <= half_width
            &&& -half_width <= z - line[k].2 <= half_width
        },
        xzbbox.min.x <= x <= xzbbox.max.x,
        xzbbox.min.z <= z <= xzbbox.max.z,
    ensures
        covered(elements, kind, xzbbox, scale).contains((x, z)),
{
    let nodes = way_nodes(elements[j]);
    let range = road_range(elements[j], kind, scale).unwrap() as int;
    assert(near_point(nodes[i - 1], nodes[i], range, (x, z), k));
    assert(near_line(nodes[i - 1], nodes[i], range, (x, z)));
    assert(near_segment(nodes, range, (x, z), i));
    assert(road_covers(elements[j], kind, scale, (x, z)));
}

/// Nothing else is covered: a covered column lies in the rectangle and is at
/// most the half-width away, along x and along z, from a block of the line of a
/// segment of some road of the kind. The result names the road, the segment and
/// the block.
pub proof fn covered_columns_are_within_the_half_width(
    elements: Seq<ProcessedElement>,
    kind: RoadKind,
    xzbbox: XZBBox,
    scale: Scale,
    x: int,
    z: int,
) -> (w: (int, int, int))
    requires
        covered(elements, kind, xzbbox, scale).contains((x, z)),
    ensures
        xzbbox.min.x <= x <= xzbbox.max.x,
        xzbbox.min.z <= z <= xzbbox.max.z,
        ({
            let (j, i, k) = w;
            &&& 0 <= j < elements.len()
            &&& elements[j] matches ProcessedElement::Way(way) && {
                let half_width = block_range(way.tags@["highway"@], way.tags@, scale);
                let nodes = way.nodes@;
                let line = bresenham::line_points(
                    nodes[i - 1].x as int,
                    0,
                    nodes[i - 1].z as int,
                    nodes[i].x as int,
                    0,
                    nodes[i].z as int,
                );
                &&& kind.admits(way.tags@)
                &&& 0 < i < nodes.len()
                &&& 0 <= k < line.len()
                &&& -half_width <= x - line[k].0 <= half_width
                &&& -half_width <= z - line[k].2 <= half_width
            }
        }),
{
    let c = (x, z);
    let j = choose|j: int|
        0 <= j < elements.len() && road_covers(#[trigger] elements[j], kind, scale, c);
    let nodes = way_nodes(elements[j]);
    let range = road_range(elements[j], kind, scale).unwrap() as int;
    let i = choose|i: int| near_segment(nodes, range, c, i);
    let a = nodes[i - 1];
    let b = nodes[i];
    let k = choose|k: int| near_point(a, b, range, c, k);
    (j, i, k)
}

/// Roads do not care for the compass: exchanging x and z of all nodes and of
/// the rectangle exchanges x and z of the covered columns, and nothing else.
pub proof fn coverage_exchanges_axes(
    elements: Seq<ProcessedElement>,
    exchanged: Seq<ProcessedElement>,
    kind: RoadKind,
    xzbbox: XZBBox,
    exchanged_box: XZBBox,
    scale: Scale,
    x: int,
    z: int,
)
    requires
        elements.len() == exchanged.len(),
        forall|j: int|
            #![trigger elements[j]]
            #![trigger exchanged[j]]
            0 <= j < elements.len() ==> match (elements[j], exchanged[j]) {
                (ProcessedElement::Way(a), ProcessedElement::Way(b)) => {
                    &&& a.tags@ == b.tags@
                    &&& a.nodes@.len() == b.nodes@.len()
                    &&& forall|i: int|
                        #![trigger a.nodes@[i]]
                        #![trigger b.nodes@[i]]
                        0 <= i < a.nodes@.len() ==> a.nodes@[i].x == b.nodes@[i].z && a.nodes@[i].z
                            == b.nodes@[i].x
                },
                (ProcessedElement::Way(_), _) => false,
                (_, ProcessedElement::Way(_)) => false,
                _ => true,
            },
        exchanged_box.min.x == xzbbox.min.z,
        exchanged_box.min.z == xzbbox.min.x,
        exchanged_box.max.x == xzbbox.max.z,
        exchanged_box.max.z == xzbbox.max.x,
    ensures
        covered(elements, kind, xzbbox, scale).contains((x, z)) <==> covered(
            exchanged,
            kind,
            exchanged_box,
            scale,
        ).contains((z, x)),
{
    if covered(elements, kind, xzbbox, scale).contains((x, z)) {
        let (j, i, k) = covered_columns_are_within_the_half_width(
            elements,
            kind,
            xzbbox,
            scale,
            x,
            z,
        );
        let a = way_nodes(elements[j]);
        let b = way_nodes(exchanged[j]);
        assert(a[i].x == b[i].z && a[i - 1].x == b[i - 1].z);
        bresenham::lines_exchange_axes(
            a[i - 1].x as int,
            0,
            a[i - 1].z as int,
            a[i].x as int,
            0,
            a[i].z as int,
            k,
        );
        columns_within_the_half_width_are_covered(
            exchanged,
            kind,
            exchanged_box,
            scale,
            j,
            i,
            k,
            z,
            x,
        );
    }
    if covered(exchanged, kind, exchanged_box, scale).contains((z, x)) {
        let (j, i, k) = covered_columns_are_within_the_half_width(
            exchanged,
            kind,
            exchanged_box,
            scale,
            z,
            x,
        );
        let a = way_nodes(elements[j]);
        let b = way_nodes(exchanged[j]);
        assert(elements[j] is Way);
        assert(a[i].x == b[i].z && a[i - 1].x == b[i - 1].z);
        bresenham::lines_exchange_axes(
            b[i - 1].x as int,
            0,
            b[i - 1].z as int,
            b[i].x as int,
            0,
            b[i].z as int,
            k,
        );
        columns_within_the_half_width_are_covered(elements, kind, xzbbox, scale, j, i, k, x, z);
    }
}

/// A straight road is `2 r + 1` columns wide, whichever way it runs: the columns
/// across it at one of its blocks are covered exactly up to the half-width `r`.
pub proof fn straight_roads_have_their_width(
    road: ProcessedElement,
    kind: RoadKind,
    xzbbox: XZBBox,
    scale: Scale,
    x: int,
    z: int,
)
    requires
        road matches ProcessedElement::Way(way) && {
            let (a, b) = (way.nodes@[0], way.nodes@[1]);
            &&& kind.admits(way.tags@)
            &&& way.nodes@.len() == 2
            &&& a.x == b.x && a.z <= z <= b.z || a.z == b.z && a.x <= x <= b.x
        },
        xzbbox.min.x <= x <= xzbbox.max.x,
        xzbbox.min.z <= z <= xzbbox.max.z,
    ensures
        road matches ProcessedElement::Way(way) ==> {
            let (a, b) = (way.nodes@[0], way.nodes@[1]);
            let r = block_range(way.tags@["highway"@], way.tags@, scale);
            let found = covered(seq![road], kind, xzbbox, scale).contains((x, z));
            &&& a.x == b.x && a.z <= z <= b.z ==> (found <==> -r <= x - a.x <= r)
            &&& a.z == b.z && a.x <= x <= b.x ==> (found <==> -r <= z - a.z <= r)
        },
{
    let elements = seq![road];
    let nodes = way_nodes(road);
    let (a, b) = (nodes[0], nodes[1]);
    let r = road_range(road, kind, scale).unwrap();
    let n = bresenham::line_steps(a.x as int, 0, a.z as int, b.x as int, 0, b.z as int);
    let line = bresenham::line_points(a.x as int, 0, a.z as int, b.x as int, 0, b.z as int);
    if covered(elements, kind, xzbbox, scale).contains((x, z)) {
        let (j, i, k) = covered_columns_are_within_the_half_width(
            elements,
            kind,
            xzbbox,
            scale,
            x,
            z,
        );
        assert(elements[j] == road && i == 1);
        bresenham::line_stays_between_its_ends(a.x as int, b.x as int, n, k);
        bresenham::line_stays_between_its_ends(a.z as int, b.z as int, n, k);
    }
    if a.x == b.x && a.z <= z <= b.z && -r <= x - a.x <= r {
        let k = z - a.z;
        bresenham::line_stays_between_its_ends(a.x as int, b.x as int, n, k);
        bresenham::straight_lines_miss_no_block(a.z as int, b.z as int, k);
        columns_within_the_half_width_are_covered(elements, kind, xzbbox, scale, 0, 1, k, x, z);
    }
    if a.z == b.z && a.x <= x <= b.x && -r <= z - a.z <= r {
        let k = x - a.x;
        bresenham::line_stays_between_its_ends(a.z as int, b.z as int, n, k);
        bresenham::straight_lines_miss_no_block(a.x as int, b.x as int, k);
        columns_within_the_half_width_are_covered(elements, kind, xzbbox, scale, 0, 1, k, x, z);
    }
}

/// Everything that carries a `highway` tag has a road surface, unless it is a
/// lamp, a crossing or a bus stop, an area, indoors, or on a level below the
/// ground; its other tags do not matter.
pub proof fn highways_with_a_road_surface(tags: Map<Seq<char>, Seq<char>>)
    ensures
        RoadKind::Surface.admits(tags) <==> {
            &&& tags.contains_key("highway"@)
            &&& tags["highway"@] != "street_lamp"@ && tags["highway"@] != "crossing"@
                && tags["highway"@] != "bus_stop"@
            &&& !(tags.contains_key("area"@) && tags["area"@] == "yes"@)
            &&& !(tags.contains_key("indoor"@) && tags["indoor"@] == "yes"@)
            &&& !(tags.contains_key("level"@) && (text::parsed_i32(tags["level"@]) matches Some(
                level,
            ) && level < 0))
        },
        RoadKind::BuildingPassage.admits(tags) <==> tags.contains_key("highway"@)
            && tags.contains_key("tunnel"@) && tags["tunnel"@] == "building_passage"@,
{
}

/// Half-widths in a world of usual size or larger go by the type of the highway,
/// and by the number of lanes for the types that have no half-width of their
/// own.
pub proof fn half_widths_go_by_type(
    highway_type: Seq<char>,
    tags: Map<Seq<char>, Seq<char>>,
    scale: Scale,
)
    requires
        !scale.below_one(),
    ensures
        ({
            let t = highway_type;
            let r = block_range(t, tags, scale);
            let wide = t == "motorway"@ || t == "primary"@ || t == "trunk"@;
            let middling = t == "tertiary"@ || t == "service"@;
            let narrow = t == "footway"@ || t == "pedestrian"@ || t == "path"@ || t == "track"@
                || t == "secondary_link"@ || t == "tertiary_link"@ || t == "escape"@ || t
                == "steps"@;
            let other = !wide && !middling && !narrow && t != "secondary"@;
            let tagged = tags.contains_key("lanes"@);
            &&& wide ==> r == 5
            &&& t == "secondary"@ ==> r == 4
            &&& middling ==> r == 2
            &&& narrow ==> r == 1
            &&& other && !tagged ==> r == 2
            &&& other && tagged && tags["lanes"@] == "1"@ ==> r == 2
            &&& other && tagged && tags["lanes"@] == "2"@ ==> r == 3
            &&& other && tagged && tags["lanes"@] != "1"@ && tags["lanes"@] != "2"@ ==> r == 4
        }),
{
    reveal_strlit("motorway");
    reveal_strlit("primary");
    reveal_strlit("trunk");
    reveal_strlit("secondary");
    reveal_strlit("tertiary");
    reveal_strlit("service");
    reveal_strlit("footway");
    reveal_strlit("pedestrian");
    reveal_strlit("path");
    reveal_strlit("track");
    reveal_strlit("secondary_link");
    reveal_strlit("tertiary_link");
    reveal_strlit("escape");
    reveal_strlit("steps");
    reveal_strlit("1");
    reveal_strlit("2");
    let t = highway_type;
    assert("1"@[0] != "2"@[0]);
    if t == "secondary"@ {
        assert(t.len() == 9 && t[0] == 's');
    } else if t == "tertiary"@ {
        assert(t.len() == 8 && t[0] == 't');
    } else if t == "service"@ {
        assert(t.len() == 7 && t[0] == 's');
    } else if t == "motorway"@ {
        assert(t.len() == 8 && t[0] == 'm');
    } else if t == "primary"@ {
        assert(t.len() == 7 && t[0] == 'p');
    } else if t == "trunk"@ {
        assert(t.len() == 5 && t[2] == 'u');
    }
}

/// In a smaller world the half-width is that of a world of usual size times the
/// scale, rounded down.
pub proof fn half_widths_shrink_with_the_scale(
    highway_type: Seq<char>,
    tags: Map<Seq<char>, Seq<char>>,
    small: Scale,
    usual: Scale,
)
    requires
        small.below_one(),
        !usual.below_one(),
    ensures
        block_range(highway_type, tags, small) == small.floor_of_product(
            block_range(highway_type, tags, usual) as int,
        ),
{
}

/// A road is on the map where no coordinate that is its half-width away from one
/// of its nodes leaves 32 bits.
pub proof fn roads_away_from_the_edge_are_on_the_map(
    element: ProcessedElement,
    kind: RoadKind,
    scale: Scale,
)
    requires
        element matches ProcessedElement::Way(way) ==> {
            let r = block_range(way.tags@["highway"@], way.tags@, scale);
            forall|i: int|
                0 <= i < way.nodes@.len() ==> {
                    let node = #[trigger] way.nodes@[i];
                    &&& -0x8000_0000 <= node.x - r && node.x + r <= 0x7fff_ffff
                    &&& -0x8000_0000 <= node.z - r && node.z + r <= 0x7fff_ffff
                }
        },
    ensures
        road_on_map(element, kind, scale),
{
}

} // verus!
