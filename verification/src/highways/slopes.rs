//! How long an elevated way is and how high its points lie.

use crate::binary32;
use crate::binary32::Single;
use crate::osm::ProcessedNode;
use crate::osm::ProcessedWay;
use vstd::prelude::*;

verus! {

/// The square of the distance between two nodes.
pub open spec fn squared_distance(a: ProcessedNode, b: ProcessedNode) -> int {
    (b.x - a.x) * (b.x - a.x) + (b.z - a.z) * (b.z - a.z)
}

/// The sum of the lengths of the segments between consecutive nodes, each in
/// whole blocks.
pub open spec fn way_length(nodes: Seq<ProcessedNode>) -> int
    decreases nodes.len(),
{
    if nodes.len() < 2 {
        0
    } else {
        way_length(nodes.drop_last()) + binary32::sqrt_truncated(
            squared_distance(nodes[nodes.len() - 2], nodes.last()),
        )
    }
}

/// Whether the squared length of every segment fits in 32 bits.
pub open spec fn segments_measurable(nodes: Seq<ProcessedNode>) -> bool {
    forall|i: int|
        0 < i < nodes.len() ==> squared_distance(nodes[i - 1], #[trigger] nodes[i]) <= i32::MAX
}

proof fn lemma_squares_nonnegative(a: ProcessedNode, b: ProcessedNode)
    ensures
        0 <= (b.x - a.x) * (b.x - a.x) <= squared_distance(a, b),
        0 <= (b.z - a.z) * (b.z - a.z) <= squared_distance(a, b),
{
    let dx = b.x - a.x;
    let dz = b.z - a.z;
    assert(dx * dx >= 0) by (nonlinear_arith);
    assert(dz * dz >= 0) by (nonlinear_arith);
}

/// A way is at least as long as the way through its first nodes.
pub proof fn lemma_way_length_grows(nodes: Seq<ProcessedNode>, k: int)
    requires
        segments_measurable(nodes),
        0 <= k <= nodes.len(),
    ensures
        0 <= way_length(nodes.take(k)) <= way_length(nodes),
    decreases nodes.len(),
{
    if k < nodes.len() {
        let shorter = nodes.drop_last();
        assert forall|i: int| 0 < i < shorter.len() implies squared_distance(
            shorter[i - 1],
            #[trigger] shorter[i],
        ) <= i32::MAX by {
            assert(shorter[i] == nodes[i]);
        }
        lemma_way_length_grows(shorter, k);
        assert(shorter.take(k) =~= nodes.take(k));
        if nodes.len() >= 2 {
            let n = nodes.len() as int;
            lemma_squares_nonnegative(nodes[n - 2], nodes[n - 1]);
            binary32::lemma_sqrt_nonnegative(squared_distance(nodes[n - 2], nodes[n - 1]));
        }
    } else {
        assert(nodes.take(k) =~= nodes);
        if nodes.len() >= 2 {
            let n = nodes.len() as int;
            let shorter = nodes.drop_last();
            assert forall|i: int| 0 < i < shorter.len() implies squared_distance(
                shorter[i - 1],
                #[trigger] shorter[i],
            ) <= i32::MAX by {
                assert(shorter[i] == nodes[i]);
            }
            lemma_way_length_grows(shorter, n - 1);
            assert(shorter.take(n - 1) =~= shorter);
            lemma_squares_nonnegative(nodes[n - 2], nodes[n - 1]);
            binary32::lemma_sqrt_nonnegative(squared_distance(nodes[n - 2], nodes[n - 1]));
        }
    }
}

/// Cut at one of its nodes, a way is as long as its two parts together.
pub proof fn way_lengths_add_up(nodes: Seq<ProcessedNode>, k: int)
    requires
        0 <= k < nodes.len(),
    ensures
        way_length(nodes) == way_length(nodes.take(k + 1)) + way_length(nodes.skip(k)),
    decreases nodes.len(),
{
    let n = nodes.len() as int;
    if k == n - 1 {
        assert(nodes.take(n) =~= nodes);
    } else {
        let shorter = nodes.drop_last();
        way_lengths_add_up(shorter, k);
        assert(shorter.take(k + 1) =~= nodes.take(k + 1));
        let tail = nodes.skip(k);
        assert(tail.drop_last() =~= shorter.skip(k));
        assert(tail[tail.len() - 2] == nodes[n - 2]);
        assert(tail.last() == nodes.last());
    }
}

/// A way is as long in one direction as in the other.
pub proof fn way_length_ignores_direction(nodes: Seq<ProcessedNode>)
    ensures
        way_length(nodes.reverse()) == way_length(nodes),
    decreases nodes.len(),
{
    if nodes.len() >= 2 {
        let a = nodes[0];
        let b = nodes[1];
        let back = nodes.reverse();
        way_length_ignores_direction(nodes.skip(1));
        assert(back.drop_last() =~= nodes.skip(1).reverse());
        way_lengths_add_up(nodes, 1);
        let start = nodes.take(2);
        assert(start[0] == a && start.last() == b);
        assert(way_length(start.drop_last()) == 0);
        assert(way_length(start) == binary32::sqrt_truncated(squared_distance(a, b)));
        assert(squared_distance(a, b) == squared_distance(b, a)) by (nonlinear_arith);
    }
}

/// The total length of a way in blocks.
pub fn calculate_way_length(way: &ProcessedWay) -> (r: usize)
    requires
        segments_measurable(way.nodes@),
        way_length(way.nodes@) <= usize::MAX,
    ensures
        r == way_length(way.nodes@),
{
    let mut total_length: usize = 0;
    let n: usize = way.nodes.len();
    if n == 0 {
        return 0;
    }
    let mut i: usize = 1;
    while i < n
        invariant
            n == way.nodes@.len(),
            1 <= i <= n,
            segments_measurable(way.nodes@),
            way_length(way.nodes@) <= usize::MAX,
            total_length == way_length(way.nodes@.take(i as int)),
        decreases n - i,
    {
        let dx: i64 = way.nodes[i].x as i64 - way.nodes[i - 1].x as i64;
        let dz: i64 = way.nodes[i].z as i64 - way.nodes[i - 1].z as i64;
        proof {
            let a = way.nodes@[i - 1];
            let b = way.nodes@[i as int];
            lemma_squares_nonnegative(a, b);
            lemma_way_length_grows(way.nodes@, i + 1);
            let more = way.nodes@.take(i + 1);
            assert(more.drop_last() =~= way.nodes@.take(i as int));
            assert(more[more.len() - 2] == a);
            assert(more.last() == b);
        }
        let squared: u32 = (dx * dx + dz * dz) as u32;
        total_length = total_length + binary32::sqrt_floor(squared) as usize;
        i = i + 1;
    }
    assert(way.nodes@.take(n as int) =~= way.nodes@);
    total_length
}

/// The height of a point on a slope: the share `distance / slope_length` of
/// the full height `base`, in single precision, without its fraction.
pub open spec fn height_on_slope(base: i32, distance: int, slope_length: int) -> int {
    let progress = binary32::quotient(
        binary32::from_int(distance),
        binary32::from_int(slope_length),
    );
    if base >= 0 {
        let height = binary32::truncated(binary32::product(binary32::from_int(base as int), progress));
        if height > i32::MAX {
            i32::MAX as int
        } else {
            height
        }
    } else {
        -binary32::truncated(binary32::product(binary32::from_int(-base), progress))
    }
}

/// The height of the point that is `distance` blocks from the start of a way
/// of `length` blocks.
pub open spec fn point_elevation(
    distance: int,
    length: int,
    base: i32,
    needs_start_slope: bool,
    needs_end_slope: bool,
    slope_length: int,
) -> int {
    if length == 0 || slope_length == 0 {
        base as int
    } else if needs_start_slope && distance <= slope_length {
        height_on_slope(base, distance, slope_length)
    } else if needs_end_slope && distance >= length - slope_length {
        height_on_slope(base, length - distance, slope_length)
    } else {
        base as int
    }
}

proof fn lemma_height_bounds(base: int, distance: int, slope_length: int)
    requires
        0 <= base <= 0x8000_0000,
        0 <= distance <= slope_length,
        0 < slope_length,
    ensures
        ({
            let d = binary32::from_int(distance);
            let s = binary32::from_int(slope_length);
            let b = binary32::from_int(base);
            let q = binary32::quotient(d, s);
            let p = binary32::product(b, q);
            &&& binary32::is_single(d)
            &&& binary32::is_single(s)
            &&& binary32::is_single(b)
            &&& binary32::is_single(q)
            &&& binary32::is_single(p)
            &&& s.0 > 0
            &&& 0 <= binary32::truncated(p) <= binary32::truncated(b)
            &&& binary32::truncated(b) <= 0x8000_0000
        }),
{
    let d = binary32::from_int(distance);
    let s = binary32::from_int(slope_length);
    let b = binary32::from_int(base);
    let q = binary32::quotient(d, s);
    let p = binary32::product(b, q);
    binary32::lemma_from_int_monotone(distance, slope_length);
    binary32::lemma_from_int_monotone(base, base);
    binary32::lemma_nearest_is_single(d.0, s.0, d.1 - s.1);
    binary32::lemma_nearest_is_single(b.0 * q.0, 1, b.1 + q.1);
    binary32::lemma_quotient_at_most_one(d, s);
    binary32::lemma_product_monotone(b, q, binary32::one());
    binary32::lemma_product_one(b);
    binary32::lemma_truncated_monotone(p, b);
    binary32::lemma_from_int_bound(base);
}

/// The height of a point on a slope.
fn slope_height(base: i32, distance: usize, slope_length: usize) -> (r: i32)
    requires
        0 < slope_length,
        distance <= slope_length,
    ensures
        r == height_on_slope(base, distance as int, slope_length as int),
{
    let magnitude: u64 = if base >= 0 {
        base as u64
    } else {
        (-(base as i64)) as u64
    };
    proof {
        lemma_height_bounds(magnitude as int, distance as int, slope_length as int);
    }
    let progress = Single::from_u64(distance as u64).div(Single::from_u64(slope_length as u64));
    let height: u64 = Single::from_u64(magnitude).mul(progress).truncate();
    if base >= 0 {
        if height > 0x7fff_ffff {
            0x7fff_ffff
        } else {
            height as i32
        }
    } else {
        (-(height as i64)) as i32
    }
}

/// The height of a point along a highway: full height in the middle, rising
/// from the ground at the start and falling to the ground at the end where
/// slopes are needed.
pub fn calculate_point_elevation(
    segment_index: usize,
    point_index: usize,
    segment_length: usize,
    total_segments: usize,
    base_elevation: i32,
    needs_start_slope: bool,
    needs_end_slope: bool,
    slope_length: usize,
) -> (r: i32)
    requires
        needs_start_slope || needs_end_slope ==> {
            let distance = segment_index * segment_length + point_index;
            let length = total_segments * segment_length;
            &&& distance <= usize::MAX
            &&& length <= usize::MAX
            &&& needs_end_slope && !(needs_start_slope && distance <= slope_length) && slope_length
                > 0 && length > 0 ==> distance <= length
        },
    ensures
        r == point_elevation(
            segment_index * segment_length + point_index,
            total_segments * segment_length,
            base_elevation,
            needs_start_slope,
            needs_end_slope,
            slope_length as int,
        ),
{
    if !needs_start_slope && !needs_end_slope {
        return base_elevation;
    }
    proof {
        assert(segment_index * segment_length >= 0) by (nonlinear_arith)
            requires
                segment_index >= 0,
                segment_length >= 0,
        ;
        assert(total_segments * segment_length >= 0) by (nonlinear_arith)
            requires
                total_segments >= 0,
                segment_length >= 0,
        ;
    }
    let total_distance_from_start: usize = segment_index * segment_length + point_index;
    let total_way_length: usize = total_segments * segment_length;
    if total_way_length == 0 || slope_length == 0 {
        return base_elevation;
    }
    if needs_start_slope && total_distance_from_start <= slope_length {
        return slope_height(base_elevation, total_distance_from_start, slope_length);
    }
    if needs_end_slope && total_distance_from_start >= total_way_length.saturating_sub(
        slope_length,
    ) {
        let distance_from_end: usize = total_way_length - total_distance_from_start;
        return slope_height(base_elevation, distance_from_end, slope_length);
    }
    base_elevation
}

/// A slope starts on the ground.
pub proof fn slope_starts_on_the_ground(base: i32, slope_length: int)
    ensures
        height_on_slope(base, 0, slope_length) == 0,
{
    let s = binary32::from_int(slope_length);
    let b = binary32::from_int(if base >= 0 {
        base as int
    } else {
        -base
    });
    assert(binary32::quotient((0, 0), s) == (0int, 0int));
    assert(b.0 * 0 == 0);
    assert(binary32::product(b, (0, 0)) == (0int, 0int));
    vstd::arithmetic::power2::lemma2_to64();
}

/// The full height `base` as a single-precision number, back in 32 bits.
pub open spec fn rounded_height(base: i32) -> int {
    if base >= 0 {
        let height = binary32::truncated(binary32::from_int(base as int));
        if height > i32::MAX {
            i32::MAX as int
        } else {
            height
        }
    } else {
        -binary32::truncated(binary32::from_int(-base))
    }
}

/// A slope ends at full height, as far as single precision can tell.
pub proof fn slope_ends_at_full_height(base: i32, slope_length: int)
    requires
        0 < slope_length,
    ensures
        height_on_slope(base, slope_length, slope_length) == rounded_height(base),
{
    let s = binary32::from_int(slope_length);
    let m = if base >= 0 {
        base as int
    } else {
        -base
    };
    binary32::lemma_from_int_monotone(slope_length, slope_length);
    binary32::lemma_from_int_monotone(m, m);
    binary32::lemma_quotient_at_most_one(s, s);
    binary32::lemma_product_one(binary32::from_int(m));
}

/// Heights of at most 24 bits are not rounded: slopes end at exactly the full
/// height.
pub proof fn small_heights_are_exact(base: i32)
    requires
        -0x100_0000 <= base <= 0x100_0000,
    ensures
        rounded_height(base) == base,
{
    binary32::lemma_from_int_exact(if base >= 0 {
        base as int
    } else {
        -base
    });
}

/// A slope never falls back on the way up, whether it leads over the ground or
/// under it.
pub proof fn slope_is_monotone(base: i32, nearer: int, farther: int, slope_length: int)
    requires
        0 <= nearer <= farther <= slope_length,
        0 < slope_length,
    ensures
        base >= 0 ==> 0 <= height_on_slope(base, nearer, slope_length) <= height_on_slope(
            base,
            farther,
            slope_length,
        ),
        base <= 0 ==> 0 >= height_on_slope(base, nearer, slope_length) >= height_on_slope(
            base,
            farther,
            slope_length,
        ),
{
    let m = if base >= 0 {
        base as int
    } else {
        -base
    };
    let b = binary32::from_int(m);
    let s = binary32::from_int(slope_length);
    let q1 = binary32::quotient(binary32::from_int(nearer), s);
    let q2 = binary32::quotient(binary32::from_int(farther), s);
    lemma_height_bounds(m, nearer, slope_length);
    lemma_height_bounds(m, farther, slope_length);
    binary32::lemma_from_int_monotone(nearer, farther);
    binary32::lemma_quotient_monotone(
        binary32::from_int(nearer),
        binary32::from_int(farther),
        s,
    );
    binary32::lemma_product_monotone(b, q1, q2);
    binary32::lemma_truncated_monotone(binary32::product(b, q1), binary32::product(b, q2));
    if base == 0 {
        assert(0 * q1.0 == 0 && 0 * q2.0 == 0);
        vstd::arithmetic::power2::lemma2_to64();
    }
}

/// Every point of a highway lies between the ground and the full height, exact
/// or rounded.
pub proof fn elevation_stays_between_ground_and_base(
    distance: int,
    length: int,
    base: i32,
    needs_start_slope: bool,
    needs_end_slope: bool,
    slope_length: int,
)
    requires
        0 <= distance <= length,
        0 <= slope_length,
    ensures
        ({
            let y = point_elevation(
                distance,
                length,
                base,
                needs_start_slope,
                needs_end_slope,
                slope_length,
            );
            &&& base >= 0 ==> 0 <= y && (y <= base || y <= rounded_height(base))
            &&& base <= 0 ==> y <= 0 && (y >= base || y >= rounded_height(base))
        }),
{
    if length != 0 && slope_length != 0 {
        if needs_start_slope && distance <= slope_length {
            slope_is_monotone(base, distance, slope_length, slope_length);
            slope_ends_at_full_height(base, slope_length);
        } else if needs_end_slope && distance >= length - slope_length {
            slope_is_monotone(base, length - distance, slope_length, slope_length);
            slope_ends_at_full_height(base, slope_length);
        }
    }
}

/// A highway with a slope at its start begins on the ground.
pub proof fn elevation_starts_on_the_ground(
    length: int,
    base: i32,
    needs_end_slope: bool,
    slope_length: int,
)
    requires
        0 < length,
        0 < slope_length,
    ensures
        point_elevation(0, length, base, true, needs_end_slope, slope_length) == 0,
{
    slope_starts_on_the_ground(base, slope_length);
}

/// A highway with a slope at its end, and too long for a slope at its start to
/// reach that far, ends on the ground.
pub proof fn elevation_ends_on_the_ground(
    length: int,
    base: i32,
    needs_start_slope: bool,
    slope_length: int,
)
    requires
        0 < length,
        0 < slope_length,
        needs_start_slope ==> slope_length < length,
    ensures
        point_elevation(length, length, base, needs_start_slope, true, slope_length) == 0,
{
    slope_starts_on_the_ground(base, slope_length);
}

/// Outside its slopes a highway lies at full height.
pub proof fn elevation_is_full_outside_slopes(
    distance: int,
    length: int,
    base: i32,
    needs_start_slope: bool,
    needs_end_slope: bool,
    slope_length: int,
)
    requires
        needs_start_slope ==> slope_length < distance,
        needs_end_slope ==> distance < length - slope_length,
    ensures
        point_elevation(
            distance,
            length,
            base,
            needs_start_slope,
            needs_end_slope,
            slope_length,
        ) == base,
{
}

proof fn lemma_slope_is_straight(base: i32, distance: int, slope_length: int)
    requires
        0 <= distance <= slope_length,
        0 < slope_length,
    ensures
        ({
            let risen = height_on_slope(base, distance, slope_length) * slope_length;
            let exact = base * distance;
            &&& base >= 0 ==> {
                &&& 0 <= exact
                &&& 0x20_0000 * (risen - exact) <= exact
                &&& 0x20_0000 * (exact - risen - slope_length) <= exact
            }
            &&& base <= 0 ==> {
                &&& exact <= 0
                &&& 0x20_0000 * (exact - risen) <= -exact
                &&& 0x20_0000 * (risen - exact - slope_length) <= -exact
            }
        }),
{
    let m = if base >= 0 {
        base as int
    } else {
        -base
    };
    let share = binary32::quotient(
        binary32::from_int(distance),
        binary32::from_int(slope_length),
    );
    let h = binary32::truncated(binary32::product(binary32::from_int(m), share));
    binary32::lemma_share_accuracy(m, distance, slope_length);
    lemma_height_bounds(m, distance, slope_length);
    assert((h + 1) * slope_length == h * slope_length + slope_length) by (nonlinear_arith);
    assert(m * distance >= 0) by (nonlinear_arith)
        requires
            m >= 0,
            distance >= 0,
    ;
    assert((-h) * slope_length == -(h * slope_length)) by (nonlinear_arith);
    assert(h * slope_length >= 0) by (nonlinear_arith)
        requires
            h >= 0,
            slope_length >= 0,
    ;
    if base < 0 {
        assert(base * distance == -(m * distance)) by (nonlinear_arith)
            requires
                base == -m,
        ;
    }
    if base == 0 {
        assert(0 * distance == 0);
    }
    if base >= 0 && h > i32::MAX {
        let top = i32::MAX * slope_length;
        assert(top <= h * slope_length) by (nonlinear_arith)
            requires
                top == i32::MAX * slope_length,
                i32::MAX <= h,
                slope_length > 0,
        ;
        assert(base * distance <= top) by (nonlinear_arith)
            requires
                top == i32::MAX * slope_length,
                0 <= base <= i32::MAX,
                0 <= distance <= slope_length,
        ;
    }
}

/// A slope is a straight ramp: `distance` blocks up a slope of `slope_length`
/// blocks, a highway has risen the share `distance / slope_length` of the full
/// height, to the block. The same holds of the slope at the end, seen from the
/// end. (A ramp whose height times length has more than 21 bits may be off by
/// what single precision loses in addition.)
pub proof fn slopes_are_straight_ramps(
    distance: int,
    length: int,
    base: i32,
    needs_start_slope: bool,
    needs_end_slope: bool,
    slope_length: int,
)
    requires
        0 <= distance <= length,
        0 < length,
        0 < slope_length,
    ensures
        ({
            let y = point_elevation(
                distance,
                length,
                base,
                needs_start_slope,
                needs_end_slope,
                slope_length,
            );
            let on_start = needs_start_slope && distance <= slope_length;
            let on_end = !on_start && needs_end_slope && length - distance <= slope_length;
            &&& on_start ==> {
                let off = y * slope_length - base * distance;
                &&& -0x20_0000 < base * distance < 0x20_0000 ==> -slope_length <= off
                    <= slope_length
                &&& base >= 0 ==> 0x20_0000 * off <= base * distance && 0x20_0000 * (-off
                    - slope_length) <= base * distance
                &&& base <= 0 ==> 0x20_0000 * -off <= -(base * distance) && 0x20_0000 * (off
                    - slope_length) <= -(base * distance)
            }
            &&& on_end ==> {
                let off = y * slope_length - base * (length - distance);
                &&& -0x20_0000 < base * (length - distance) < 0x20_0000 ==> -slope_length <= off
                    <= slope_length
                &&& base >= 0 ==> 0x20_0000 * off <= base * (length - distance) && 0x20_0000 * (
                -off - slope_length) <= base * (length - distance)
                &&& base <= 0 ==> 0x20_0000 * -off <= -(base * (length - distance)) && 0x20_0000
                    * (off - slope_length) <= -(base * (length - distance))
            }
            &&& !on_start && !on_end ==> y == base
        }),
{
    if needs_start_slope && distance <= slope_length {
        lemma_slope_is_straight(base, distance, slope_length);
    } else if needs_end_slope && length - distance <= slope_length {
        lemma_slope_is_straight(base, length - distance, slope_length);
    }
}

/// A slope has no steps: where it is at least as long as it is high, one block
/// along it is at most two blocks up or down.
pub proof fn slopes_have_no_steps(
    distance: int,
    length: int,
    base: i32,
    needs_end_slope: bool,
    slope_length: int,
)
    requires
        0 <= distance < slope_length <= length,
        -slope_length <= base <= slope_length,
        -0x20_0000 < base * slope_length < 0x20_0000,
    ensures
        -2 <= point_elevation(distance + 1, length, base, true, needs_end_slope, slope_length)
            - point_elevation(distance, length, base, true, needs_end_slope, slope_length) <= 2,
{
    let near = point_elevation(distance, length, base, true, needs_end_slope, slope_length);
    let far = point_elevation(distance + 1, length, base, true, needs_end_slope, slope_length);
    slopes_are_straight_ramps(distance, length, base, true, needs_end_slope, slope_length);
    slopes_are_straight_ramps(distance + 1, length, base, true, needs_end_slope, slope_length);
    slope_is_monotone(base, distance, distance + 1, slope_length);
    let s = slope_length;
    let rise = far - near;
    assert(base * (distance + 1) == base * distance + base) by (nonlinear_arith);
    assert(-0x20_0000 < base * distance < 0x20_0000 && -0x20_0000 < base * (distance + 1)
        < 0x20_0000) by (nonlinear_arith)
        requires
            0 <= distance < s,
            -0x20_0000 < base * s < 0x20_0000,
    ;
    lemma_slope_is_straight(base, distance, s);
    lemma_slope_is_straight(base, distance + 1, s);
    assert(rise * s == far * s - near * s) by (nonlinear_arith)
        requires
            rise == far - near,
    ;
    assert(-2 <= rise <= 2) by (nonlinear_arith)
        requires
            -2 * s <= rise * s <= 2 * s,
            s > 0,
    ;
}

/// The slope at the end of a highway is the slope at its start, seen from the
/// other side.
pub proof fn end_slopes_mirror_start_slopes(
    distance: int,
    length: int,
    base: i32,
    slope_length: int,
)
    ensures
        point_elevation(distance, length, base, false, true, slope_length) == point_elevation(
            length - distance,
            length,
            base,
            true,
            false,
            slope_length,
        ),
{
}

/// A segment between two nodes is as long as they are apart, without the
/// fraction of a block: the length is the largest integer whose square is not
/// above `dx^2 + dz^2`. For segments of 4096 blocks and more the squares are
/// taken to a thousand, which is as fine as single precision tells them apart.
pub proof fn segments_are_as_long_as_their_nodes_are_apart(a: ProcessedNode, b: ProcessedNode)
    requires
        (b.x - a.x) * (b.x - a.x) + (b.z - a.z) * (b.z - a.z) <= i32::MAX,
    ensures
        ({
            let squared = (b.x - a.x) * (b.x - a.x) + (b.z - a.z) * (b.z - a.z);
            let r = way_length(seq![a, b]);
            &&& 0 <= r
            &&& squared < 0x100_0000 ==> r * r <= squared < (r + 1) * (r + 1)
            &&& r * r - 1024 <= squared < (r + 1) * (r + 1) + 1024
        }),
{
    lemma_squares_nonnegative(a, b);
    let nodes = seq![a, b];
    assert(way_length(nodes.drop_last()) == 0);
    if squared_distance(a, b) < 0x100_0000 {
        binary32::lemma_sqrt_exact(squared_distance(a, b));
    }
    binary32::lemma_sqrt_near(squared_distance(a, b));
}

/// A way with a single node or none has no length.
pub proof fn single_nodes_have_no_length(nodes: Seq<ProcessedNode>)
    requires
        nodes.len() < 2,
    ensures
        way_length(nodes) == 0,
{
}

/// A way can be measured where the squared length of each of its segments fits in
/// 31 bits.
pub proof fn short_segments_can_be_measured(nodes: Seq<ProcessedNode>)
    requires
        forall|i: int|
            0 < i < nodes.len() ==> {
                let dx = nodes[i - 1].x - (#[trigger] nodes[i]).x;
                let dz = nodes[i - 1].z - nodes[i].z;
                dx * dx + dz * dz <= 0x7fff_ffff
            },
    ensures
        segments_measurable(nodes),
{
    assert forall|i: int| 0 < i < nodes.len() implies squared_distance(
        nodes[i - 1],
        #[trigger] nodes[i],
    ) <= i32::MAX by {
        let (a, b) = (nodes[i - 1], nodes[i]);
        let dx = a.x - b.x;
        let dz = a.z - b.z;
        assert((-dx) * (-dx) == dx * dx) by (nonlinear_arith);
        assert((-dz) * (-dz) == dz * dz) by (nonlinear_arith);
    }
}

} // verus!
