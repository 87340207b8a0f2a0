//! The height of a road surface over uneven ground.
//!
//! A road is flat across its width: all blocks of one cross-section lie at the
//! median of the ground levels under it. Along its length it follows the
//! terrain, with single-block bumps and holes smoothed away.

use crate::world_editor::Terrain;
use crate::world_editor::WorldEditor;
use vstd::prelude::*;

verus! {

/// The largest half-width of a road whose surface is levelled.
pub const MAX_BLOCK_RANGE: i32 = 8;

/// Ascending order.
pub open spec fn ascending() -> spec_fn(i32, i32) -> bool {
    |a: i32, b: i32| a <= b
}

/// The middle one of some numbers in ascending order.
pub open spec fn median(s: Seq<i32>) -> i32 {
    s.sort_by(ascending())[s.len() as int / 2]
}

/// The ground levels across the road at one point of its length. For travel
/// along the x axis the strip runs along z, through the column `set_x`; for
/// travel along the z axis it is the other way round.
pub open spec fn cross_section(
    terrain: Terrain,
    set_x: int,
    set_z: int,
    centerline_x: int,
    centerline_z: int,
    block_range: int,
    dir_horizontal: bool,
) -> Seq<i32> {
    Seq::new(
        (2 * block_range + 1) as nat,
        |i: int|
            if dir_horizontal {
                terrain.level(set_x as i32, (centerline_z - block_range + i) as i32)
            } else {
                terrain.level((centerline_x - block_range + i) as i32, set_z as i32)
            },
    )
}

/// The median of the ground levels across the road.
pub open spec fn cross_median(
    terrain: Terrain,
    set_x: int,
    set_z: int,
    centerline_x: int,
    centerline_z: int,
    block_range: int,
    dir_horizontal: bool,
) -> i32 {
    median(
        cross_section(
            terrain,
            set_x,
            set_z,
            centerline_x,
            centerline_z,
            block_range,
            dir_horizontal,
        ),
    )
}

/// The height of the road surface at a cell: the median of the cross-section
/// medians there, one block before and one block after.
pub open spec fn surface_height(
    terrain: Terrain,
    set_x: int,
    set_z: int,
    centerline_x: int,
    centerline_z: int,
    block_range: int,
    dir_horizontal: bool,
) -> i32 {
    let dx = if dir_horizontal {
        1int
    } else {
        0int
    };
    let dz = if dir_horizontal {
        0int
    } else {
        1int
    };
    median(
        seq![
            cross_median(
                terrain,
                set_x - dx,
                set_z - dz,
                centerline_x,
                centerline_z,
                block_range,
                dir_horizontal,
            ),
            cross_median(
                terrain,
                set_x,
                set_z,
                centerline_x,
                centerline_z,
                block_range,
                dir_horizontal,
            ),
            cross_median(
                terrain,
                set_x + dx,
                set_z + dz,
                centerline_x,
                centerline_z,
                block_range,
                dir_horizontal,
            ),
        ],
    )
}

/// Whether the cross-section of a road with this centerline stays on the map.
pub open spec fn cross_section_on_map(
    centerline_x: int,
    centerline_z: int,
    block_range: int,
    dir_horizontal: bool,
) -> bool {
    let c = if dir_horizontal {
        centerline_z
    } else {
        centerline_x
    };
    i32::MIN <= c - block_range && c + block_range <= i32::MAX
}

proof fn lemma_ascending_is_total()
    ensures
        vstd::relations::total_ordering(ascending()),
{
}

proof fn lemma_sorted_is_sort(s: Seq<i32>, t: Seq<i32>)
    requires
        vstd::relations::sorted_by(t, ascending()),
        s.to_multiset() == t.to_multiset(),
    ensures
        t == s.sort_by(ascending()),
        t.len() == s.len(),
{
    lemma_ascending_is_total();
    s.lemma_sort_by_ensures(ascending());
    vstd::seq_lib::lemma_sorted_unique(t, s.sort_by(ascending()), ascending());
    broadcast use vstd::seq_lib::group_to_multiset_ensures;

    assert(s.to_multiset().len() == s.len());
    assert(t.to_multiset().len() == t.len());
}

/// Puts `v` into its place among sorted numbers.
fn insert_sorted(sorted: &mut Vec<i32>, v: i32)
    requires
        vstd::relations::sorted_by(old(sorted)@, ascending()),
        old(sorted)@.len() < usize::MAX,
    ensures
        vstd::relations::sorted_by(final(sorted)@, ascending()),
        final(sorted)@.to_multiset() == old(sorted)@.to_multiset().insert(v),
        final(sorted)@.len() == old(sorted)@.len() + 1,
{
    let n: usize = sorted.len();
    let mut i: usize = 0;
    while i < n && sorted[i] <= v
        invariant
            n == sorted@.len(),
            i <= n,
            sorted@ == old(sorted)@,
            forall|j: int| 0 <= j < i ==> sorted@[j] <= v,
        decreases n - i,
    {
        i = i + 1;
    }
    let ghost before = sorted@;
    sorted.insert(i, v);
    proof {
        vstd::seq_lib::to_multiset_insert(before, i as int, v);
        let after = sorted@;
        assert forall|a: int, b: int| 0 <= a < b < after.len() implies #[trigger] ascending()(
            after[a],
            after[b],
        ) by {
            if i < n {
                assert(before[i as int] > v);
            }
            if b < i {
                assert(ascending()(before[a], before[b]));
            } else if a < i && b > i {
                assert(ascending()(before[a], before[b - 1]));
            } else if a == i && b > i {
                if b - 1 > i {
                    assert(ascending()(before[i as int], before[b - 1]));
                }
            } else if a > i {
                assert(ascending()(before[a - 1], before[b - 1]));
            }
        }
    }
}

/// The median of the ground levels across the road, at one point of its
/// length.
pub fn perpendicular_median_raw(
    editor: &WorldEditor,
    set_x: i32,
    set_z: i32,
    centerline_x: i32,
    centerline_z: i32,
    block_range: i32,
    dir_horizontal: bool,
) -> (r: i32)
    requires
        0 <= block_range <= MAX_BLOCK_RANGE,
        cross_section_on_map(
            centerline_x as int,
            centerline_z as int,
            block_range as int,
            dir_horizontal,
        ),
    ensures
        r == cross_median(
            editor.terrain(),
            set_x as int,
            set_z as int,
            centerline_x as int,
            centerline_z as int,
            block_range as int,
            dir_horizontal,
        ),
{
    let ghost section = cross_section(
        editor.terrain(),
        set_x as int,
        set_z as int,
        centerline_x as int,
        centerline_z as int,
        block_range as int,
        dir_horizontal,
    );
    let mut levels: Vec<i32> = Vec::with_capacity(2 * MAX_BLOCK_RANGE as usize + 1);
    let mut i: i32 = 0;
    assert(section.take(0) =~= Seq::empty());
    assert(levels@ =~= section.take(0));
    while i <= 2 * block_range
        invariant
            0 <= i <= 2 * block_range + 1,
            0 <= block_range <= 8,
            cross_section_on_map(
                centerline_x as int,
                centerline_z as int,
                block_range as int,
                dir_horizontal,
            ),
            section == cross_section(
                editor.terrain(),
                set_x as int,
                set_z as int,
                centerline_x as int,
                centerline_z as int,
                block_range as int,
                dir_horizontal,
            ),
            levels@.len() == i,
            vstd::relations::sorted_by(levels@, ascending()),
            levels@.to_multiset() == section.take(i as int).to_multiset(),
        decreases 2 * block_range + 1 - i,
    {
        let level: i32 = if dir_horizontal {
            editor.get_ground_level(set_x, centerline_z - block_range + i)
        } else {
            editor.get_ground_level(centerline_x - block_range + i, set_z)
        };
        insert_sorted(&mut levels, level);
        proof {
            assert(section.take(i + 1) =~= section.take(i as int).push(level));
            broadcast use vstd::seq_lib::group_to_multiset_ensures;

        }
        i = i + 1;
    }
    proof {
        assert(section.take(i as int) =~= section);
        lemma_sorted_is_sort(section, levels@);
    }
    levels[block_range as usize]
}

/// The height of the road surface at a cell: the median of the ground levels
/// across the road, with holes and bumps of a single block smoothed away.
pub fn perpendicular_median_ground_y(
    editor: &WorldEditor,
    set_x: i32,
    set_z: i32,
    centerline_x: i32,
    centerline_z: i32,
    block_range: i32,
    dir_horizontal: bool,
) -> (r: i32)
    requires
        0 <= block_range <= MAX_BLOCK_RANGE,
        cross_section_on_map(
            centerline_x as int,
            centerline_z as int,
            block_range as int,
            dir_horizontal,
        ),
        dir_horizontal ==> i32::MIN < set_x < i32::MAX,
        !dir_horizontal ==> i32::MIN < set_z < i32::MAX,
    ensures
        r == surface_height(
            editor.terrain(),
            set_x as int,
            set_z as int,
            centerline_x as int,
            centerline_z as int,
            block_range as int,
            dir_horizontal,
        ),
{
    let (prev_x, prev_z, next_x, next_z): (i32, i32, i32, i32) = if dir_horizontal {
        (set_x - 1, set_z, set_x + 1, set_z)
    } else {
        (set_x, set_z - 1, set_x, set_z + 1)
    };
    let t_prev: i32 = perpendicular_median_raw(
        editor,
        prev_x,
        prev_z,
        centerline_x,
        centerline_z,
        block_range,
        dir_horizontal,
    );
    let t_curr: i32 = perpendicular_median_raw(
        editor,
        set_x,
        set_z,
        centerline_x,
        centerline_z,
        block_range,
        dir_horizontal,
    );
    let t_next: i32 = perpendicular_median_raw(
        editor,
        next_x,
        next_z,
        centerline_x,
        centerline_z,
        block_range,
        dir_horizontal,
    );
    let ghost taps = seq![t_prev, t_curr, t_next];
    let mut sorted: Vec<i32> = Vec::with_capacity(3);
    insert_sorted(&mut sorted, t_prev);
    insert_sorted(&mut sorted, t_curr);
    insert_sorted(&mut sorted, t_next);
    proof {
        broadcast use vstd::seq_lib::group_to_multiset_ensures;

        assert(taps =~= Seq::<i32>::empty().push(t_prev).push(t_curr).push(t_next));
        lemma_sorted_is_sort(taps, sorted@);
    }
    sorted[1]
}

/// Fills a table with the height of the road surface at each point along the
/// length of a stamp: the entry `a + block_range` is for the cells that lie
/// `a` blocks along the road from the center.
pub fn precompute_row_medians(
    editor: &WorldEditor,
    centerline_x: i32,
    centerline_z: i32,
    block_range: i32,
    dir_horizontal: bool,
    out: &mut [i32],
)
    requires
        0 <= block_range <= MAX_BLOCK_RANGE,
        old(out)@.len() >= 2 * block_range + 1,
        cross_section_on_map(
            centerline_x as int,
            centerline_z as int,
            block_range as int,
            dir_horizontal,
        ),
        dir_horizontal ==> i32::MIN < centerline_x - block_range && centerline_x + block_range
            < i32::MAX,
        !dir_horizontal ==> i32::MIN < centerline_z - block_range && centerline_z + block_range
            < i32::MAX,
    ensures
        final(out)@ == Seq::new(
            old(out)@.len(),
            |i: int|
                if i <= 2 * block_range {
                    row_height(
                        editor.terrain(),
                        centerline_x as int,
                        centerline_z as int,
                        block_range as int,
                        dir_horizontal,
                        i - block_range,
                    )
                } else {
                    old(out)@[i]
                },
        ),
{
    let len: usize = 2 * block_range as usize + 1;
    let mut i: usize = 0;
    while i < len
        invariant
            i <= len,
            len == 2 * block_range + 1,
            len <= out@.len(),
            out@.len() == old(out)@.len(),
            0 <= block_range <= 8,
            cross_section_on_map(
                centerline_x as int,
                centerline_z as int,
                block_range as int,
                dir_horizontal,
            ),
            dir_horizontal ==> i32::MIN < centerline_x - block_range && centerline_x + block_range
                < i32::MAX,
            !dir_horizontal ==> i32::MIN < centerline_z - block_range && centerline_z + block_range
                < i32::MAX,
            forall|j: int| i <= j < out@.len() ==> out@[j] == old(out)@[j],
            forall|j: int|
                0 <= j < i ==> #[trigger] out@[j] == row_height(
                    editor.terrain(),
                    centerline_x as int,
                    centerline_z as int,
                    block_range as int,
                    dir_horizontal,
                    j - block_range,
                ),
        decreases len - i,
    {
        let axial: i32 = -block_range + i as i32;
        let (sx, sz): (i32, i32) = if dir_horizontal {
            (centerline_x + axial, centerline_z)
        } else {
            (centerline_x, centerline_z + axial)
        };
        out[i] = perpendicular_median_ground_y(
            editor,
            sx,
            sz,
            centerline_x,
            centerline_z,
            block_range,
            dir_horizontal,
        );
        i = i + 1;
    }
}

/// The height of the road surface `axial` blocks along the road from the
/// center of a stamp.
pub open spec fn row_height(
    terrain: Terrain,
    centerline_x: int,
    centerline_z: int,
    block_range: int,
    dir_horizontal: bool,
    axial: int,
) -> i32 {
    surface_height(
        terrain,
        if dir_horizontal {
            centerline_x + axial
        } else {
            centerline_x
        },
        if dir_horizontal {
            centerline_z
        } else {
            centerline_z + axial
        },
        centerline_x,
        centerline_z,
        block_range,
        dir_horizontal,
    )
}

proof fn lemma_triple_multiset(a: i32, b: i32, c: i32)
    ensures
        seq![a, b, c].to_multiset() == vstd::multiset::Multiset::<i32>::empty().insert(a).insert(
            b,
        ).insert(c),
{
    broadcast use vstd::seq_lib::group_to_multiset_ensures;

    assert(seq![a, b, c] =~= Seq::<i32>::empty().push(a).push(b).push(c));
    assert(Seq::<i32>::empty().to_multiset() =~= vstd::multiset::Multiset::empty());
}

proof fn lemma_median_of_sorted_triple(a: i32, b: i32, c: i32, s: Seq<i32>)
    requires
        a <= b <= c,
        s.to_multiset() == seq![a, b, c].to_multiset(),
    ensures
        median(s) == b,
{
    lemma_sorted_is_sort(s, seq![a, b, c]);
}

/// The median of a triple that runs one way is its middle: a ramp is left as
/// it is.
pub proof fn median_keeps_ramps(a: i32, b: i32, c: i32)
    requires
        a <= b <= c || a >= b >= c,
    ensures
        median(seq![a, b, c]) == b,
{
    lemma_triple_multiset(a, b, c);
    lemma_triple_multiset(c, b, a);
    if a <= b <= c {
        lemma_median_of_sorted_triple(a, b, c, seq![a, b, c]);
    } else {
        let m = vstd::multiset::Multiset::<i32>::empty();
        assert(m.insert(a).insert(b).insert(c) =~= m.insert(c).insert(b).insert(a));
        lemma_median_of_sorted_triple(c, b, a, seq![a, b, c]);
    }
}

/// The median of a triple with equal ends is that end: a hole or a bump of a
/// single block is smoothed away.
pub proof fn median_removes_single_outliers(a: i32, b: i32)
    ensures
        median(seq![a, b, a]) == a,
{
    lemma_triple_multiset(a, b, a);
    lemma_triple_multiset(b, a, a);
    lemma_triple_multiset(a, a, b);
    let m = vstd::multiset::Multiset::<i32>::empty();
    assert(m.insert(a).insert(b).insert(a) =~= m.insert(b).insert(a).insert(a));
    assert(m.insert(a).insert(b).insert(a) =~= m.insert(a).insert(a).insert(b));
    if b <= a {
        lemma_median_of_sorted_triple(b, a, a, seq![a, b, a]);
    } else {
        lemma_median_of_sorted_triple(a, a, b, seq![a, b, a]);
    }
}

/// The median of equal numbers is that number.
pub proof fn median_of_equal_numbers(s: Seq<i32>, v: i32)
    requires
        s.len() > 0,
        forall|i: int| 0 <= i < s.len() ==> s[i] == v,
    ensures
        median(s) == v,
{
    lemma_sorted_is_sort(s, s);
}

/// A road is flat across its width: the height of its surface depends on the
/// position along the road and on the centerline, not on the position across.
pub proof fn surface_is_flat_across(
    terrain: Terrain,
    along: int,
    across1: int,
    across2: int,
    centerline_x: int,
    centerline_z: int,
    block_range: int,
)
    ensures
        surface_height(terrain, along, across1, centerline_x, centerline_z, block_range, true)
            == surface_height(
            terrain,
            along,
            across2,
            centerline_x,
            centerline_z,
            block_range,
            true,
        ),
        surface_height(terrain, across1, along, centerline_x, centerline_z, block_range, false)
            == surface_height(
            terrain,
            across2,
            along,
            centerline_x,
            centerline_z,
            block_range,
            false,
        ),
{
    assert forall|p: int|
        #![auto]
        cross_section(terrain, p, across1, centerline_x, centerline_z, block_range, true)
            == cross_section(terrain, p, across2, centerline_x, centerline_z, block_range, true) by {
        assert(cross_section(terrain, p, across1, centerline_x, centerline_z, block_range, true)
            =~= cross_section(terrain, p, across2, centerline_x, centerline_z, block_range, true));
    }
    assert forall|p: int|
        #![auto]
        cross_section(terrain, across1, p, centerline_x, centerline_z, block_range, false)
            == cross_section(
            terrain,
            across2,
            p,
            centerline_x,
            centerline_z,
            block_range,
            false,
        ) by {
        assert(cross_section(terrain, across1, p, centerline_x, centerline_z, block_range, false)
            =~= cross_section(
            terrain,
            across2,
            p,
            centerline_x,
            centerline_z,
            block_range,
            false,
        ));
    }
}

/// The table of a stamp holds the height of the road surface at every cell of
/// the stamp, under the cell's offset along the road.
pub proof fn row_height_serves_every_cell(
    terrain: Terrain,
    centerline_x: int,
    centerline_z: int,
    block_range: int,
    dir_horizontal: bool,
    dx: int,
    dz: int,
)
    ensures
        surface_height(
            terrain,
            centerline_x + dx,
            centerline_z + dz,
            centerline_x,
            centerline_z,
            block_range,
            dir_horizontal,
        ) == row_height(
            terrain,
            centerline_x,
            centerline_z,
            block_range,
            dir_horizontal,
            if dir_horizontal {
                dx
            } else {
                dz
            },
        ),
{
    if dir_horizontal {
        surface_is_flat_across(
            terrain,
            centerline_x + dx,
            centerline_z + dz,
            centerline_z,
            centerline_x,
            centerline_z,
            block_range,
        );
    } else {
        surface_is_flat_across(
            terrain,
            centerline_z + dz,
            centerline_x + dx,
            centerline_x,
            centerline_x,
            centerline_z,
            block_range,
        );
    }
}

/// On level ground the road lies on the ground.
pub proof fn surface_follows_level_ground(
    terrain: Terrain,
    level: i32,
    set_x: int,
    set_z: int,
    centerline_x: int,
    centerline_z: int,
    block_range: int,
    dir_horizontal: bool,
)
    requires
        0 <= block_range,
        forall|x: i32, z: i32| #[trigger] terrain.level(x, z) == level,
    ensures
        surface_height(
            terrain,
            set_x,
            set_z,
            centerline_x,
            centerline_z,
            block_range,
            dir_horizontal,
        ) == level,
{
    assert forall|x: int, z: int|
        #[trigger] cross_median(
            terrain,
            x,
            z,
            centerline_x,
            centerline_z,
            block_range,
            dir_horizontal,
        ) == level by {
        median_of_equal_numbers(
            cross_section(terrain, x, z, centerline_x, centerline_z, block_range, dir_horizontal),
            level,
        );
    }
    median_keeps_ramps(level, level, level);
}

proof fn lemma_filter_around(s: Seq<i32>, i: int, keep: spec_fn(i32) -> bool)
    requires
        0 <= i < s.len(),
    ensures
        s.filter(keep).len() == s.remove(i).filter(keep).len() + if keep(s[i]) {
            1int
        } else {
            0int
        },
{
    broadcast use Seq::filter_distributes_over_add;

    let a = s.take(i);
    let b = s.skip(i + 1);
    let one = Seq::<i32>::empty().push(s[i]);
    assert(s =~= a + one + b);
    assert(s.remove(i) =~= a + b);
    assert(one.drop_last() =~= Seq::<i32>::empty());
    assert(Seq::<i32>::empty().filter(keep).len() == 0) by {
        reveal(Seq::filter);
    }
    assert(one.filter(keep).len() == if keep(s[i]) {
        1int
    } else {
        0int
    }) by {
        reveal_with_fuel(Seq::filter, 2);
    }
}

/// How many numbers pass a test does not depend on their order.
proof fn lemma_filter_ignores_order(s: Seq<i32>, t: Seq<i32>, keep: spec_fn(i32) -> bool)
    requires
        s.to_multiset() == t.to_multiset(),
    ensures
        s.filter(keep).len() == t.filter(keep).len(),
    decreases s.len(),
{
    broadcast use vstd::seq_lib::group_to_multiset_ensures;

    assert(s.to_multiset().len() == s.len());
    assert(t.to_multiset().len() == t.len());
    if s.len() == 0 {
        assert(s =~= t);
    } else {
        let v = s[0];
        assert(s.contains(v));
        assert(t.to_multiset().count(v) > 0);
        assert(t.contains(v));
        let i = choose|i: int| 0 <= i < t.len() && t[i] == v;
        lemma_filter_around(s, 0, keep);
        lemma_filter_around(t, i, keep);
        assert(s.remove(0).to_multiset() =~= t.remove(i).to_multiset());
        lemma_filter_ignores_order(s.remove(0), t.remove(i), keep);
    }
}

proof fn lemma_filter_at_least(s: Seq<i32>, from: int, to: int, keep: spec_fn(i32) -> bool)
    requires
        0 <= from <= to <= s.len(),
        forall|i: int| from <= i < to ==> keep(#[trigger] s[i]),
    ensures
        s.filter(keep).len() >= to - from,
    decreases s.len(),
{
    if from < to {
        lemma_filter_around(s, from, keep);
        let rest = s.remove(from);
        assert forall|i: int| from <= i < to - 1 implies keep(#[trigger] rest[i]) by {
            assert(rest[i] == s[i + 1]);
        }
        lemma_filter_at_least(rest, from, to - 1, keep);
    }
}

/// The height of a cross-section has a block of the ground in the middle: of
/// the `2 r + 1` ground levels across the road, from `r` blocks on one side of
/// the centerline to `r` blocks on the other, at least `r + 1` are not above it
/// and at least `r + 1` are not below it.
pub proof fn cross_medians_lie_in_the_middle(
    terrain: Terrain,
    set_x: int,
    set_z: int,
    centerline_x: int,
    centerline_z: int,
    block_range: int,
    dir_horizontal: bool,
)
    requires
        0 <= block_range,
    ensures
        ({
            let levels = Seq::new(
                (2 * block_range + 1) as nat,
                |i: int|
                    if dir_horizontal {
                        terrain.level(set_x as i32, (centerline_z + (i - block_range)) as i32)
                    } else {
                        terrain.level((centerline_x + (i - block_range)) as i32, set_z as i32)
                    },
            );
            let m = cross_median(
                terrain,
                set_x,
                set_z,
                centerline_x,
                centerline_z,
                block_range,
                dir_horizontal,
            );
            &&& levels.filter(|level: i32| level <= m).len() >= block_range + 1
            &&& levels.filter(|level: i32| level >= m).len() >= block_range + 1
        }),
{
    let levels = Seq::new(
        (2 * block_range + 1) as nat,
        |i: int|
            if dir_horizontal {
                terrain.level(set_x as i32, (centerline_z + (i - block_range)) as i32)
            } else {
                terrain.level((centerline_x + (i - block_range)) as i32, set_z as i32)
            },
    );
    let section = cross_section(
        terrain,
        set_x,
        set_z,
        centerline_x,
        centerline_z,
        block_range,
        dir_horizontal,
    );
    assert(levels =~= section);
    let m = median(section);
    let sorted = section.sort_by(ascending());
    lemma_ascending_is_total();
    section.lemma_sort_by_ensures(ascending());
    broadcast use vstd::seq_lib::group_to_multiset_ensures;

    assert(sorted.len() == section.len()) by {
        assert(sorted.to_multiset().len() == section.to_multiset().len());
    }
    let low = |level: i32| level <= m;
    let high = |level: i32| level >= m;
    assert forall|i: int| 0 <= i < block_range + 1 implies low(#[trigger] sorted[i]) by {
        if i < block_range {
            assert(ascending()(sorted[i], sorted[block_range]));
        }
    }
    assert forall|i: int| block_range <= i < sorted.len() implies high(#[trigger] sorted[i]) by {
        if i > block_range {
            assert(ascending()(sorted[block_range], sorted[i]));
        }
    }
    lemma_filter_at_least(sorted, 0, block_range + 1, low);
    lemma_filter_at_least(sorted, block_range, sorted.len() as int, high);
    lemma_filter_ignores_order(section, sorted, low);
    lemma_filter_ignores_order(section, sorted, high);
}

/// The road surface is smoothed along the road, whichever way it runs: of the
/// cross-section heights one block before a cell, at it and one block after it,
/// the surface takes the middle one. Where the first and the last are equal,
/// that is the height, whatever lies between.
pub proof fn surface_is_smoothed_along_the_road(
    terrain: Terrain,
    set_x: int,
    set_z: int,
    centerline_x: int,
    centerline_z: int,
    block_range: int,
    dir_horizontal: bool,
)
    ensures
        ({
            let (cx, cz, r, h) = (centerline_x, centerline_z, block_range, dir_horizontal);
            let before = if dir_horizontal {
                cross_median(terrain, set_x - 1, set_z, cx, cz, r, h)
            } else {
                cross_median(terrain, set_x, set_z - 1, cx, cz, r, h)
            };
            let here = cross_median(terrain, set_x, set_z, cx, cz, r, h);
            let after = if dir_horizontal {
                cross_median(terrain, set_x + 1, set_z, cx, cz, r, h)
            } else {
                cross_median(terrain, set_x, set_z + 1, cx, cz, r, h)
            };
            let height = surface_height(terrain, set_x, set_z, cx, cz, r, h);
            &&& before == after ==> height == before
            &&& before <= here <= after || after <= here <= before ==> height == here
            &&& here <= before <= after || after <= before <= here ==> height == before
            &&& before <= after <= here || here <= after <= before ==> height == after
        }),
{
    let (cx, cz, r, h) = (centerline_x, centerline_z, block_range, dir_horizontal);
    let before = if dir_horizontal {
        cross_median(terrain, set_x - 1, set_z, cx, cz, r, h)
    } else {
        cross_median(terrain, set_x, set_z - 1, cx, cz, r, h)
    };
    let here = cross_median(terrain, set_x, set_z, cx, cz, r, h);
    let after = if dir_horizontal {
        cross_median(terrain, set_x + 1, set_z, cx, cz, r, h)
    } else {
        cross_median(terrain, set_x, set_z + 1, cx, cz, r, h)
    };
    assert(surface_height(terrain, set_x, set_z, cx, cz, r, h) == median(
        seq![before, here, after],
    ));
    median_of_three_is_the_middle_one(before, here, after);
}

/// The median of three numbers is the one between the other two.
pub proof fn median_of_three_is_the_middle_one(a: i32, b: i32, c: i32)
    ensures
        a <= b <= c || c <= b <= a ==> median(seq![a, b, c]) == b,
        b <= a <= c || c <= a <= b ==> median(seq![a, b, c]) == a,
        a <= c <= b || b <= c <= a ==> median(seq![a, b, c]) == c,
{
    let m = vstd::multiset::Multiset::<i32>::empty();
    lemma_triple_multiset(a, b, c);
    lemma_triple_multiset(a, c, b);
    lemma_triple_multiset(b, a, c);
    lemma_triple_multiset(b, c, a);
    lemma_triple_multiset(c, a, b);
    lemma_triple_multiset(c, b, a);
    let all = m.insert(a).insert(b).insert(c);
    assert(all =~= m.insert(a).insert(c).insert(b));
    assert(all =~= m.insert(b).insert(a).insert(c));
    assert(all =~= m.insert(b).insert(c).insert(a));
    assert(all =~= m.insert(c).insert(a).insert(b));
    assert(all =~= m.insert(c).insert(b).insert(a));
    let s = seq![a, b, c];
    if a <= b <= c {
        lemma_median_of_sorted_triple(a, b, c, s);
    }
    if c <= b <= a {
        lemma_median_of_sorted_triple(c, b, a, s);
    }
    if b <= a <= c {
        lemma_median_of_sorted_triple(b, a, c, s);
    }
    if c <= a <= b {
        lemma_median_of_sorted_triple(c, a, b, s);
    }
    if a <= c <= b {
        lemma_median_of_sorted_triple(a, c, b, s);
    }
    if b <= c <= a {
        lemma_median_of_sorted_triple(b, c, a, s);
    }
}

/// A road does not care for the compass: with x and z of the terrain, of the
/// cell, of the centerline and of the direction exchanged, its surface is as
/// high as before.
pub proof fn surface_height_exchanges_axes(
    terrain: Terrain,
    exchanged: Terrain,
    set_x: int,
    set_z: int,
    centerline_x: int,
    centerline_z: int,
    block_range: int,
    dir_horizontal: bool,
)
    requires
        forall|x: i32, z: i32| #[trigger] terrain.level(x, z) == exchanged.level(z, x),
    ensures
        surface_height(
            terrain,
            set_x,
            set_z,
            centerline_x,
            centerline_z,
            block_range,
            dir_horizontal,
        ) == surface_height(
            exchanged,
            set_z,
            set_x,
            centerline_z,
            centerline_x,
            block_range,
            !dir_horizontal,
        ),
{
    let (cx, cz, r, h) = (centerline_x, centerline_z, block_range, dir_horizontal);
    assert forall|x: int, z: int| #[trigger]
        cross_section(terrain, x, z, cx, cz, r, h) == cross_section(
            exchanged,
            z,
            x,
            cz,
            cx,
            r,
            !h,
        ) by {
        assert(cross_section(terrain, x, z, cx, cz, r, h) =~= cross_section(
            exchanged,
            z,
            x,
            cz,
            cx,
            r,
            !h,
        ));
    }
    let d = if h {
        (1int, 0int)
    } else {
        (0int, 1int)
    };
    assert(cross_median(terrain, set_x - d.0, set_z - d.1, cx, cz, r, h) == cross_median(
        exchanged,
        set_z - d.1,
        set_x - d.0,
        cz,
        cx,
        r,
        !h,
    ));
    assert(cross_median(terrain, set_x, set_z, cx, cz, r, h) == cross_median(
        exchanged,
        set_z,
        set_x,
        cz,
        cx,
        r,
        !h,
    ));
    assert(cross_median(terrain, set_x + d.0, set_z + d.1, cx, cz, r, h) == cross_median(
        exchanged,
        set_z + d.1,
        set_x + d.0,
        cz,
        cx,
        r,
        !h,
    ));
}

/// A cross-section is on the map where no coordinate across the road that is its
/// half-width away from the centerline leaves 32 bits.
pub proof fn cross_sections_away_from_the_edge_are_on_the_map(
    centerline_x: int,
    centerline_z: int,
    block_range: int,
    dir_horizontal: bool,
)
    ensures
        dir_horizontal ==> (cross_section_on_map(
            centerline_x,
            centerline_z,
            block_range,
            dir_horizontal,
        ) <==> -0x8000_0000 <= centerline_z - block_range && centerline_z + block_range
            <= 0x7fff_ffff),
        !dir_horizontal ==> (cross_section_on_map(
            centerline_x,
            centerline_z,
            block_range,
            dir_horizontal,
        ) <==> -0x8000_0000 <= centerline_x - block_range && centerline_x + block_range
            <= 0x7fff_ffff),
{
}

} // verus!
