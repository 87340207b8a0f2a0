//! Pillars under elevated highways and bridges.

use crate::blocks::Block;
use crate::world_editor;
use crate::world_editor::Edit;
use crate::world_editor::WorldEditor;
use vstd::prelude::*;

verus! {

/// A request for a stone brick, at a height above the ground or an absolute
/// one.
pub open spec fn brick(absolute: bool, x: int, y: int, z: int) -> Edit {
    if absolute {
        Edit::SetBlockAbsolute { block: Block::StoneBricks, x: x as i32, y: y as i32, z: z as i32 }
    } else {
        Edit::SetBlock { block: Block::StoneBricks, x: x as i32, y: y as i32, z: z as i32 }
    }
}

/// A column of bricks from `bottom` up to, but not at, `top`.
pub open spec fn shaft(absolute: bool, x: int, bottom: int, top: int, z: int) -> Seq<Edit> {
    let height = if bottom < top {
        (top - bottom) as nat
    } else {
        0
    };
    Seq::new(height, |i: int| brick(absolute, x, bottom + i, z))
}

/// A layer of three by three bricks around a column.
pub open spec fn footing(absolute: bool, x: int, y: int, z: int) -> Seq<Edit> {
    Seq::new(9, |i: int| brick(absolute, x - 1 + i / 3, y, z - 1 + i % 3))
}

/// Whether a pillar stands at the cell at offset `(dx, dz)` from the point
/// `(x, z)` of a centerline: pillars stand on the centerline, on every eighth
/// diagonal.
pub open spec fn pillar_stands(x: int, z: int, dx: i32, dz: i32) -> bool {
    dx == 0 && dz == 0 && (x + z) % 8 == 0
}

fn place_brick(editor: &mut WorldEditor, absolute: bool, x: i32, y: i32, z: i32)
    ensures
        final(editor).follows(*old(editor), brick(absolute, x as int, y as int, z as int)),
{
    if absolute {
        editor.set_block_absolute(Block::StoneBricks, x, y, z);
    } else {
        editor.set_block(Block::StoneBricks, x, y, z);
    }
}

fn build_shaft(editor: &mut WorldEditor, absolute: bool, x: i32, bottom: i32, top: i32, z: i32)
    ensures
        final(editor).extends(
            *old(editor),
            shaft(absolute, x as int, bottom as int, top as int, z as int),
        ),
{
    let ghost all = shaft(absolute, x as int, bottom as int, top as int, z as int);
    let mut y: i32 = bottom;
    assert(all.take(0) =~= Seq::empty());
    proof {
        world_editor::extends_by_nothing(*editor);
    }
    while y < top
        invariant
            bottom <= y,
            bottom < top ==> y <= top,
            bottom >= top ==> y == bottom,
            all == shaft(absolute, x as int, bottom as int, top as int, z as int),
            editor.extends(*old(editor), all.take(y - bottom)),
        decreases top - y,
    {
        broadcast use world_editor::edits_accumulate;

        place_brick(editor, absolute, x, y, z);
        assert(all.take(y - bottom + 1) =~= all.take(y - bottom).push(all[y - bottom]));
        y = y + 1;
    }
    assert(all.take(y - bottom) =~= all);
}

fn build_footing(editor: &mut WorldEditor, absolute: bool, x: i32, y: i32, z: i32)
    requires
        i32::MIN < x < i32::MAX,
        i32::MIN < z < i32::MAX,
    ensures
        final(editor).extends(*old(editor), footing(absolute, x as int, y as int, z as int)),
{
    let ghost all = footing(absolute, x as int, y as int, z as int);
    let mut i: i32 = 0;
    assert(all.take(0) =~= Seq::empty());
    proof {
        world_editor::extends_by_nothing(*editor);
    }
    while i < 9
        invariant
            0 <= i <= 9,
            i32::MIN < x < i32::MAX,
            i32::MIN < z < i32::MAX,
            all == footing(absolute, x as int, y as int, z as int),
            editor.extends(*old(editor), all.take(i as int)),
        decreases 9 - i,
    {
        broadcast use world_editor::edits_accumulate;

        let base_dx: i32 = i / 3 - 1;
        let base_dz: i32 = i % 3 - 1;
        place_brick(editor, absolute, x + base_dx, y, z + base_dz);
        assert(all.take(i + 1) =~= all.take(i as int).push(all[i as int]));
        i = i + 1;
    }
    assert(all.take(9) =~= all);
}

/// Builds a pillar on a footing at the height `ground`, up to, but not at,
/// `top`.
fn build_pillar(editor: &mut WorldEditor, absolute: bool, x: i32, ground: i32, top: i32, z: i32)
    requires
        ground < i32::MAX,
        i32::MIN < x < i32::MAX,
        i32::MIN < z < i32::MAX,
    ensures
        final(editor).extends(
            *old(editor),
            shaft(absolute, x as int, ground + 1, top as int, z as int) + footing(
                absolute,
                x as int,
                ground as int,
                z as int,
            ),
        ),
{
    let ghost before = *editor;
    build_shaft(editor, absolute, x, ground + 1, top, z);
    let ghost between = *editor;
    build_footing(editor, absolute, x, ground, z);
    proof {
        world_editor::extensions_add_up(
            before,
            between,
            *editor,
            shaft(absolute, x as int, ground + 1, top as int, z as int),
            footing(absolute, x as int, ground as int, z as int),
        );
    }
}

/// Builds the pillar under a point of an elevated highway, from the ground up
/// to the road, where one stands.
pub fn add_highway_support_pillar(
    editor: &mut WorldEditor,
    x: i32,
    highway_y: i32,
    z: i32,
    dx: i32,
    dz: i32,
    _block_range: i32,
)
    requires
        dx == 0 && dz == 0 ==> i32::MIN <= x + z <= i32::MAX,
        pillar_stands(x as int, z as int, dx, dz) ==> i32::MIN < x < i32::MAX && i32::MIN < z
            < i32::MAX,
    ensures
        final(editor).extends(
            *old(editor),
            pillar_edits(x as int, highway_y as int, z as int, dx, dz),
        ),
{
    if dx == 0 && dz == 0 && (x + z) % 8 == 0 {
        build_pillar(editor, false, x, 0, highway_y, z);
    } else {
        proof {
            world_editor::extends_by_nothing(*editor);
        }
    }
}

/// The bricks of the pillar under a point of an elevated highway.
pub open spec fn pillar_edits(x: int, highway_y: int, z: int, dx: i32, dz: i32) -> Seq<Edit> {
    if pillar_stands(x, z, dx, dz) {
        shaft(false, x, 1, highway_y, z) + footing(false, x, 0, z)
    } else {
        seq![]
    }
}

/// Builds the pillar under a point of a bridge, from the ground up to the
/// deck, where one stands and the deck is above the ground.
pub fn add_highway_support_pillar_absolute(
    editor: &mut WorldEditor,
    x: i32,
    bridge_deck_y: i32,
    z: i32,
    dx: i32,
    dz: i32,
    _block_range: i32,
)
    requires
        dx == 0 && dz == 0 ==> i32::MIN <= x + z <= i32::MAX,
        pillar_stands(x as int, z as int, dx, dz) && bridge_deck_y > old(editor).terrain().level(
            x,
            z,
        ) ==> i32::MIN < x < i32::MAX && i32::MIN < z < i32::MAX,
    ensures
        final(editor).extends(
            *old(editor),
            bridge_pillar_edits(
                x as int,
                old(editor).terrain().level(x, z) as int,
                bridge_deck_y as int,
                z as int,
                dx,
                dz,
            ),
        ),
{
    proof {
        world_editor::extends_by_nothing(*editor);
    }
    if dx == 0 && dz == 0 && (x + z) % 8 == 0 {
        let ground_y: i32 = editor.get_ground_level(x, z);
        if bridge_deck_y > ground_y {
            build_pillar(editor, true, x, ground_y, bridge_deck_y, z);
        }
    }
}

/// The bricks of the pillar under a point of a bridge.
pub open spec fn bridge_pillar_edits(
    x: int,
    ground_y: int,
    bridge_deck_y: int,
    z: int,
    dx: i32,
    dz: i32,
) -> Seq<Edit> {
    if pillar_stands(x, z, dx, dz) && bridge_deck_y > ground_y {
        shaft(true, x, ground_y + 1, bridge_deck_y, z) + footing(true, x, ground_y, z)
    } else {
        seq![]
    }
}

proof fn lemma_pillar_bricks(absolute: bool, x: int, ground: int, top: int, z: int, y: int)
    requires
        ground <= y,
        y < top || y == ground,
    ensures
        (shaft(absolute, x, ground + 1, top, z) + footing(absolute, x, ground, z)).contains(
            brick(absolute, x, y, z),
        ),
{
    let s = shaft(absolute, x, ground + 1, top, z);
    let all = s + footing(absolute, x, ground, z);
    if y == ground {
        assert(all[s.len() as int + 4] == brick(absolute, x, y, z));
    } else {
        assert(all[y - ground - 1] == brick(absolute, x, y, z));
    }
}

/// The pillar of a bridge is solid from the ground up to the deck.
pub proof fn bridge_pillar_reaches_the_deck(
    x: int,
    ground_y: int,
    bridge_deck_y: int,
    z: int,
    y: int,
)
    requires
        pillar_stands(x, z, 0, 0),
        ground_y <= y < bridge_deck_y,
    ensures
        bridge_pillar_edits(x, ground_y, bridge_deck_y, z, 0, 0).contains(brick(true, x, y, z)),
{
    lemma_pillar_bricks(true, x, ground_y, bridge_deck_y, z, y);
}

/// The pillar of an elevated highway is solid from the ground up to the road.
pub proof fn highway_pillar_reaches_the_road(x: int, highway_y: int, z: int, y: int)
    requires
        pillar_stands(x, z, 0, 0),
        0 <= y < highway_y,
    ensures
        pillar_edits(x, highway_y, z, 0, 0).contains(brick(false, x, y, z)),
{
    lemma_pillar_bricks(false, x, 0, highway_y, z, y);
}

/// The pillar of a bridge stays below the deck and does not dig into the
/// ground.
pub proof fn bridge_pillar_stays_under_the_deck(
    x: int,
    ground_y: int,
    bridge_deck_y: int,
    z: int,
    dx: i32,
    dz: i32,
    i: int,
)
    requires
        i32::MIN <= ground_y,
        bridge_deck_y <= i32::MAX,
        0 <= i < bridge_pillar_edits(x, ground_y, bridge_deck_y, z, dx, dz).len(),
    ensures
        bridge_pillar_edits(
            x,
            ground_y,
            bridge_deck_y,
            z,
            dx,
            dz,
        )[i] matches Edit::SetBlockAbsolute { block, y, .. } && block == Block::StoneBricks
            && ground_y <= y < bridge_deck_y,
{
}

/// Away from the centerline there are no pillars.
pub proof fn pillars_stand_on_the_centerline(
    x: int,
    ground_y: int,
    top: int,
    z: int,
    dx: i32,
    dz: i32,
)
    requires
        dx != 0 || dz != 0,
    ensures
        pillar_edits(x, top, z, dx, dz).len() == 0,
        bridge_pillar_edits(x, ground_y, top, z, dx, dz).len() == 0,
{
}

/// Pillars stand on the centerline, where `x + z` is a multiple of eight, and
/// nowhere else. A highway pillar stands there always; a bridge pillar only where
/// the deck is above the ground.
pub proof fn pillars_stand_on_every_eighth_diagonal(
    x: int,
    ground_y: int,
    top: int,
    z: int,
    dx: i32,
    dz: i32,
)
    ensures
        pillar_edits(x, top, z, dx, dz).len() > 0 <==> dx == 0 && dz == 0 && (x + z) % 8 == 0,
        bridge_pillar_edits(x, ground_y, top, z, dx, dz).len() > 0 <==> dx == 0 && dz == 0 && (x
            + z) % 8 == 0 && top > ground_y,
{
}

proof fn lemma_pillar_parts(
    absolute: bool,
    x: int,
    ground: int,
    top: int,
    z: int,
    bx: int,
    y: int,
    bz: int,
)
    requires
        y == ground && -1 <= bx - x <= 1 && -1 <= bz - z <= 1 || bx == x && bz == z && ground < y
            < top,
    ensures
        (shaft(absolute, x, ground + 1, top, z) + footing(absolute, x, ground, z)).contains(
            brick(absolute, bx, y, bz),
        ),
{
    let s = shaft(absolute, x, ground + 1, top, z);
    let f = footing(absolute, x, ground, z);
    let all = s + f;
    if y == ground {
        let i = 3 * (bx - x + 1) + (bz - z + 1);
        assert(f[i] == brick(absolute, bx, y, bz));
        assert(all[s.len() as int + i] == f[i]);
    } else {
        assert(all[y - ground - 1] == brick(absolute, x, y, z));
    }
}

/// A pillar is a column of stone bricks from the ground up to the road, on a
/// footing of three by three bricks on the ground: these bricks are there.
pub proof fn pillars_are_columns_on_footings(
    x: int,
    ground_y: int,
    top: int,
    z: int,
    bx: int,
    y: int,
    bz: int,
)
    requires
        (x + z) % 8 == 0,
    ensures
        y == 0 && -1 <= bx - x <= 1 && -1 <= bz - z <= 1 || bx == x && bz == z && 0 < y < top
            ==> pillar_edits(x, top, z, 0, 0).contains(
            Edit::SetBlock {
                block: Block::StoneBricks,
                x: bx as i32,
                y: y as i32,
                z: bz as i32,
            },
        ),
        top > ground_y && (y == ground_y && -1 <= bx - x <= 1 && -1 <= bz - z <= 1 || bx == x && bz
            == z && ground_y < y < top) ==> bridge_pillar_edits(
            x,
            ground_y,
            top,
            z,
            0,
            0,
        ).contains(
            Edit::SetBlockAbsolute {
                block: Block::StoneBricks,
                x: bx as i32,
                y: y as i32,
                z: bz as i32,
            },
        ),
{
    if y == 0 && -1 <= bx - x <= 1 && -1 <= bz - z <= 1 || bx == x && bz == z && 0 < y < top {
        lemma_pillar_parts(false, x, 0, top, z, bx, y, bz);
    }
    if top > ground_y && (y == ground_y && -1 <= bx - x <= 1 && -1 <= bz - z <= 1 || bx == x && bz
        == z && ground_y < y < top) {
        lemma_pillar_parts(true, x, ground_y, top, z, bx, y, bz);
    }
}

/// A pillar is nothing but stone bricks in its column, from the ground up to the
/// road, and in its footing.
pub proof fn pillars_have_no_other_bricks(
    x: int,
    ground_y: int,
    top: int,
    z: int,
    dx: i32,
    dz: i32,
    i: int,
)
    requires
        i32::MIN < x < i32::MAX && i32::MIN < z < i32::MAX,
        i32::MIN <= ground_y && top <= i32::MAX && ground_y <= i32::MAX,
    ensures
        0 <= i < pillar_edits(x, top, z, dx, dz).len() ==> (pillar_edits(
            x,
            top,
            z,
            dx,
            dz,
        )[i] matches Edit::SetBlock { block, x: bx, y, z: bz } && block == Block::StoneBricks && (y
            == 0 && -1 <= bx - x <= 1 && -1 <= bz - z <= 1 || bx == x && bz == z && 0 < y < top)),
        0 <= i < bridge_pillar_edits(x, ground_y, top, z, dx, dz).len() ==> (bridge_pillar_edits(
            x,
            ground_y,
            top,
            z,
            dx,
            dz,
        )[i] matches Edit::SetBlockAbsolute { block, x: bx, y, z: bz } && block
            == Block::StoneBricks && (y == ground_y && -1 <= bx - x <= 1 && -1 <= bz - z <= 1 || bx
            == x && bz == z && ground_y < y < top)),
{
}

} // verus!
