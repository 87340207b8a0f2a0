//! Sidings and aeroways.

use crate::blocks::Block;
use crate::bresenham;
use crate::osm::ProcessedNode;
use crate::osm::ProcessedWay;
use crate::scale::Args;
use crate::scale::Scale;
use crate::world_editor;
use crate::world_editor::Edit;
use crate::world_editor::Terrain;
use crate::world_editor::WorldEditor;
use vstd::prelude::*;

verus! {

/// The blocks that later roads leave as they are.
pub open spec fn protected_surfaces() -> Seq<Block> {
    seq![
        Block::BlackConcrete,
        Block::GrayConcretePowder,
        Block::CyanTerracotta,
        Block::WhiteConcrete,
    ]
}

/// The line on the ground between two nodes.
pub open spec fn ground_line(a: ProcessedNode, b: ProcessedNode) -> Seq<(int, int, int)> {
    bresenham::line_points(a.x as int, 0, a.z as int, b.x as int, 0, b.z as int)
}

/// The slabs along some points: one on each column that is not a road.
pub open spec fn slabs_along(terrain: Terrain, points: Seq<(int, int, int)>) -> Seq<Edit>
    decreases points.len(),
{
    if points.len() == 0 {
        seq![]
    } else {
        let x = points.last().0 as i32;
        let z = points.last().2 as i32;
        let rest = slabs_along(terrain, points.drop_last());
        if terrain.shows(x, z, protected_surfaces()) {
            rest
        } else {
            rest.push(Edit::SetBlock { block: Block::StoneBrickSlab, x, y: 1, z })
        }
    }
}

/// The slabs along all segments of a siding.
pub open spec fn siding_edits(terrain: Terrain, nodes: Seq<ProcessedNode>) -> Seq<Edit>
    decreases nodes.len(),
{
    if nodes.len() < 2 {
        seq![]
    } else {
        siding_edits(terrain, nodes.drop_last()) + slabs_along(
            terrain,
            ground_line(nodes[nodes.len() - 2], nodes.last()),
        )
    }
}

/// Builds a siding: stone brick slabs along its line, except on roads. What
/// counts is the world as it is now, with everything that was built in it
/// before.
pub fn generate_siding(editor: &mut WorldEditor, element: &ProcessedWay)
    ensures
        final(editor).extends(
            *old(editor),
            siding_edits(old(editor).terrain(), element.nodes@),
        ),
{
    let protected: Vec<Block> = vec![
        Block::BlackConcrete,
        Block::GrayConcretePowder,
        Block::CyanTerracotta,
        Block::WhiteConcrete,
    ];
    assert(protected@ =~= protected_surfaces());
    let ghost terrain = editor.terrain();
    let ghost before = editor.log();
    proof {
        sidings_leave_the_ground(terrain, element.nodes@);
    }
    let n: usize = element.nodes.len();
    if n == 0 {
        assert(editor.log() =~= before + siding_edits(terrain, element.nodes@));
        return ;
    }
    let mut i: usize = 1;
    assert(editor.log() =~= before + siding_edits(terrain, element.nodes@.take(1)));
    while i < n
        invariant
            n == element.nodes@.len(),
            1 <= i <= n,
            protected@ == protected_surfaces(),
            terrain == old(editor).terrain(),
            before == old(editor).log(),
            editor.terrain() == terrain,
            editor.log() == before + siding_edits(terrain, element.nodes@.take(i as int)),
        decreases n - i,
    {
        let prev = element.nodes[i - 1].xz();
        let current = element.nodes[i].xz();
        let points = bresenham::bresenham_line(prev.x, 0, prev.z, current.x, 0, current.z);
        let ghost line = bresenham::points_view(points@);
        let ghost done = editor.log();
        let ghost more = element.nodes@.take(i + 1);
        proof {
            assert(more.drop_last() =~= element.nodes@.take(i as int));
            assert(line == ground_line(more[more.len() - 2], more.last()));
        }
        let m: usize = points.len();
        let mut k: usize = 0;
        assert(line.take(0) =~= Seq::empty());
        assert(done + slabs_along(terrain, line.take(0)) =~= done);
        while k < m
            invariant
                m == points@.len(),
                k <= m,
                line == bresenham::points_view(points@),
                protected@ == protected_surfaces(),
                editor.terrain() == terrain,
                editor.log() == done + slabs_along(terrain, line.take(k as int)),
            decreases m - k,
        {
            let (bx, _, bz): (i32, i32, i32) = points[k];
            let ghost so_far = line.take(k as int);
            proof {
                assert(line.take(k + 1).drop_last() =~= so_far);
                assert(line.take(k + 1).last() == line[k as int]);
                assert(line[k as int] == (
                    points@[k as int].0 as int,
                    points@[k as int].1 as int,
                    points@[k as int].2 as int,
                ));
            }
            if !editor.check_for_block(bx, bz, &protected) {
                editor.set_block(Block::StoneBrickSlab, bx, 1, bz);
            }
            assert(editor.log() =~= done + slabs_along(terrain, line.take(k + 1)));
            k = k + 1;
        }
        proof {
            assert(line.take(m as int) =~= line);
            assert(editor.log() =~= before + siding_edits(terrain, more));
        }
        i = i + 1;
    }
    assert(element.nodes@.take(n as int) =~= element.nodes@);
}

/// A request to pave the ground of a column of an aeroway.
pub open spec fn pavement(x: int, z: int) -> Edit {
    Edit::SetBlock { block: Block::LightGrayConcrete, x: x as i32, y: 0, z: z as i32 }
}

/// The side of the square that is paved around a point.
pub open spec fn stamp_side(width: int) -> nat {
    if width < 0 {
        0
    } else {
        (2 * width + 1) as nat
    }
}

/// The first `n` blocks of one row of the square around `(x, z)`.
pub open spec fn paved_row(x: int, z: int, width: int, n: nat) -> Seq<Edit> {
    Seq::new(n, |i: int| pavement(x, z - width + i))
}

/// The first `n` rows of the square around `(x, z)`.
pub open spec fn paved_rows(x: int, z: int, width: int, n: nat) -> Seq<Edit>
    decreases n,
{
    if n == 0 {
        seq![]
    } else {
        paved_rows(x, z, width, (n - 1) as nat) + paved_row(
            x - width + (n - 1),
            z,
            width,
            stamp_side(width),
        )
    }
}

/// The squares around some points, one after the other.
pub open spec fn paved_points(points: Seq<(int, int, int)>, width: int) -> Seq<Edit>
    decreases points.len(),
{
    if points.len() == 0 {
        seq![]
    } else {
        paved_points(points.drop_last(), width) + paved_rows(
            points.last().0,
            points.last().2,
            width,
            stamp_side(width),
        )
    }
}

/// The pavement of all segments of an aeroway.
pub open spec fn aeroway_edits(nodes: Seq<ProcessedNode>, width: int) -> Seq<Edit>
    decreases nodes.len(),
{
    if nodes.len() < 2 {
        seq![]
    } else {
        aeroway_edits(nodes.drop_last(), width) + paved_points(
            ground_line(nodes[nodes.len() - 2], nodes.last()),
            width,
        )
    }
}

/// Whether everything within `width` of a node is on the map.
pub open spec fn surroundings_on_map(node: ProcessedNode, width: int) -> bool {
    &&& i32::MIN <= node.x - width && node.x + width <= i32::MAX
    &&& i32::MIN <= node.z - width && node.z + width <= i32::MAX
}

/// Paves the square of columns within `width` of `(x, z)`.
fn pave_square(editor: &mut WorldEditor, x: i32, z: i32, width: i32)
    requires
        width >= 0 ==> i32::MIN <= x - width && x + width <= i32::MAX && i32::MIN <= z - width
            && z + width <= i32::MAX,
    ensures
        final(editor).extends(
            *old(editor),
            paved_rows(x as int, z as int, width as int, stamp_side(width as int)),
        ),
{
    let ghost before = *editor;
    proof {
        world_editor::extends_by_nothing(before);
    }
    if width < 0 {
        return ;
    }
    let side: i64 = 2 * (width as i64) + 1;
    let mut a: i64 = 0;
    while a < side
        invariant
            0 <= a <= side,
            width >= 0,
            side == 2 * width + 1,
            i32::MIN <= x - width && x + width <= i32::MAX && i32::MIN <= z - width && z + width
                <= i32::MAX,
            editor.extends(before, paved_rows(x as int, z as int, width as int, a as nat)),
        decreases side - a,
    {
        let set_x: i32 = (x as i64 - width as i64 + a) as i32;
        let ghost done = *editor;
        let mut b: i64 = 0;
        proof {
            world_editor::extends_by_nothing(done);
            assert(paved_row(set_x as int, z as int, width as int, 0) =~= Seq::empty());
        }
        while b < side
            invariant
                0 <= b <= side,
                width >= 0,
                side == 2 * width + 1,
                i32::MIN <= z - width && z + width <= i32::MAX,
                editor.extends(
                    done,
                    paved_row(set_x as int, z as int, width as int, b as nat),
                ),
            decreases side - b,
        {
            broadcast use world_editor::edits_accumulate;

            let set_z: i32 = (z as i64 - width as i64 + b) as i32;
            editor.set_block(Block::LightGrayConcrete, set_x, 0, set_z);
            assert(paved_row(set_x as int, z as int, width as int, (b + 1) as nat) =~= paved_row(
                set_x as int,
                z as int,
                width as int,
                b as nat,
            ).push(pavement(set_x as int, set_z as int)));
            b = b + 1;
        }
        proof {
            let rows = paved_rows(x as int, z as int, width as int, a as nat);
            let row = paved_row(set_x as int, z as int, width as int, side as nat);
            world_editor::extensions_add_up(before, done, *editor, rows, row);
        }
        a = a + 1;
    }
}

/// How far an aeroway reaches to each side of its line: twelve blocks, times
/// the scale of the world, rounded up.
pub open spec fn aeroway_width(scale: Scale) -> i32 {
    scale.ceiling_of_product(12)
}

/// Builds an aeroway: light gray concrete on the ground around its line.
pub fn generate_aeroway(editor: &mut WorldEditor, way: &ProcessedWay, args: &Args)
    requires
        aeroway_width(args.scale) >= 0 && way.nodes@.len() >= 2 ==> forall|i: int|
            0 <= i < way.nodes@.len() ==> surroundings_on_map(
                #[trigger] way.nodes@[i],
                aeroway_width(args.scale) as int,
            ),
    ensures
        final(editor).extends(
            *old(editor),
            aeroway_edits(way.nodes@, aeroway_width(args.scale) as int),
        ),
{
    let way_width: i32 = args.scale.ceiling_times(12);
    let ghost before = *editor;
    proof {
        world_editor::extends_by_nothing(before);
    }
    let n: usize = way.nodes.len();
    if n == 0 {
        return ;
    }
    let mut i: usize = 1;
    while i < n
        invariant
            n == way.nodes@.len(),
            1 <= i <= n,
            way_width >= 0 && n >= 2 ==> forall|j: int|
                0 <= j < n ==> surroundings_on_map(#[trigger] way.nodes@[j], way_width as int),
            editor.extends(before, aeroway_edits(way.nodes@.take(i as int), way_width as int)),
        decreases n - i,
    {
        let a = way.nodes[i - 1].xz();
        let b = way.nodes[i].xz();
        let points = bresenham::bresenham_line(a.x, 0, a.z, b.x, 0, b.z);
        let ghost line = bresenham::points_view(points@);
        let ghost done = *editor;
        let ghost more = way.nodes@.take(i + 1);
        proof {
            assert(more.drop_last() =~= way.nodes@.take(i as int));
            assert(line == ground_line(more[more.len() - 2], more.last()));
        }
        let m: usize = points.len();
        let mut k: usize = 0;
        proof {
            world_editor::extends_by_nothing(done);
            assert(line.take(0) =~= Seq::empty());
        }
        while k < m
            invariant
                m == points@.len(),
                k <= m,
                line == bresenham::points_view(points@),
                1 <= i < way.nodes@.len(),
                a.x == way.nodes@[i - 1].x && a.z == way.nodes@[i - 1].z,
                b.x == way.nodes@[i as int].x && b.z == way.nodes@[i as int].z,
                line == bresenham::line_points(
                    a.x as int,
                    0,
                    a.z as int,
                    b.x as int,
                    0,
                    b.z as int,
                ),
                way_width >= 0 ==> forall|j: int|
                    0 <= j < way.nodes@.len() ==> surroundings_on_map(
                        #[trigger] way.nodes@[j],
                        way_width as int,
                    ),
                editor.extends(done, paved_points(line.take(k as int), way_width as int)),
            decreases m - k,
        {
            let (x, _, z): (i32, i32, i32) = points[k];
            proof {
                let steps = bresenham::line_steps(
                    a.x as int,
                    0,
                    a.z as int,
                    b.x as int,
                    0,
                    b.z as int,
                );
                bresenham::line_stays_between_its_ends(a.x as int, b.x as int, steps, k as int);
                bresenham::line_stays_between_its_ends(a.z as int, b.z as int, steps, k as int);
                assert(line[k as int] == (
                    points@[k as int].0 as int,
                    points@[k as int].1 as int,
                    points@[k as int].2 as int,
                ));
                assert(line.take(k + 1).drop_last() =~= line.take(k as int));
                assert(line.take(k + 1).last() == line[k as int]);
                if way_width >= 0 {
                    assert(surroundings_on_map(way.nodes@[i - 1], way_width as int));
                    assert(surroundings_on_map(way.nodes@[i as int], way_width as int));
                }
            }
            let ghost prior = *editor;
            pave_square(editor, x, z, way_width);
            proof {
                world_editor::extensions_add_up(
                    done,
                    prior,
                    *editor,
                    paved_points(line.take(k as int), way_width as int),
                    paved_rows(
                        x as int,
                        z as int,
                        way_width as int,
                        stamp_side(way_width as int),
                    ),
                );
            }
            k = k + 1;
        }
        proof {
            assert(line.take(m as int) =~= line);
            world_editor::extensions_add_up(
                before,
                done,
                *editor,
                aeroway_edits(way.nodes@.take(i as int), way_width as int),
                paved_points(line, way_width as int),
            );
        }
        i = i + 1;
    }
    assert(way.nodes@.take(n as int) =~= way.nodes@);
}

/// A request for a slab of a siding.
pub open spec fn slab(x: int, z: int) -> Edit {
    Edit::SetBlock { block: Block::StoneBrickSlab, x: x as i32, y: 1, z: z as i32 }
}

proof fn lemma_concat_contains(a: Seq<Edit>, b: Seq<Edit>, e: Edit)
    ensures
        (a + b).contains(e) <==> a.contains(e) || b.contains(e),
{
    if a.contains(e) {
        let i = choose|i: int| 0 <= i < a.len() && a[i] == e;
        assert((a + b)[i] == e);
    }
    if b.contains(e) {
        let i = choose|i: int| 0 <= i < b.len() && b[i] == e;
        assert((a + b)[a.len() + i] == e);
    }
    if (a + b).contains(e) {
        let i = choose|i: int| 0 <= i < (a + b).len() && (a + b)[i] == e;
        if i < a.len() {
            assert(a[i] == e);
        } else {
            assert(b[i - a.len()] == e);
        }
    }
}

proof fn lemma_slabs_avoid_roads(terrain: Terrain, points: Seq<(int, int, int)>, i: int)
    requires
        0 <= i < slabs_along(terrain, points).len(),
    ensures
        slabs_along(terrain, points)[i] matches Edit::SetBlock { block, x, y, z } && block
            == Block::StoneBrickSlab && y == 1 && !terrain.shows(x, z, protected_surfaces()),
    decreases points.len(),
{
    if points.len() > 0 && i < slabs_along(terrain, points.drop_last()).len() {
        lemma_slabs_avoid_roads(terrain, points.drop_last(), i);
    }
}

proof fn lemma_slabs_leave_the_ground(terrain: Terrain, edits: Seq<Edit>)
    requires
        forall|i: int|
            0 <= i < edits.len() ==> (#[trigger] edits[i] matches Edit::SetBlock { y, .. } && y
                == 1),
    ensures
        terrain.after(edits) == terrain,
    decreases edits.len(),
{
    if edits.len() > 0 {
        let rest = edits.drop_last();
        assert forall|i: int| 0 <= i < rest.len() implies (#[trigger] rest[i] matches Edit::SetBlock {
            y,
            ..
        } && y == 1) by {
            assert(rest[i] == edits[i]);
        }
        lemma_slabs_leave_the_ground(terrain, rest);
        assert(edits.last() == edits[edits.len() - 1]);
    }
}

/// A siding covers no ground: what lies there stays as it is.
pub proof fn sidings_leave_the_ground(terrain: Terrain, nodes: Seq<ProcessedNode>)
    ensures
        terrain.after(siding_edits(terrain, nodes)) == terrain,
{
    let edits = siding_edits(terrain, nodes);
    assert forall|i: int| 0 <= i < edits.len() implies (#[trigger] edits[i] matches Edit::SetBlock {
        y,
        ..
    } && y == 1) by {
        sidings_avoid_roads(terrain, nodes, i);
    }
    lemma_slabs_leave_the_ground(terrain, edits);
}

/// A siding consists of slabs just above the ground, none of them on a road.
pub proof fn sidings_avoid_roads(terrain: Terrain, nodes: Seq<ProcessedNode>, i: int)
    requires
        0 <= i < siding_edits(terrain, nodes).len(),
    ensures
        siding_edits(terrain, nodes)[i] matches Edit::SetBlock { block, x, y, z } && block
            == Block::StoneBrickSlab && y == 1 && !terrain.shows(x, z, protected_surfaces()),
    decreases nodes.len(),
{
    if nodes.len() >= 2 {
        let rest = siding_edits(terrain, nodes.drop_last());
        let line = ground_line(nodes[nodes.len() - 2], nodes.last());
        if i < rest.len() {
            sidings_avoid_roads(terrain, nodes.drop_last(), i);
        } else {
            lemma_slabs_avoid_roads(terrain, line, i - rest.len());
        }
    }
}

/// A siding goes around a road from the moment that the road is asked for.
pub proof fn sidings_avoid_new_roads(
    terrain: Terrain,
    block: Block,
    x: i32,
    z: i32,
    nodes: Seq<ProcessedNode>,
    i: int,
)
    requires
        protected_surfaces().contains(block),
        0 <= i < siding_edits(
            terrain.after_edit(Edit::SetBlock { block, x, y: 0, z }),
            nodes,
        ).len(),
    ensures
        siding_edits(
            terrain.after_edit(Edit::SetBlock { block, x, y: 0, z }),
            nodes,
        )[i] matches Edit::SetBlock { x: slab_x, z: slab_z, .. } && !(slab_x == x && slab_z == z),
{
    sidings_avoid_roads(terrain.after_edit(Edit::SetBlock { block, x, y: 0, z }), nodes, i);
}

proof fn lemma_slabs_follow_points(terrain: Terrain, points: Seq<(int, int, int)>, k: int)
    requires
        0 <= k < points.len(),
        !terrain.shows(points[k].0 as i32, points[k].2 as i32, protected_surfaces()),
    ensures
        slabs_along(terrain, points).contains(slab(points[k].0, points[k].2)),
    decreases points.len(),
{
    let rest = slabs_along(terrain, points.drop_last());
    let all = slabs_along(terrain, points);
    let e = slab(points[k].0, points[k].2);
    if k < points.len() - 1 {
        lemma_slabs_follow_points(terrain, points.drop_last(), k);
        let i = choose|i: int| 0 <= i < rest.len() && rest[i] == e;
        assert(all[i] == e);
    } else {
        assert(all[all.len() - 1] == e);
    }
}

/// A siding follows its line: a slab lies on every point of every segment that
/// is not on a road.
pub proof fn sidings_follow_their_line(
    terrain: Terrain,
    nodes: Seq<ProcessedNode>,
    s: int,
    k: int,
)
    requires
        0 < s < nodes.len(),
        0 <= k < ground_line(nodes[s - 1], nodes[s]).len(),
        !terrain.shows(
            ground_line(nodes[s - 1], nodes[s])[k].0 as i32,
            ground_line(nodes[s - 1], nodes[s])[k].2 as i32,
            protected_surfaces(),
        ),
    ensures
        siding_edits(terrain, nodes).contains(
            slab(
                ground_line(nodes[s - 1], nodes[s])[k].0,
                ground_line(nodes[s - 1], nodes[s])[k].2,
            ),
        ),
    decreases nodes.len(),
{
    let line = ground_line(nodes[s - 1], nodes[s]);
    let e = slab(line[k].0, line[k].2);
    let rest = nodes.drop_last();
    let last = ground_line(nodes[nodes.len() - 2], nodes.last());
    lemma_concat_contains(siding_edits(terrain, rest), slabs_along(terrain, last), e);
    if s < rest.len() {
        assert(rest[s - 1] == nodes[s - 1] && rest[s] == nodes[s]);
        sidings_follow_their_line(terrain, rest, s, k);
    } else {
        lemma_slabs_follow_points(terrain, line, k);
    }
}

proof fn lemma_paved_square(x: int, z: int, width: int, n: nat, c: (int, int))
    requires
        width >= 0,
        n <= stamp_side(width),
        x - width <= c.0 < x - width + n,
        z - width <= c.1 <= z + width,
    ensures
        paved_rows(x, z, width, n).contains(pavement(c.0, c.1)),
    decreases n,
{
    let m = (n - 1) as nat;
    let row = paved_row(x - width + m, z, width, stamp_side(width));
    let e = pavement(c.0, c.1);
    lemma_concat_contains(paved_rows(x, z, width, m), row, e);
    if c.0 < x - width + m {
        lemma_paved_square(x, z, width, m, c);
    } else {
        assert(row[c.1 - z + width] == e);
    }
}

proof fn lemma_paved_points(points: Seq<(int, int, int)>, width: int, k: int, c: (int, int))
    requires
        0 <= k < points.len(),
        bresenham::span(points[k].0, c.0) <= width,
        bresenham::span(points[k].2, c.1) <= width,
    ensures
        paved_points(points, width).contains(pavement(c.0, c.1)),
    decreases points.len(),
{
    let rest = points.drop_last();
    let side = stamp_side(width);
    let square = paved_rows(points.last().0, points.last().2, width, side);
    lemma_concat_contains(paved_points(rest, width), square, pavement(c.0, c.1));
    if k < rest.len() {
        assert(rest[k] == points[k]);
        lemma_paved_points(rest, width, k, c);
    } else {
        lemma_paved_square(points[k].0, points[k].2, width, side, c);
    }
}

/// An aeroway has no gaps: every column within its width of a point of its line
/// is paved.
pub proof fn aeroways_have_no_gaps(
    nodes: Seq<ProcessedNode>,
    width: int,
    s: int,
    k: int,
    c: (int, int),
)
    requires
        0 < s < nodes.len(),
        0 <= k < ground_line(nodes[s - 1], nodes[s]).len(),
        bresenham::span(ground_line(nodes[s - 1], nodes[s])[k].0, c.0) <= width,
        bresenham::span(ground_line(nodes[s - 1], nodes[s])[k].2, c.1) <= width,
    ensures
        aeroway_edits(nodes, width).contains(pavement(c.0, c.1)),
    decreases nodes.len(),
{
    let rest = nodes.drop_last();
    let last = ground_line(nodes[nodes.len() - 2], nodes.last());
    lemma_concat_contains(
        aeroway_edits(rest, width),
        paved_points(last, width),
        pavement(c.0, c.1),
    );
    if s < rest.len() {
        assert(rest[s - 1] == nodes[s - 1] && rest[s] == nodes[s]);
        aeroways_have_no_gaps(rest, width, s, k, c);
    } else {
        lemma_paved_points(last, width, k, c);
    }
}

proof fn lemma_paved_rows_stay_near(x: int, z: int, width: int, n: nat, i: int)
    requires
        width >= 0,
        n <= stamp_side(width),
        0 <= i < paved_rows(x, z, width, n).len(),
    ensures
        exists|c: (int, int)|
            paved_rows(x, z, width, n)[i] == #[trigger] pavement(c.0, c.1) && bresenham::span(
                x,
                c.0,
            ) <= width && bresenham::span(z, c.1) <= width,
    decreases n,
{
    if n > 0 {
        let m = (n - 1) as nat;
        let rest = paved_rows(x, z, width, m);
        if i < rest.len() {
            lemma_paved_rows_stay_near(x, z, width, m, i);
        } else {
            let c = (x - width + m, z - width + (i - rest.len()));
            assert(paved_rows(x, z, width, n)[i] == pavement(c.0, c.1));
        }
    }
}

/// Whether an edit paves a column within `width` of the `k`th point of a line.
pub open spec fn paves_near(
    e: Edit,
    line: Seq<(int, int, int)>,
    width: int,
    k: int,
    c: (int, int),
) -> bool {
    &&& e == pavement(c.0, c.1)
    &&& 0 <= k < line.len()
    &&& bresenham::span(line[k].0, c.0) <= width
    &&& bresenham::span(line[k].2, c.1) <= width
}

proof fn lemma_paved_points_stay_near(points: Seq<(int, int, int)>, width: int, i: int)
    requires
        0 <= i < paved_points(points, width).len(),
    ensures
        exists|k: int, c: (int, int)|
            paves_near(paved_points(points, width)[i], points, width, k, c),
    decreases points.len(),
{
    if points.len() > 0 {
        let rest = points.drop_last();
        let done = paved_points(rest, width);
        let last = points.len() - 1;
        let e = paved_points(points, width)[i];
        if i < done.len() {
            lemma_paved_points_stay_near(rest, width, i);
            let (k, c) = choose|k: int, c: (int, int)| paves_near(done[i], rest, width, k, c);
            assert(paves_near(e, points, width, k, c));
        } else {
            let x = points[last].0;
            let z = points[last].2;
            let side = stamp_side(width);
            lemma_paved_rows_stay_near(x, z, width, side, i - done.len());
            let c = choose|c: (int, int)|
                e == #[trigger] pavement(c.0, c.1)
                    && bresenham::span(x, c.0) <= width && bresenham::span(z, c.1) <= width;
            assert(paves_near(e, points, width, last, c));
        }
    }
}

/// Whether an edit paves a column within `width` of a point of the `s`th
/// segment of a way.
pub open spec fn paves_near_segment(
    e: Edit,
    nodes: Seq<ProcessedNode>,
    width: int,
    s: int,
    k: int,
    c: (int, int),
) -> bool {
    0 < s < nodes.len() && paves_near(e, ground_line(nodes[s - 1], nodes[s]), width, k, c)
}

/// An aeroway paves nothing but the ground within its width of a point of its
/// line.
pub proof fn aeroways_stay_near_their_line(nodes: Seq<ProcessedNode>, width: int, i: int)
    requires
        0 <= i < aeroway_edits(nodes, width).len(),
    ensures
        exists|s: int, k: int, c: (int, int)|
            paves_near_segment(aeroway_edits(nodes, width)[i], nodes, width, s, k, c),
    decreases nodes.len(),
{
    if nodes.len() >= 2 {
        let rest = nodes.drop_last();
        let done = aeroway_edits(rest, width);
        let e = aeroway_edits(nodes, width)[i];
        let line = ground_line(nodes[nodes.len() - 2], nodes.last());
        if i < done.len() {
            aeroways_stay_near_their_line(rest, width, i);
            let (s, k, c) = choose|s: int, k: int, c: (int, int)|
                paves_near_segment(done[i], rest, width, s, k, c);
            assert(rest[s - 1] == nodes[s - 1] && rest[s] == nodes[s]);
            assert(paves_near_segment(e, nodes, width, s, k, c));
        } else {
            lemma_paved_points_stay_near(line, width, i - done.len());
            let (k, c) = choose|k: int, c: (int, int)| paves_near(e, line, width, k, c);
            assert(paves_near_segment(e, nodes, width, nodes.len() - 1, k, c));
        }
    }
}

proof fn lemma_slab_has_a_point(terrain: Terrain, points: Seq<(int, int, int)>, i: int) -> (k:
    int)
    requires
        0 <= i < slabs_along(terrain, points).len(),
    ensures
        0 <= k < points.len(),
        slabs_along(terrain, points)[i] == slab(points[k].0, points[k].2),
        !terrain.shows(points[k].0 as i32, points[k].2 as i32, protected_surfaces()),
    decreases points.len(),
{
    let rest = slabs_along(terrain, points.drop_last());
    if i < rest.len() {
        lemma_slab_has_a_point(terrain, points.drop_last(), i)
    } else {
        points.len() - 1
    }
}

proof fn lemma_siding_has_a_point(terrain: Terrain, nodes: Seq<ProcessedNode>, i: int) -> (w: (
    int,
    int,
))
    requires
        0 <= i < siding_edits(terrain, nodes).len(),
    ensures
        0 < w.0 < nodes.len(),
        ({
            let line = ground_line(nodes[w.0 - 1], nodes[w.0]);
            &&& 0 <= w.1 < line.len()
            &&& siding_edits(terrain, nodes)[i] == slab(line[w.1].0, line[w.1].2)
            &&& !terrain.shows(line[w.1].0 as i32, line[w.1].2 as i32, protected_surfaces())
        }),
    decreases nodes.len(),
{
    let rest = siding_edits(terrain, nodes.drop_last());
    if i < rest.len() {
        let (s, k) = lemma_siding_has_a_point(terrain, nodes.drop_last(), i);
        assert(nodes.drop_last()[s - 1] == nodes[s - 1] && nodes.drop_last()[s] == nodes[s]);
        (s, k)
    } else {
        let last = nodes.len() - 1;
        let line = ground_line(nodes[last - 1], nodes[last]);
        (last, lemma_slab_has_a_point(terrain, line, i - rest.len()))
    }
}

proof fn lemma_protected(block: Block)
    ensures
        protected_surfaces().contains(block) <==> block == Block::BlackConcrete || block
            == Block::GrayConcretePowder || block == Block::CyanTerracotta || block
            == Block::WhiteConcrete,
{
    let all = protected_surfaces();
    assert(all[0] == Block::BlackConcrete);
    assert(all[1] == Block::GrayConcretePowder);
    assert(all[2] == Block::CyanTerracotta);
    assert(all[3] == Block::WhiteConcrete);
}

/// A siding is made of slabs just above the ground, each over a block of the line
/// of one of its segments, and none over black concrete, gray concrete powder,
/// cyan terracotta or white concrete. The result names the segment and the block
/// of its line.
pub proof fn sidings_lie_on_free_ground(terrain: Terrain, nodes: Seq<ProcessedNode>, i: int) -> (w:
    (int, int))
    requires
        0 <= i < siding_edits(terrain, nodes).len(),
    ensures
        siding_edits(terrain, nodes)[i] matches Edit::SetBlock { block, x, y, z } && {
            let (s, k) = w;
            let line = bresenham::line_points(
                nodes[s - 1].x as int,
                0,
                nodes[s - 1].z as int,
                nodes[s].x as int,
                0,
                nodes[s].z as int,
            );
            &&& block == Block::StoneBrickSlab && y == 1
            &&& 0 < s < nodes.len() && 0 <= k < line.len()
            &&& line[k] == (x as int, 0int, z as int)
            &&& terrain.surface.contains_key((x, z)) ==> {
                let ground = terrain.surface[(x, z)];
                &&& ground != Block::BlackConcrete
                &&& ground != Block::GrayConcretePowder
                &&& ground != Block::CyanTerracotta
                &&& ground != Block::WhiteConcrete
            }
        },
{
    let (s, k) = lemma_siding_has_a_point(terrain, nodes, i);
    let (a, b) = (nodes[s - 1], nodes[s]);
    let n = bresenham::line_steps(a.x as int, 0, a.z as int, b.x as int, 0, b.z as int);
    bresenham::line_stays_between_its_ends(a.x as int, b.x as int, n, k);
    bresenham::line_stays_between_its_ends(a.z as int, b.z as int, n, k);
    bresenham::line_stays_between_its_ends(0, 0, n, k);
    let line = ground_line(a, b);
    lemma_protected(terrain.surface[(line[k].0 as i32, line[k].2 as i32)]);
    (s, k)
}

/// A siding leaves out nothing but roads: over every block of the lines of its
/// segments lies a slab, unless the ground there is black concrete, gray concrete
/// powder, cyan terracotta or white concrete.
pub proof fn sidings_leave_out_only_roads(
    terrain: Terrain,
    nodes: Seq<ProcessedNode>,
    s: int,
    k: int,
    x: i32,
    z: i32,
)
    requires
        0 < s < nodes.len(),
        ({
            let line = bresenham::line_points(
                nodes[s - 1].x as int,
                0,
                nodes[s - 1].z as int,
                nodes[s].x as int,
                0,
                nodes[s].z as int,
            );
            0 <= k < line.len() && line[k].0 == x && line[k].2 == z
        }),
        terrain.surface.contains_key((x, z)) ==> {
            let ground = terrain.surface[(x, z)];
            &&& ground != Block::BlackConcrete
            &&& ground != Block::GrayConcretePowder
            &&& ground != Block::CyanTerracotta
            &&& ground != Block::WhiteConcrete
        },
    ensures
        siding_edits(terrain, nodes).contains(
            Edit::SetBlock { block: Block::StoneBrickSlab, x, y: 1, z },
        ),
{
    lemma_protected(terrain.surface[(x, z)]);
    sidings_follow_their_line(terrain, nodes, s, k);
}

/// Sidings keep off the roads: no slab lies where the ground shows a block of
/// what a highway of this type is made of when its tags do not say otherwise,
/// unless the type is one with a surface of its own.
pub proof fn sidings_keep_off_asphalt(
    terrain: Terrain,
    nodes: Seq<ProcessedNode>,
    i: int,
    highway: Seq<char>,
)
    requires
        0 <= i < siding_edits(terrain, nodes).len(),
        highway != "footway"@ && highway != "pedestrian"@ && highway != "service"@ && highway
            != "steps"@ && highway != "path"@ && highway != "escape"@,
    ensures
        siding_edits(terrain, nodes)[i] matches Edit::SetBlock { x, z, .. } && !terrain.shows(
            x,
            z,
            crate::highways::features::highway_surface(
                Map::<Seq<char>, Seq<Block>>::empty(),
                Map::<Seq<char>, Seq<char>>::empty(),
                highway,
            ),
        ),
{
    let _ = sidings_lie_on_free_ground(terrain, nodes, i);
    let mix = crate::highways::features::highway_surface(
        Map::<Seq<char>, Seq<Block>>::empty(),
        Map::<Seq<char>, Seq<char>>::empty(),
        highway,
    );
    assert(mix =~= seq![Block::GrayConcretePowder, Block::CyanTerracotta]);
}

/// An aeroway is light gray concrete on the ground: on every column that is at
/// most its width away, along x and along z, from a block of the line of one of
/// its segments.
pub proof fn aeroways_reach_their_width(
    nodes: Seq<ProcessedNode>,
    width: int,
    s: int,
    k: int,
    x: i32,
    z: i32,
)
    requires
        0 < s < nodes.len(),
        ({
            let line = bresenham::line_points(
                nodes[s - 1].x as int,
                0,
                nodes[s - 1].z as int,
                nodes[s].x as int,
                0,
                nodes[s].z as int,
            );
            &&& 0 <= k < line.len()
            &&& -width <= x - line[k].0 <= width
            &&& -width <= z - line[k].2 <= width
        }),
    ensures
        aeroway_edits(nodes, width).contains(
            Edit::SetBlock { block: Block::LightGrayConcrete, x, y: 0, z },
        ),
{
    aeroways_have_no_gaps(nodes, width, s, k, (x as int, z as int));
}

/// An aeroway is nothing else: each of its blocks is light gray concrete on the
/// ground, at most its width away, along x and along z, from a block of the line
/// of one of its segments. The result names the segment and the block of its
/// line.
pub proof fn aeroways_keep_to_their_width(nodes: Seq<ProcessedNode>, width: int, i: int) -> (w: (
    int,
    int,
))
    requires
        0 <= i < aeroway_edits(nodes, width).len(),
        forall|j: int| 0 <= j < nodes.len() ==> surroundings_on_map(#[trigger] nodes[j], width),
    ensures
        aeroway_edits(nodes, width)[i] matches Edit::SetBlock { block, x, y, z } && {
            let (s, k) = w;
            let line = bresenham::line_points(
                nodes[s - 1].x as int,
                0,
                nodes[s - 1].z as int,
                nodes[s].x as int,
                0,
                nodes[s].z as int,
            );
            &&& block == Block::LightGrayConcrete && y == 0
            &&& 0 < s < nodes.len() && 0 <= k < line.len()
            &&& -width <= x - line[k].0 <= width
            &&& -width <= z - line[k].2 <= width
        },
{
    aeroways_stay_near_their_line(nodes, width, i);
    let e = aeroway_edits(nodes, width)[i];
    let (s, k, c) = choose|s: int, k: int, c: (int, int)|
        paves_near_segment(e, nodes, width, s, k, c);
    let (a, b) = (nodes[s - 1], nodes[s]);
    let n = bresenham::line_steps(a.x as int, 0, a.z as int, b.x as int, 0, b.z as int);
    bresenham::line_stays_between_its_ends(a.x as int, b.x as int, n, k);
    bresenham::line_stays_between_its_ends(a.z as int, b.z as int, n, k);
    assert(surroundings_on_map(a, width) && surroundings_on_map(b, width));
    (s, k)
}

/// An aeroway reaches twelve blocks to each side in a world of usual size, and
/// twelve times the scale, rounded up, in any other.
pub proof fn aeroways_widen_with_the_scale(scale: Scale)
    ensures
        aeroway_width(scale) == scale.ceiling_of_product(12),
        aeroway_width(Scale { bits: 0x3ff0_0000_0000_0000 }) == 12,
{
    let one = Scale { bits: 0x3ff0_0000_0000_0000 };
    vstd::arithmetic::power2::lemma2_to64_rest();
    vstd::arithmetic::power2::lemma2_to64();
    assert(one.magnitude() == (0x10_0000_0000_0000int, -52int));
    assert(one.times(12) == (12 * 0x2_0000_0000_0000int, -49int)) by {
        reveal_with_fuel(crate::scale::rounded, 5);
    }
    let p = vstd::arithmetic::power2::pow2(49) as int;
    assert(p == 0x2_0000_0000_0000);
    assert((12 * 0x2_0000_0000_0000int) / p == 12 && (12 * 0x2_0000_0000_0000int) % p == 0);
    assert((-(-49int)) as nat == 49nat);
}

/// A way with fewer than two nodes has no line to build along.
pub proof fn single_nodes_build_nothing(terrain: Terrain, nodes: Seq<ProcessedNode>, width: int)
    requires
        nodes.len() < 2,
    ensures
        siding_edits(terrain, nodes).len() == 0,
        aeroway_edits(nodes, width).len() == 0,
{
}

/// A siding goes on where it left off: the edits for a way are those for its
/// first part, followed by those for the rest.
pub proof fn sidings_add_up(terrain: Terrain, nodes: Seq<ProcessedNode>, cut: int)
    requires
        0 <= cut < nodes.len(),
    ensures
        siding_edits(terrain, nodes) == siding_edits(terrain, nodes.take(cut + 1)) + siding_edits(
            terrain,
            nodes.skip(cut),
        ),
    decreases nodes.len(),
{
    let n = nodes.len() as int;
    if cut == n - 1 {
        assert(nodes.take(n) =~= nodes);
        assert(siding_edits(terrain, nodes.skip(cut)) =~= seq![]);
    } else {
        let shorter = nodes.drop_last();
        sidings_add_up(terrain, shorter, cut);
        let tail = nodes.skip(cut);
        assert(shorter.take(cut + 1) =~= nodes.take(cut + 1));
        assert(tail.drop_last() =~= shorter.skip(cut));
        assert(tail[tail.len() - 2] == nodes[n - 2] && tail.last() == nodes.last());
        assert(siding_edits(terrain, nodes) =~= siding_edits(terrain, nodes.take(cut + 1))
            + siding_edits(terrain, tail));
    }
}

proof fn lemma_free_slabs(terrain: Terrain, points: Seq<(int, int, int)>)
    requires
        forall|x: i32, z: i32| !#[trigger] terrain.shows(x, z, protected_surfaces()),
    ensures
        slabs_along(terrain, points) =~= points.map_values(
            |p: (int, int, int)| slab(p.0, p.2),
        ),
    decreases points.len(),
{
    if points.len() > 0 {
        let rest = points.drop_last();
        lemma_free_slabs(terrain, rest);
        assert(!terrain.shows(
            points.last().0 as i32,
            points.last().2 as i32,
            protected_surfaces(),
        ));
    }
}

/// Where there are no roads, a siding between two nodes has one slab for each
/// block of its line, in the order of the line.
pub proof fn sidings_lie_in_order(terrain: Terrain, a: ProcessedNode, b: ProcessedNode, k: int)
    requires
        forall|c: (i32, i32)|
            terrain.surface.contains_key(c) ==> {
                let ground = #[trigger] terrain.surface[c];
                &&& ground != Block::BlackConcrete
                &&& ground != Block::GrayConcretePowder
                &&& ground != Block::CyanTerracotta
                &&& ground != Block::WhiteConcrete
            },
    ensures
        ({
            let line = bresenham::line_points(
                a.x as int,
                0,
                a.z as int,
                b.x as int,
                0,
                b.z as int,
            );
            let edits = siding_edits(terrain, seq![a, b]);
            &&& edits.len() == line.len()
            &&& 0 <= k < line.len() ==> (edits[k] matches Edit::SetBlock { block, x, y, z } && block
                == Block::StoneBrickSlab && line[k] == (x as int, y - 1, z as int))
        }),
{
    let nodes = seq![a, b];
    let line = ground_line(a, b);
    assert forall|x: i32, z: i32| !#[trigger] terrain.shows(x, z, protected_surfaces()) by {
        lemma_protected(terrain.surface[(x, z)]);
    }
    lemma_free_slabs(terrain, line);
    assert(siding_edits(terrain, nodes.drop_last()) =~= seq![]);
    assert(siding_edits(terrain, nodes) =~= slabs_along(terrain, line));
    if 0 <= k < line.len() {
        let n = bresenham::line_steps(a.x as int, 0, a.z as int, b.x as int, 0, b.z as int);
        bresenham::line_stays_between_its_ends(a.x as int, b.x as int, n, k);
        bresenham::line_stays_between_its_ends(a.z as int, b.z as int, n, k);
        bresenham::line_stays_between_its_ends(0, 0, n, k);
    }
}

/// The surroundings of a node are on the map where no coordinate that is `width`
/// away from it leaves 32 bits.
pub proof fn the_map_is_as_large_as_its_coordinates(node: ProcessedNode, width: int)
    ensures
        surroundings_on_map(node, width) <==> node.x - width >= -0x8000_0000 && node.x + width
            <= 0x7fff_ffff && node.z - width >= -0x8000_0000 && node.z + width <= 0x7fff_ffff,
{
}

} // verus!
