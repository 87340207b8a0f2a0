//! What highways read of the world and what they ask to be built in it.

use crate::blocks::BannerDesign;
use crate::blocks::Block;
use crate::blocks::DyeColor;
use crate::blocks::Facing;
use crate::coords::CellMap;
use vstd::prelude::*;

verus! {

/// One change to the world.
#[derive(Clone, Copy, Debug, PartialEq, Eq, Structural)]
pub enum Edit {
    /// Put a block `y` blocks above the ground of its column.
    SetBlock { block: Block, x: i32, y: i32, z: i32 },
    /// Put a block at the height `y`.
    SetBlockAbsolute { block: Block, x: i32, y: i32, z: i32 },
    /// Hang a banner at the height `y`.
    PlaceWallBanner {
        block: Block,
        x: i32,
        y: i32,
        z: i32,
        facing: Facing,
        color: DyeColor,
        design: BannerDesign,
    },
}

/// What can be read of the world.
pub struct Terrain {
    /// The ground level of columns without one of their own.
    pub base: i32,
    /// The ground level of the other columns.
    pub ground: Map<(i32, i32), i32>,
    /// The blocks that lie on the ground.
    pub surface: Map<(i32, i32), Block>,
}

impl Terrain {
    /// The ground level of a column.
    pub open spec fn level(self, x: i32, z: i32) -> i32 {
        if self.ground.contains_key((x, z)) {
            self.ground[(x, z)]
        } else {
            self.base
        }
    }

    /// Whether the block on the ground of a column is one of `blocks`.
    pub open spec fn shows(self, x: i32, z: i32, blocks: Seq<Block>) -> bool {
        self.surface.contains_key((x, z)) && blocks.contains(self.surface[(x, z)])
    }

    /// The terrain with `block` on the ground of a column, where `y` is the
    /// height of that ground, and the terrain as it is for any other `y`.
    pub open spec fn covered_by(self, block: Block, x: i32, y: int, z: i32) -> Terrain {
        if y == self.level(x, z) {
            Terrain { surface: self.surface.insert((x, z), block), ..self }
        } else {
            self
        }
    }

    /// The terrain after one edit: a block that is put on the ground is what
    /// lies there from then on. The ground itself never moves.
    pub open spec fn after_edit(self, edit: Edit) -> Terrain {
        match edit {
            Edit::SetBlock { block, x, y, z } => self.covered_by(block, x, self.level(x, z) + y, z),
            Edit::SetBlockAbsolute { block, x, y, z } => self.covered_by(block, x, y as int, z),
            Edit::PlaceWallBanner { block, x, y, z, .. } => self.covered_by(block, x, y as int, z),
        }
    }

    /// The terrain after some edits, one after the other.
    pub open spec fn after(self, edits: Seq<Edit>) -> Terrain
        decreases edits.len(),
    {
        if edits.len() == 0 {
            self
        } else {
            self.after(edits.drop_last()).after_edit(edits.last())
        }
    }
}

/// Edits never move the ground.
pub proof fn ground_never_moves(terrain: Terrain, edits: Seq<Edit>)
    ensures
        terrain.after(edits).base == terrain.base,
        terrain.after(edits).ground == terrain.ground,
        forall|x: i32, z: i32| #[trigger]
            terrain.after(edits).level(x, z) == terrain.level(x, z),
    decreases edits.len(),
{
    if edits.len() > 0 {
        ground_never_moves(terrain, edits.drop_last());
    }
}

/// Edits made in two parts leave the same terrain as edits made in one go.
pub proof fn edits_add_up(terrain: Terrain, first: Seq<Edit>, second: Seq<Edit>)
    ensures
        terrain.after(first + second) == terrain.after(first).after(second),
    decreases second.len(),
{
    if second.len() == 0 {
        assert(first + second =~= first);
    } else {
        assert((first + second).drop_last() =~= first + second.drop_last());
        edits_add_up(terrain, first, second.drop_last());
    }
}

/// The world to build in, and the edits asked for so far, in order.
///
/// Questions about the world are answered as of now: a block that was asked for
/// on the ground is seen by whoever looks at that ground afterwards.
pub struct WorldEditor {
    base: i32,
    ground: CellMap<i32>,
    surface: CellMap<Block>,
    edits: Vec<Edit>,
}

/// An editor that has asked for nothing more has made no edits.
pub proof fn extends_by_nothing(editor: WorldEditor)
    ensures
        editor.extends(editor, Seq::empty()),
{
    assert(editor.log() + Seq::<Edit>::empty() =~= editor.log());
}

/// One more edit extends what has been asked for.
pub broadcast proof fn edits_accumulate(
    before: WorldEditor,
    between: WorldEditor,
    after: WorldEditor,
    done: Seq<Edit>,
    edit: Edit,
)
    requires
        #[trigger] between.extends(before, done),
        #[trigger] after.follows(between, edit),
    ensures
        after.extends(before, done.push(edit)),
{
    assert(done.push(edit).drop_last() =~= done);
    assert(before.log() + done.push(edit) =~= (before.log() + done).push(edit));
}

/// Edits made in two parts extend an editor like edits made in one go.
pub proof fn extensions_add_up(
    before: WorldEditor,
    between: WorldEditor,
    after: WorldEditor,
    first: Seq<Edit>,
    second: Seq<Edit>,
)
    requires
        between.extends(before, first),
        after.extends(between, second),
    ensures
        after.extends(before, first + second),
{
    edits_add_up(before.terrain(), first, second);
    assert(before.log() + (first + second) =~= before.log() + first + second);
}

impl WorldEditor {
    /// The world as it is now.
    pub closed spec fn terrain(self) -> Terrain {
        Terrain { base: self.base, ground: self.ground@, surface: self.surface@ }
    }

    /// The edits asked for so far.
    pub closed spec fn log(self) -> Seq<Edit> {
        self.edits@
    }

    /// Whether this is what `before` becomes by asking for one more edit.
    pub open spec fn follows(self, before: WorldEditor, edit: Edit) -> bool {
        &&& self.log() == before.log().push(edit)
        &&& self.terrain() == before.terrain().after_edit(edit)
    }

    /// Whether this is what `before` becomes by asking for `edits`.
    pub open spec fn extends(self, before: WorldEditor, edits: Seq<Edit>) -> bool {
        &&& self.log() == before.log() + edits
        &&& self.terrain() == before.terrain().after(edits)
    }

    /// A bare plain at the level `base`.
    pub fn new(base: i32) -> (r: WorldEditor)
        ensures
            r.terrain() == (Terrain { base, ground: Map::empty(), surface: Map::empty() }),
            r.log() == Seq::<Edit>::empty(),
    {
        WorldEditor { base, ground: CellMap::new(), surface: CellMap::new(), edits: Vec::new() }
    }

    /// Describes the ground level of a column.
    pub fn describe_ground(&mut self, x: i32, z: i32, level: i32)
        ensures
            final(self).terrain() == (Terrain {
                ground: old(self).terrain().ground.insert((x, z), level),
                ..old(self).terrain()
            }),
            final(self).log() == old(self).log(),
    {
        self.ground.insert(x, z, level);
    }

    /// Describes the block on the ground of a column.
    pub fn describe_surface(&mut self, x: i32, z: i32, block: Block)
        ensures
            final(self).terrain() == (Terrain {
                surface: old(self).terrain().surface.insert((x, z), block),
                ..old(self).terrain()
            }),
            final(self).log() == old(self).log(),
    {
        self.surface.insert(x, z, block);
    }

    /// The ground level of a column.
    pub fn get_ground_level(&self, x: i32, z: i32) -> (r: i32)
        ensures
            r == self.terrain().level(x, z),
    {
        match self.ground.get(x, z) {
            Some(level) => *level,
            None => self.base,
        }
    }

    /// The height that lies `y` blocks above the ground of a column.
    pub fn get_absolute_y(&self, x: i32, y: i32, z: i32) -> (r: i32)
        requires
            i32::MIN <= self.terrain().level(x, z) + y <= i32::MAX,
        ensures
            r == self.terrain().level(x, z) + y,
    {
        self.get_ground_level(x, z) + y
    }

    /// Whether the block on the ground of a column is one of `blocks`.
    pub fn check_for_block(&self, x: i32, z: i32, blocks: &Vec<Block>) -> (r: bool)
        ensures
            r == self.terrain().shows(x, z, blocks@),
    {
        match self.surface.get(x, z) {
            Some(block) => {
                let n: usize = blocks.len();
                let mut i: usize = 0;
                while i < n
                    invariant
                        n == blocks@.len(),
                        i <= n,
                        self.surface@.contains_key((x, z)),
                        *block == self.surface@[(x, z)],
                        forall|j: int| 0 <= j < i ==> blocks@[j] != *block,
                    decreases n - i,
                {
                    if blocks[i] == *block {
                        assert(blocks@.contains(*block));
                        return true;
                    }
                    i = i + 1;
                }
                false
            },
            None => false,
        }
    }

    /// Notes that `block` lies at the height `y` now.
    fn note(&mut self, block: Block, x: i32, y: i64, z: i32)
        ensures
            final(self).terrain() == old(self).terrain().covered_by(block, x, y as int, z),
            final(self).log() == old(self).log(),
    {
        if y == self.get_ground_level(x, z) as i64 {
            self.surface.insert(x, z, block);
        }
    }

    /// Asks for a block `y` blocks above the ground.
    pub fn set_block(&mut self, block: Block, x: i32, y: i32, z: i32)
        ensures
            final(self).follows(*old(self), Edit::SetBlock { block, x, y, z }),
    {
        let level: i32 = self.get_ground_level(x, z);
        self.note(block, x, level as i64 + y as i64, z);
        self.edits.push(Edit::SetBlock { block, x, y, z });
    }

    /// Asks for a block at the height `y`.
    pub fn set_block_absolute(&mut self, block: Block, x: i32, y: i32, z: i32)
        ensures
            final(self).follows(*old(self), Edit::SetBlockAbsolute { block, x, y, z }),
    {
        self.note(block, x, y as i64, z);
        self.edits.push(Edit::SetBlockAbsolute { block, x, y, z });
    }

    /// Asks for a banner at the height `y`.
    pub fn place_wall_banner(
        &mut self,
        block: Block,
        x: i32,
        y: i32,
        z: i32,
        facing: Facing,
        color: DyeColor,
        design: BannerDesign,
    )
        ensures
            final(self).follows(
                *old(self),
                Edit::PlaceWallBanner { block, x, y, z, facing, color, design },
            ),
    {
        self.note(block, x, y as i64, z);
        self.edits.push(Edit::PlaceWallBanner { block, x, y, z, facing, color, design });
    }

    /// The edits asked for so far.
    pub fn edits(&self) -> (r: &Vec<Edit>)
        ensures
            r@ == self.log(),
    {
        &self.edits
    }
}

/// A block is seen on the ground of its column once it has been put there, either
/// at no height above the ground or at the height of the ground, and until the
/// next one is put there. Blocks at other heights and in other columns change
/// nothing.
pub proof fn blocks_on_the_ground_are_seen(
    terrain: Terrain,
    block: Block,
    x: i32,
    y: i32,
    z: i32,
    facing: Facing,
    color: DyeColor,
    design: BannerDesign,
    c: (i32, i32),
    blocks: Seq<Block>,
)
    ensures
        ({
            let above = terrain.after_edit(Edit::SetBlock { block, x, y, z });
            let at = terrain.after_edit(Edit::SetBlockAbsolute { block, x, y, z });
            let banner = terrain.after_edit(
                Edit::PlaceWallBanner { block, x, y, z, facing, color, design },
            );
            let seen = terrain.shows(c.0, c.1, blocks);
            &&& c == (x, z) && y == 0 ==> (above.shows(c.0, c.1, blocks) <==> blocks.contains(
                block,
            ))
            &&& c != (x, z) || y != 0 ==> (above.shows(c.0, c.1, blocks) <==> seen)
            &&& c == (x, z) && y == terrain.level(x, z) ==> (at.shows(c.0, c.1, blocks)
                <==> blocks.contains(block))
            &&& c != (x, z) || y != terrain.level(x, z) ==> (at.shows(c.0, c.1, blocks) <==> seen)
            &&& banner.surface == at.surface
        }),
{
}

/// A column has the ground level that was described for it, and the common one
/// where none was; describing one column leaves the others as they are.
pub proof fn columns_have_the_level_described(
    terrain: Terrain,
    x: i32,
    z: i32,
    level: i32,
    c: (i32, i32),
)
    ensures
        ({
            let described = Terrain { ground: terrain.ground.insert((x, z), level), ..terrain };
            &&& described.level(x, z) == level
            &&& c != (x, z) ==> described.level(c.0, c.1) == terrain.level(c.0, c.1)
            &&& !terrain.ground.contains_key(c) ==> terrain.level(c.0, c.1) == terrain.base
        }),
{
}

} // verus!
