//! What surfaces are made of.

use crate::blocks::Block;
use crate::osm::ProcessedWay;
use crate::text;
use vstd::prelude::*;

verus! {

/// For each known value of the `surface` tag, the blocks that it is mixed from:
/// at least one.
#[derive(Debug)]
pub struct SurfaceTable {
    entries: Vec<(String, Vec<Block>)>,
}

/// What a list of entries stands for; later entries replace earlier ones.
spec fn mixes(entries: Seq<(String, Vec<Block>)>) -> Map<Seq<char>, Seq<Block>>
    decreases entries.len(),
{
    if entries.len() == 0 {
        Map::empty()
    } else {
        mixes(entries.drop_last()).insert(entries.last().0@, entries.last().1@)
    }
}

impl View for SurfaceTable {
    type V = Map<Seq<char>, Seq<Block>>;

    closed spec fn view(&self) -> Map<Seq<char>, Seq<Block>> {
        mixes(self.entries@)
    }
}

impl SurfaceTable {
    #[verifier::type_invariant]
    spec fn mixes_are_not_empty(self) -> bool {
        forall|i: int| 0 <= i < self.entries@.len() ==> #[trigger] self.entries@[i].1@.len() > 0
    }

    /// A table that knows no surface.
    pub fn new() -> (r: SurfaceTable)
        ensures
            r@ == Map::<Seq<char>, Seq<Block>>::empty(),
    {
        SurfaceTable { entries: Vec::new() }
    }

    /// Sets the blocks of a surface.
    pub fn insert(&mut self, surface: &str, blocks: Vec<Block>)
        requires
            blocks@.len() > 0,
        ensures
            final(self)@ == old(self)@.insert(surface@, blocks@),
    {
        proof {
            use_type_invariant(&*self);
        }
        let ghost before = self.entries@;
        let mut entries: Vec<(String, Vec<Block>)> = Vec::new();
        std::mem::swap(&mut entries, &mut self.entries);
        entries.push((surface.to_owned(), blocks));
        assert(entries@.drop_last() =~= before);
        self.entries = entries;
    }

    /// The blocks of a surface, if it is known.
    pub fn get(&self, surface: &str) -> (r: Option<&Vec<Block>>)
        ensures
            match r {
                Some(blocks) => self@.contains_key(surface@) && blocks@ == self@[surface@]
                    && blocks@.len() > 0,
                None => !self@.contains_key(surface@),
            },
    {
        proof {
            use_type_invariant(self);
            assert(self.entries@.take(self.entries@.len() as int) =~= self.entries@);
        }
        let mut i: usize = self.entries.len();
        while i > 0
            invariant
                i <= self.entries@.len(),
                forall|j: int|
                    0 <= j < self.entries@.len() ==> #[trigger] self.entries@[j].1@.len() > 0,
                self@.contains_key(surface@) == mixes(self.entries@.take(i as int)).contains_key(
                    surface@,
                ),
                self@.contains_key(surface@) ==> self@[surface@] == mixes(
                    self.entries@.take(i as int),
                )[surface@],
            decreases i,
        {
            proof {
                let now = self.entries@.take(i as int);
                assert(now.drop_last() =~= self.entries@.take(i - 1));
                assert(now.last() == self.entries@[i - 1]);
            }
            i = i - 1;
            if text::str_eq(self.entries[i].0.as_str(), surface) {
                return Some(&self.entries[i].1);
            }
        }
        None
    }
}

/// The blocks of a way: those of its `surface` tag, or `default` where the tag
/// is missing or unknown.
pub open spec fn surface_mix(
    surfaces: Map<Seq<char>, Seq<Block>>,
    tags: Map<Seq<char>, Seq<char>>,
    default: Seq<Block>,
) -> Seq<Block> {
    if tags.contains_key("surface"@) && surfaces.contains_key(tags["surface"@]) {
        surfaces[tags["surface"@]]
    } else {
        default
    }
}

/// The blocks of a way.
pub fn get_blocks_for_surface_way(
    surfaces: &SurfaceTable,
    way: &ProcessedWay,
    default: Vec<Block>,
) -> (r: Vec<Block>)
    ensures
        r@ == surface_mix(surfaces@, way.tags@, default@),
        default@.len() > 0 ==> r@.len() > 0,
{
    match way.tags.get("surface") {
        Some(surface) => match surfaces.get(surface.as_str()) {
            Some(blocks) => {
                let mut r: Vec<Block> = Vec::new();
                let n: usize = blocks.len();
                let mut i: usize = 0;
                while i < n
                    invariant
                        n == blocks@.len(),
                        i <= n,
                        r@ == blocks@.take(i as int),
                    decreases n - i,
                {
                    r.push(blocks[i]);
                    assert(r@ =~= blocks@.take(i + 1));
                    i = i + 1;
                }
                assert(r@ =~= blocks@);
                r
            },
            None => default,
        },
        None => default,
    }
}

} // verus!
