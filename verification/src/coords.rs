//! Horizontal coordinates, rectangles of them, and maps keyed by them.

use std::collections::HashMap;
use vstd::prelude::*;

verus! {

/// A block column of the world, named by its horizontal coordinates.
#[derive(Clone, Copy, Debug, PartialEq, Eq, Structural)]
pub struct XZPoint {
    pub x: i32,
    pub z: i32,
}

/// A rectangle of block columns; both corners belong to it.
#[derive(Clone, Copy, Debug, PartialEq, Eq, Structural)]
pub struct XZBBox {
    pub min: XZPoint,
    pub max: XZPoint,
}

impl XZBBox {
    /// Whether the column at `(x, z)` lies in the rectangle.
    pub open spec fn covers(self, x: int, z: int) -> bool {
        &&& self.min.x <= x <= self.max.x
        &&& self.min.z <= z <= self.max.z
    }

    /// The number of columns along the x axis.
    pub open spec fn width(self) -> int {
        if self.min.x <= self.max.x {
            self.max.x - self.min.x + 1
        } else {
            0
        }
    }

    /// The number of columns along the z axis.
    pub open spec fn depth(self) -> int {
        if self.min.z <= self.max.z {
            self.max.z - self.min.z + 1
        } else {
            0
        }
    }

    /// The number of columns in the rectangle.
    pub open spec fn area(self) -> int {
        self.width() * self.depth()
    }

    /// Whether the column at `(x, z)` lies in the rectangle.
    pub fn contains(&self, x: i32, z: i32) -> (r: bool)
        ensures
            r == self.covers(x as int, z as int),
    {
        self.min.x <= x && x <= self.max.x && self.min.z <= z && z <= self.max.z
    }
}

/// The number under which a map stores the column at `(x, z)`.
spec fn cell_key(c: (i32, i32)) -> int {
    (c.0 + 0x8000_0000) * 0x1_0000_0000 + (c.1 + 0x8000_0000)
}

proof fn lemma_cell_key_injective(a: (i32, i32), b: (i32, i32))
    ensures
        cell_key(a) == cell_key(b) ==> a == b,
        0 <= cell_key(a) <= u64::MAX,
{
}

fn pack(x: i32, z: i32) -> (r: u64)
    ensures
        r == cell_key((x, z)),
{
    let a: u64 = (x as i64 + 0x8000_0000i64) as u64;
    let b: u64 = (z as i64 + 0x8000_0000i64) as u64;
    a * 0x1_0000_0000u64 + b
}

/// A map from block columns to values.
pub struct CellMap<V> {
    cells: HashMap<u64, V>,
}

impl<V> View for CellMap<V> {
    type V = Map<(i32, i32), V>;

    closed spec fn view(&self) -> Map<(i32, i32), V> {
        Map::new(
            |c: (i32, i32)| self.cells@.contains_key(cell_key(c) as u64),
            |c: (i32, i32)| self.cells@[cell_key(c) as u64],
        )
    }
}

impl<V> CellMap<V> {
    /// Every entry belongs to some column.
    #[verifier::type_invariant]
    spec fn keys_are_cells(self) -> bool {
        forall|k: u64|
            #![trigger self.cells@.contains_key(k)]
            self.cells@.contains_key(k) ==> exists|c: (i32, i32)| cell_key(c) == k
    }

    /// A map without entries.
    pub fn new() -> (r: CellMap<V>)
        ensures
            r@ == Map::<(i32, i32), V>::empty(),
    {
        let r = CellMap { cells: HashMap::new() };
        assert(r@ =~= Map::empty());
        r
    }

    /// Whether the map has no entries.
    pub fn is_empty(&self) -> (r: bool)
        ensures
            r == (self@ == Map::<(i32, i32), V>::empty()),
    {
        proof {
            use_type_invariant(self);
        }
        let r = self.cells.is_empty();
        proof {
            if r {
                assert(self@ =~= Map::empty());
            } else {
                let k = self.cells@.dom().choose();
                assert(self.cells@.contains_key(k));
                let c = choose|c: (i32, i32)| cell_key(c) == k;
                assert(self@.contains_key(c));
            }
        }
        r
    }

    /// The value of the column at `(x, z)`, if it has one.
    pub fn get(&self, x: i32, z: i32) -> (r: Option<&V>)
        ensures
            match r {
                Some(v) => self@.contains_key((x, z)) && *v == self@[(x, z)],
                None => !self@.contains_key((x, z)),
            },
    {
        let key: u64 = pack(x, z);
        self.cells.get(&key)
    }

    /// Sets the value of the column at `(x, z)`.
    pub fn insert(&mut self, x: i32, z: i32, value: V)
        ensures
            final(self)@ == old(self)@.insert((x, z), value),
    {
        proof {
            use_type_invariant(&*self);
        }
        let ghost before = self@;
        let ghost stored = self.cells@;
        let key: u64 = pack(x, z);
        let mut cells: HashMap<u64, V> = HashMap::new();
        std::mem::swap(&mut cells, &mut self.cells);
        cells.insert(key, value);
        proof {
            assert(cell_key((x, z)) == key);
            assert forall|k: u64| #[trigger] cells@.contains_key(k) implies exists|c: (i32, i32)|
                cell_key(c) == k by {
                if k != key {
                    assert(stored.contains_key(k));
                }
            }
        }
        self.cells = cells;
        proof {
            assert forall|c: (i32, i32)| #[trigger] cell_key(c) == key implies c == (x, z) by {
                lemma_cell_key_injective(c, (x, z));
            }
            assert(self@ =~= before.insert((x, z), value));
        }
    }

    /// Takes the value of the column at `(x, z)` out of the map.
    pub fn remove(&mut self, x: i32, z: i32) -> (r: Option<V>)
        ensures
            final(self)@ == old(self)@.remove((x, z)),
            match r {
                Some(v) => old(self)@.contains_key((x, z)) && v == old(self)@[(x, z)],
                None => !old(self)@.contains_key((x, z)),
            },
    {
        proof {
            use_type_invariant(&*self);
        }
        let ghost before = self@;
        let ghost stored = self.cells@;
        let key: u64 = pack(x, z);
        let mut cells: HashMap<u64, V> = HashMap::new();
        std::mem::swap(&mut cells, &mut self.cells);
        let r = cells.remove(&key);
        proof {
            assert forall|k: u64| #[trigger] cells@.contains_key(k) implies exists|c: (i32, i32)|
                cell_key(c) == k by {
                assert(stored.contains_key(k));
            }
        }
        self.cells = cells;
        proof {
            assert forall|c: (i32, i32)| #[trigger] cell_key(c) == key implies c == (x, z) by {
                lemma_cell_key_injective(c, (x, z));
            }
            assert(self@ =~= before.remove((x, z)));
        }
        r
    }
}

} // verus!
