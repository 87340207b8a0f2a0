//! Sets of block columns inside a rectangle.

use crate::coords::XZBBox;
use crate::coords::XZPoint;
use vstd::prelude::*;

verus! {

/// A set of block columns of a rectangle, one flag for each.
pub struct CoordinateBitmap {
    bounds: XZBBox,
    depth: u64,
    flags: Vec<bool>,
}

/// The position of the flag of a column.
spec fn flag_index(bounds: XZBBox, x: int, z: int) -> int {
    (x - bounds.min.x) * bounds.depth() + (z - bounds.min.z)
}

proof fn lemma_flag_index(bounds: XZBBox, x: int, z: int)
    requires
        bounds.covers(x, z),
    ensures
        0 <= flag_index(bounds, x, z) < bounds.area(),
        0 <= (x - bounds.min.x) * bounds.depth() <= flag_index(bounds, x, z),
{
    let a = x - bounds.min.x;
    let w = bounds.width();
    let d = bounds.depth();
    assert(0 <= a * d && a * d + d <= w * d) by (nonlinear_arith)
        requires
            0 <= a < w,
            d >= 0,
    ;
}

proof fn lemma_flag_index_injective(bounds: XZBBox, x1: int, z1: int, x2: int, z2: int)
    requires
        bounds.covers(x1, z1),
        bounds.covers(x2, z2),
        flag_index(bounds, x1, z1) == flag_index(bounds, x2, z2),
    ensures
        x1 == x2,
        z1 == z2,
{
    let a1 = x1 - bounds.min.x;
    let a2 = x2 - bounds.min.x;
    let b1 = z1 - bounds.min.z;
    let b2 = z2 - bounds.min.z;
    let d = bounds.depth();
    assert(a1 == a2) by (nonlinear_arith)
        requires
            a1 * d + b1 == a2 * d + b2,
            0 <= b1 < d,
            0 <= b2 < d,
    ;
}

impl View for CoordinateBitmap {
    type V = Set<(int, int)>;

    closed spec fn view(&self) -> Set<(int, int)> {
        Set::new(
            |c: (int, int)|
                self.bounds.covers(c.0, c.1) && self.flags@[flag_index(self.bounds, c.0, c.1)],
        )
    }
}

impl CoordinateBitmap {
    /// Every column has its flag.
    #[verifier::type_invariant]
    spec fn one_flag_each(self) -> bool {
        &&& self.flags@.len() == self.bounds.area()
        &&& self.depth == self.bounds.depth()
    }

    /// The rectangle that the columns come from.
    pub closed spec fn area(self) -> XZBBox {
        self.bounds
    }

    /// The empty set of columns of a rectangle.
    pub fn new(xzbbox: &XZBBox) -> (r: CoordinateBitmap)
        requires
            xzbbox.area() <= isize::MAX,
        ensures
            r@ == Set::<(int, int)>::empty(),
            r.area() == *xzbbox,
    {
        let width: u64 = if xzbbox.min.x <= xzbbox.max.x {
            (xzbbox.max.x as i64 - xzbbox.min.x as i64 + 1) as u64
        } else {
            0
        };
        let depth: u64 = if xzbbox.min.z <= xzbbox.max.z {
            (xzbbox.max.z as i64 - xzbbox.min.z as i64 + 1) as u64
        } else {
            0
        };
        assert(0 <= width * depth) by (nonlinear_arith)
            requires
                width >= 0,
                depth >= 0,
        ;
        let flags: Vec<bool> = vec![false; (width * depth) as usize];
        let r = CoordinateBitmap { bounds: *xzbbox, depth, flags };
        proof {
            assert forall|c: (int, int)| !r@.contains(c) by {
                if r.bounds.covers(c.0, c.1) {
                    lemma_flag_index(r.bounds, c.0, c.1);
                }
            }
            assert(r@ =~= Set::empty());
        }
        r
    }

    /// A set without columns, of a rectangle without columns.
    pub fn new_empty() -> (r: CoordinateBitmap)
        ensures
            r@ == Set::<(int, int)>::empty(),
            r.area().area() == 0,
    {
        let bounds = XZBBox { min: XZPoint { x: 0, z: 0 }, max: XZPoint { x: -1, z: -1 } };
        let r = CoordinateBitmap { bounds, depth: 0, flags: Vec::new() };
        assert(r@ =~= Set::empty());
        r
    }

    /// The position of the flag of a column.
    fn position(&self, x: i32, z: i32) -> (r: usize)
        requires
            self.bounds.covers(x as int, z as int),
        ensures
            r == flag_index(self.bounds, x as int, z as int),
            r < self.flags@.len(),
    {
        proof {
            use_type_invariant(self);
            lemma_flag_index(self.bounds, x as int, z as int);
        }
        let n: usize = self.flags.len();
        let a: u64 = (x as i64 - self.bounds.min.x as i64) as u64;
        let b: u64 = (z as i64 - self.bounds.min.z as i64) as u64;
        assert(a * self.depth <= n);
        (a * self.depth + b) as usize
    }

    /// Puts a column into the set, if it lies in the rectangle.
    pub fn set(&mut self, x: i32, z: i32)
        ensures
            final(self).area() == old(self).area(),
            final(self)@ == if old(self).area().covers(x as int, z as int) {
                old(self)@.insert((x as int, z as int))
            } else {
                old(self)@
            },
    {
        proof {
            use_type_invariant(&*self);
        }
        let ghost before = *self;
        if self.bounds.contains(x, z) {
            let i: usize = self.position(x, z);
            let ghost bounds = self.bounds;
            self.flags[i] = true;
            proof {
                assert forall|c: (int, int)| self@.contains(c) == before@.insert(
                    (x as int, z as int),
                ).contains(c) by {
                    if bounds.covers(c.0, c.1) {
                        lemma_flag_index(bounds, c.0, c.1);
                        if flag_index(bounds, c.0, c.1) == i {
                            lemma_flag_index_injective(
                                bounds,
                                c.0,
                                c.1,
                                x as int,
                                z as int,
                            );
                        }
                    }
                }
                assert(self@ =~= before@.insert((x as int, z as int)));
            }
        }
    }

    /// Whether a column is in the set.
    pub fn contains(&self, x: i32, z: i32) -> (r: bool)
        ensures
            r == self@.contains((x as int, z as int)),
    {
        if self.bounds.contains(x, z) {
            let i: usize = self.position(x, z);
            self.flags[i]
        } else {
            false
        }
    }
}

/// No column outside the rectangle is ever in the set.
pub proof fn bitmap_stays_in_its_rectangle(bitmap: CoordinateBitmap, c: (int, int))
    requires
        bitmap@.contains(c),
    ensures
        bitmap.area().covers(c.0, c.1),
{
}

} // verus!
