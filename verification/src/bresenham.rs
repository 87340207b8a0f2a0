//! Straight lines of blocks, after Bresenham.

use vstd::prelude::*;

verus! {

/// The distance between two coordinates.
pub open spec fn span(a: int, b: int) -> int {
    if a <= b {
        b - a
    } else {
        a - b
    }
}

/// The number of steps of a line: its largest extent along any axis.
pub open spec fn line_steps(x1: int, y1: int, z1: int, x2: int, y2: int, z2: int) -> int {
    let dx = span(x1, x2);
    let dy = span(y1, y2);
    let dz = span(z1, z2);
    if dx >= dy && dx >= dz {
        dx
    } else if dy >= dx && dy >= dz {
        dy
    } else {
        dz
    }
}

/// How far a line of `n` steps has moved along an axis on which it moves `d` in
/// all, after `k` steps: the exact amount `d * k / n`, rounded to the nearest
/// integer, halves upwards.
pub open spec fn moved(d: int, n: int, k: int) -> int {
    if n == 0 {
        0
    } else {
        (2 * d * k + n) / (2 * n)
    }
}

/// The coordinate on one axis of a line of `n` steps from `a` to `b`, after
/// `k` steps.
pub open spec fn line_coordinate(a: int, b: int, n: int, k: int) -> int {
    if a <= b {
        a + moved(b - a, n, k)
    } else {
        a - moved(a - b, n, k)
    }
}

/// The blocks of the line between two points.
pub open spec fn line_points(
    x1: int,
    y1: int,
    z1: int,
    x2: int,
    y2: int,
    z2: int,
) -> Seq<(int, int, int)> {
    let n = line_steps(x1, y1, z1, x2, y2, z2);
    Seq::new(
        (n + 1) as nat,
        |k: int|
            (
                line_coordinate(x1, x2, n, k),
                line_coordinate(y1, y2, n, k),
                line_coordinate(z1, z2, n, k),
            ),
    )
}

/// The points of an executable line as mathematical integers.
pub open spec fn points_view(points: Seq<(i32, i32, i32)>) -> Seq<(int, int, int)> {
    points.map_values(|p: (i32, i32, i32)| (p.0 as int, p.1 as int, p.2 as int))
}

proof fn lemma_moved(d: int, n: int, k: int)
    requires
        0 <= d <= n,
        0 <= k <= n,
    ensures
        0 <= moved(d, n, k) <= d,
        k == 0 ==> moved(d, n, k) == 0,
        k == n ==> moved(d, n, k) == d,
        d == n ==> moved(d, n, k) == k,
        moved(d, n, k) <= moved(d, n, k + 1) <= moved(d, n, k) + 1,
{
    if n > 0 {
        let q = moved(d, n, k);
        let next = moved(d, n, k + 1);
        let a = 2 * d * k + n;
        let b = 2 * d * (k + 1) + n;
        vstd::arithmetic::div_mod::lemma_fundamental_div_mod(a, 2 * n);
        vstd::arithmetic::div_mod::lemma_fundamental_div_mod(b, 2 * n);
        let r = a % (2 * n);
        let t = b % (2 * n);
        assert(b == a + 2 * d) by (nonlinear_arith)
            requires
                a == 2 * d * k + n,
                b == 2 * d * (k + 1) + n,
        ;
        assert(n <= a <= 2 * d * n + n) by (nonlinear_arith)
            requires
                a == 2 * d * k + n,
                0 <= k <= n,
                0 <= d,
        ;
        assert(0 <= q <= d) by (nonlinear_arith)
            requires
                a == 2 * n * q + r,
                0 <= r < 2 * n,
                n <= a <= 2 * d * n + n,
                n > 0,
        ;
        assert(q <= next <= q + 1) by (nonlinear_arith)
            requires
                a == 2 * n * q + r,
                b == 2 * n * next + t,
                b == a + 2 * d,
                0 <= d <= n,
                0 <= r < 2 * n,
                0 <= t < 2 * n,
        ;
        if k == 0 {
            assert(2 * d * k == 0) by (nonlinear_arith)
                requires
                    k == 0,
            ;
            assert(q == 0) by (nonlinear_arith)
                requires
                    a == 2 * n * q + r,
                    a == n,
                    0 <= r < 2 * n,
                    n > 0,
            ;
        }
        if k == n {
            assert(q == d) by (nonlinear_arith)
                requires
                    a == 2 * n * q + r,
                    a == 2 * d * n + n,
                    0 <= r < 2 * n,
                    n > 0,
            ;
        }
        if d == n {
            assert(q == k) by (nonlinear_arith)
                requires
                    a == 2 * n * q + r,
                    a == 2 * n * k + n,
                    0 <= r < 2 * n,
                    n > 0,
            ;
        }
    }
}

/// One axis of a line under construction.
struct Axis {
    /// The coordinate that has been reached.
    at: i64,
    /// One block towards the end of the line.
    step: i64,
    /// Twice the extent of the line along this axis.
    rise: i64,
    /// By how much the exact line is ahead, in units of `1 / (2 n)`.
    ahead: i64,
}

impl Axis {
    /// The state of the axis from `a` to `b` of a line of `n` steps, after `k`
    /// of them.
    spec fn reached(self, a: int, b: int, n: int, k: int) -> bool {
        let d = span(a, b);
        &&& self.at == line_coordinate(a, b, n, k)
        &&& self.step == if a <= b {
            1int
        } else {
            -1int
        }
        &&& self.rise == 2 * d
        &&& 0 <= d <= n
        &&& n > 0 ==> self.ahead == (2 * d * k + n) % (2 * n)
        &&& n == 0 ==> self.ahead == 0
    }

    fn start(a: i32, b: i32, n: i64) -> (r: Axis)
        requires
            span(a as int, b as int) <= n <= u32::MAX,
        ensures
            r.reached(a as int, b as int, n as int, 0),
    {
        let d: i64 = if a <= b {
            b as i64 - a as i64
        } else {
            a as i64 - b as i64
        };
        proof {
            lemma_moved(d as int, n as int, 0);
            assert(2 * d * 0 == 0);
            if n > 0 {
                vstd::arithmetic::div_mod::lemma_small_mod(n as nat, (2 * n) as nat);
            }
        }
        Axis {
            at: a as i64,
            step: if a <= b {
                1
            } else {
                -1
            },
            rise: 2 * d,
            ahead: n,
        }
    }

    fn advance(&mut self, Ghost(a): Ghost<i32>, Ghost(b): Ghost<i32>, n: i64, Ghost(k): Ghost<int>)
        requires
            0 < n <= u32::MAX,
            0 <= k < n,
            old(self).reached(a as int, b as int, n as int, k),
        ensures
            final(self).reached(a as int, b as int, n as int, k + 1),
    {
        let ghost d = span(a as int, b as int);
        let ghost e = 2 * d * k + n;
        proof {
            lemma_moved(d, n as int, k);
            lemma_moved(d, n as int, k + 1);
            vstd::arithmetic::div_mod::lemma_fundamental_div_mod(e, 2 * n);
            vstd::arithmetic::div_mod::lemma_mod_bound(e, 2 * n);
            assert(2 * d * (k + 1) + n == e + 2 * d) by (nonlinear_arith)
                requires
                    e == 2 * d * k + n,
            ;
        }
        let ghost q = e / (2 * n);
        let ghost r = e % (2 * n);
        self.ahead = self.ahead + self.rise;
        if self.ahead >= 2 * n {
            self.ahead = self.ahead - 2 * n;
            self.at = self.at + self.step;
            proof {
                assert(e + 2 * d == (q + 1) * (2 * n) + (r + 2 * d - 2 * n)) by (nonlinear_arith)
                    requires
                        e == (2 * n) * q + r,
                ;
                vstd::arithmetic::div_mod::lemma_fundamental_div_mod_converse(
                    e + 2 * d,
                    2 * n,
                    q + 1,
                    r + 2 * d - 2 * n,
                );
            }
        } else {
            proof {
                assert(e + 2 * d == q * (2 * n) + (r + 2 * d)) by (nonlinear_arith)
                    requires
                        e == (2 * n) * q + r,
                ;
                vstd::arithmetic::div_mod::lemma_fundamental_div_mod_converse(
                    e + 2 * d,
                    2 * n,
                    q,
                    r + 2 * d,
                );
            }
        }
    }
}

fn distance(a: i32, b: i32) -> (r: i64)
    ensures
        r == span(a as int, b as int),
{
    if a <= b {
        b as i64 - a as i64
    } else {
        a as i64 - b as i64
    }
}

/// A line never leaves the box between its ends.
pub proof fn line_stays_between_its_ends(a: int, b: int, n: int, k: int)
    requires
        span(a, b) <= n,
        0 <= k <= n,
    ensures
        a <= b ==> a <= line_coordinate(a, b, n, k) <= b,
        b <= a ==> b <= line_coordinate(a, b, n, k) <= a,
{
    lemma_moved(span(a, b), n, k);
}

/// The blocks of the straight line between two points, both included.
pub fn bresenham_line(x1: i32, y1: i32, z1: i32, x2: i32, y2: i32, z2: i32) -> (r: Vec<
    (i32, i32, i32),
>)
    ensures
        points_view(r@) == line_points(
            x1 as int,
            y1 as int,
            z1 as int,
            x2 as int,
            y2 as int,
            z2 as int,
        ),
{
    let dx: i64 = distance(x1, x2);
    let dy: i64 = distance(y1, y2);
    let dz: i64 = distance(z1, z2);
    let n: i64 = if dx >= dy && dx >= dz {
        dx
    } else if dy >= dx && dy >= dz {
        dy
    } else {
        dz
    };
    let ghost line = line_points(
        x1 as int,
        y1 as int,
        z1 as int,
        x2 as int,
        y2 as int,
        z2 as int,
    );
    let mut points: Vec<(i32, i32, i32)> = Vec::new();
    let mut x = Axis::start(x1, x2, n);
    let mut y = Axis::start(y1, y2, n);
    let mut z = Axis::start(z1, z2, n);
    let mut k: i64 = 0;
    assert(points_view(points@) =~= line.take(0));
    while k < n
        invariant
            0 <= k <= n <= u32::MAX,
            n == line_steps(x1 as int, y1 as int, z1 as int, x2 as int, y2 as int, z2 as int),
            line == line_points(
                x1 as int,
                y1 as int,
                z1 as int,
                x2 as int,
                y2 as int,
                z2 as int,
            ),
            x.reached(x1 as int, x2 as int, n as int, k as int),
            y.reached(y1 as int, y2 as int, n as int, k as int),
            z.reached(z1 as int, z2 as int, n as int, k as int),
            points_view(points@) == line.take(k as int),
        decreases n - k,
    {
        proof {
            line_stays_between_its_ends(x1 as int, x2 as int, n as int, k as int);
            line_stays_between_its_ends(y1 as int, y2 as int, n as int, k as int);
            line_stays_between_its_ends(z1 as int, z2 as int, n as int, k as int);
        }
        let ghost before = points@;
        points.push((x.at as i32, y.at as i32, z.at as i32));
        proof {
            assert(points_view(points@) =~= points_view(before).push(line[k as int]));
            assert(line.take(k + 1) =~= line.take(k as int).push(line[k as int]));
        }
        x.advance(Ghost(x1), Ghost(x2), n, Ghost(k as int));
        y.advance(Ghost(y1), Ghost(y2), n, Ghost(k as int));
        z.advance(Ghost(z1), Ghost(z2), n, Ghost(k as int));
        k = k + 1;
    }
    let ghost before = points@;
    points.push((x2, y2, z2));
    proof {
        lemma_moved(span(x1 as int, x2 as int), n as int, n as int);
        lemma_moved(span(y1 as int, y2 as int), n as int, n as int);
        lemma_moved(span(z1 as int, z2 as int), n as int, n as int);
        assert(points_view(points@) =~= points_view(before).push(line[n as int]));
        assert(line =~= line.take(n as int).push(line[n as int]));
    }
    points
}

proof fn lemma_coordinate_ends(a: int, b: int, n: int)
    requires
        span(a, b) <= n,
    ensures
        line_coordinate(a, b, n, 0) == a,
        line_coordinate(a, b, n, n) == b,
{
    lemma_moved(span(a, b), n, 0);
    lemma_moved(span(a, b), n, n);
}

proof fn lemma_coordinate_step(a: int, b: int, n: int, k: int)
    requires
        span(a, b) <= n,
        0 <= k < n,
    ensures
        span(line_coordinate(a, b, n, k), line_coordinate(a, b, n, k + 1)) <= 1,
        span(a, b) == n ==> line_coordinate(a, b, n, k) != line_coordinate(a, b, n, k + 1),
{
    lemma_moved(span(a, b), n, k);
    lemma_moved(span(a, b), n, k + 1);
}

/// A line starts at its first end, stops at its second, and goes from block to
/// adjacent block.
pub proof fn line_connects_its_ends(x1: int, y1: int, z1: int, x2: int, y2: int, z2: int)
    ensures
        ({
            let line = line_points(x1, y1, z1, x2, y2, z2);
            &&& line.len() == line_steps(x1, y1, z1, x2, y2, z2) + 1
            &&& line.first() == (x1, y1, z1)
            &&& line.last() == (x2, y2, z2)
            &&& forall|k: int|
                #![trigger line[k]]
                0 <= k < line.len() - 1 ==> {
                    &&& span(line[k].0, line[k + 1].0) <= 1
                    &&& span(line[k].1, line[k + 1].1) <= 1
                    &&& span(line[k].2, line[k + 1].2) <= 1
                    &&& line[k] != line[k + 1]
                }
        }),
{
    let n = line_steps(x1, y1, z1, x2, y2, z2);
    let line = line_points(x1, y1, z1, x2, y2, z2);
    lemma_coordinate_ends(x1, x2, n);
    lemma_coordinate_ends(y1, y2, n);
    lemma_coordinate_ends(z1, z2, n);
    assert forall|k: int| #![trigger line[k]] 0 <= k < line.len() - 1 implies {
        &&& span(line[k].0, line[k + 1].0) <= 1
        &&& span(line[k].1, line[k + 1].1) <= 1
        &&& span(line[k].2, line[k + 1].2) <= 1
        &&& line[k] != line[k + 1]
    } by {
        lemma_coordinate_step(x1, x2, n, k);
        lemma_coordinate_step(y1, y2, n, k);
        lemma_coordinate_step(z1, z2, n, k);
    }
}

proof fn lemma_moved_is_nearest(d: int, n: int, k: int)
    requires
        0 <= d <= n,
        0 <= k <= n,
    ensures
        n > 0 ==> -n <= 2 * d * k - 2 * n * moved(d, n, k) < n,
        n == 0 ==> moved(d, n, k) == 0,
{
    if n > 0 {
        let e = 2 * d * k + n;
        vstd::arithmetic::div_mod::lemma_fundamental_div_mod(e, 2 * n);
        vstd::arithmetic::div_mod::lemma_mod_bound(e, 2 * n);
    }
}

/// A line takes one step for each block of its largest extent, and after `k` of
/// its `n` steps it is, on every axis, at the block nearest to where the exact
/// line has gone `k / n` of its way; of two equally near ones at the one that is
/// further on.
pub proof fn lines_take_the_nearest_blocks(
    x1: int,
    y1: int,
    z1: int,
    x2: int,
    y2: int,
    z2: int,
    k: int,
)
    requires
        0 <= k < line_points(x1, y1, z1, x2, y2, z2).len(),
    ensures
        ({
            let line = line_points(x1, y1, z1, x2, y2, z2);
            let n = line.len() - 1;
            let (x, y, z) = line[k];
            &&& -n <= x2 - x1 <= n && -n <= y2 - y1 <= n && -n <= z2 - z1 <= n
            &&& n == x2 - x1 || n == x1 - x2 || n == y2 - y1 || n == y1 - y2 || n == z2 - z1 || n
                == z1 - z2
            &&& n == 0 ==> x == x1 && y == y1 && z == z1
            &&& n > 0 && x1 <= x2 ==> -n <= 2 * (x2 - x1) * k - 2 * n * (x - x1) < n
            &&& n > 0 && x1 >= x2 ==> -n <= 2 * (x1 - x2) * k - 2 * n * (x1 - x) < n
            &&& n > 0 && y1 <= y2 ==> -n <= 2 * (y2 - y1) * k - 2 * n * (y - y1) < n
            &&& n > 0 && y1 >= y2 ==> -n <= 2 * (y1 - y2) * k - 2 * n * (y1 - y) < n
            &&& n > 0 && z1 <= z2 ==> -n <= 2 * (z2 - z1) * k - 2 * n * (z - z1) < n
            &&& n > 0 && z1 >= z2 ==> -n <= 2 * (z1 - z2) * k - 2 * n * (z1 - z) < n
        }),
{
    let n = line_steps(x1, y1, z1, x2, y2, z2);
    lemma_axis_is_nearest(x1, x2, n, k);
    lemma_axis_is_nearest(y1, y2, n, k);
    lemma_axis_is_nearest(z1, z2, n, k);
}

proof fn lemma_axis_is_nearest(a: int, b: int, n: int, k: int)
    requires
        span(a, b) <= n,
        0 <= k <= n,
    ensures
        ({
            let c = line_coordinate(a, b, n, k);
            &&& n == 0 ==> c == a
            &&& n > 0 && a <= b ==> -n <= 2 * (b - a) * k - 2 * n * (c - a) < n
            &&& n > 0 && a >= b ==> -n <= 2 * (a - b) * k - 2 * n * (a - c) < n
        }),
{
    lemma_moved_is_nearest(span(a, b), n, k);
    lemma_moved(span(a, b), n, k);
    if a == b {
        assert(2 * (b - a) * k == 0) by (nonlinear_arith)
            requires
                a == b,
        ;
        assert(2 * (a - b) * k == 0) by (nonlinear_arith)
            requires
                a == b,
        ;
    }
}

/// A line along an axis goes through every block between its ends.
pub proof fn straight_lines_miss_no_block(a: int, b: int, k: int)
    requires
        a <= b,
        0 <= k <= b - a,
    ensures
        line_coordinate(a, b, b - a, k) == a + k,
{
    lemma_moved(b - a, b - a, k);
}

/// Exchanging two axes of the ends of a line exchanges them in all its blocks.
pub proof fn lines_exchange_axes(x1: int, y1: int, z1: int, x2: int, y2: int, z2: int, k: int)
    requires
        0 <= k < line_points(x1, y1, z1, x2, y2, z2).len(),
    ensures
        line_points(z1, y1, x1, z2, y2, x2).len() == line_points(x1, y1, z1, x2, y2, z2).len(),
        line_points(z1, y1, x1, z2, y2, x2)[k] == (
            line_points(x1, y1, z1, x2, y2, z2)[k].2,
            line_points(x1, y1, z1, x2, y2, z2)[k].1,
            line_points(x1, y1, z1, x2, y2, z2)[k].0,
        ),
{
}

/// A line that is moved as a whole keeps its shape.
pub proof fn lines_move_with_their_ends(
    x1: int,
    y1: int,
    z1: int,
    x2: int,
    y2: int,
    z2: int,
    by: (int, int, int),
    k: int,
)
    requires
        0 <= k < line_points(x1, y1, z1, x2, y2, z2).len(),
    ensures
        ({
            let line = line_points(x1, y1, z1, x2, y2, z2);
            let moved = line_points(
                x1 + by.0,
                y1 + by.1,
                z1 + by.2,
                x2 + by.0,
                y2 + by.1,
                z2 + by.2,
            );
            &&& moved.len() == line.len()
            &&& moved[k] == (line[k].0 + by.0, line[k].1 + by.1, line[k].2 + by.2)
        }),
{
}

} // verus!
