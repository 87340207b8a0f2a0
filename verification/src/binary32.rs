//! Arithmetic on non-negative single-precision numbers, in integers.
//!
//! Slopes and way lengths are defined by IEEE 754 single-precision
//! arithmetic: every operation gives the number of 24 significant bits that is
//! nearest to the exact result, and of two equally near ones the one whose
//! last bit is zero. Here a number is a mantissa and a power of two, so that
//! the results can be reasoned about. The values that occur stay far inside
//! the range of normal numbers, so exponents are not bounded.

use vstd::arithmetic::power2;
use vstd::prelude::*;

verus! {

/// The non-negative number `mantissa * 2^exponent`.
#[derive(Clone, Copy, Debug)]
pub struct Single {
    pub mantissa: u32,
    pub exponent: i32,
}

impl View for Single {
    type V = (int, int);

    open spec fn view(&self) -> (int, int) {
        (self.mantissa as int, self.exponent as int)
    }
}

/// The integer nearest to `n / d`, and of two equally near ones the even one.
pub open spec fn half_even(n: int, d: int) -> int {
    let q = n / d;
    let r = n % d;
    if 2 * r < d || (2 * r == d && q % 2 == 0) {
        q
    } else {
        q + 1
    }
}

/// The single-precision number nearest to `(n / d) * 2^e`, as a mantissa and
/// an exponent: scale the fraction by powers of two until its integer part has
/// 24 bits, then round.
pub open spec fn nearest(n: int, d: int, e: int) -> (int, int)
    decreases
            if n < d * 0x80_0000 {
                d * 0x80_0000 - n
            } else if n >= d * 0x100_0000 {
                n - d * 0x100_0000 + 1
            } else {
                0
            },
{
    if n <= 0 || d <= 0 {
        (0, 0)
    } else if n < d * 0x80_0000 {
        nearest(2 * n, d, e - 1)
    } else if n >= d * 0x100_0000 {
        nearest(n, 2 * d, e + 1)
    } else {
        let m = half_even(n, d);
        if m == 0x100_0000 {
            (0x80_0000, e + 1)
        } else {
            (m, e)
        }
    }
}

/// A mantissa of 24 bits, or zero.
pub open spec fn is_single(s: (int, int)) -> bool {
    ||| s == (0int, 0int)
    ||| 0x80_0000 <= s.0 < 0x100_0000
}

/// The integer `n` as a single-precision number.
pub open spec fn from_int(n: int) -> (int, int) {
    nearest(n, 1, 0)
}

/// The quotient of two single-precision numbers.
pub open spec fn quotient(a: (int, int), b: (int, int)) -> (int, int) {
    nearest(a.0, b.0, a.1 - b.1)
}

/// The product of two single-precision numbers.
pub open spec fn product(a: (int, int), b: (int, int)) -> (int, int) {
    nearest(a.0 * b.0, 1, a.1 + b.1)
}

/// The integer part of a single-precision number.
pub open spec fn truncated(s: (int, int)) -> int {
    if s.1 >= 0 {
        s.0 * power2::pow2(s.1 as nat)
    } else {
        s.0 / power2::pow2((-s.1) as nat) as int
    }
}

proof fn lemma_half_even_range(n: int, d: int)
    requires
        d > 0,
        d * 0x80_0000 <= n < d * 0x100_0000,
    ensures
        0x80_0000 <= half_even(n, d) <= 0x100_0000,
{
    let q = n / d;
    let r = n % d;
    vstd::arithmetic::div_mod::lemma_fundamental_div_mod(n, d);
    assert(0 <= r < d);
    assert(q >= 0x80_0000) by (nonlinear_arith)
        requires
            n == d * q + r,
            0 <= r < d,
            d * 0x80_0000 <= n,
    ;
    assert(q < 0x100_0000) by (nonlinear_arith)
        requires
            n == d * q + r,
            0 <= r < d,
            n < d * 0x100_0000,
    ;
}

/// The nearest number has a mantissa of 24 bits.
pub proof fn lemma_nearest_is_single(n: int, d: int, e: int)
    ensures
        is_single(nearest(n, d, e)),
        n > 0 && d > 0 ==> nearest(n, d, e).0 > 0,
    decreases
            if n < d * 0x80_0000 {
                d * 0x80_0000 - n
            } else if n >= d * 0x100_0000 {
                n - d * 0x100_0000 + 1
            } else {
                0
            },
{
    if n <= 0 || d <= 0 {
    } else if n < d * 0x80_0000 {
        lemma_nearest_is_single(2 * n, d, e - 1);
    } else if n >= d * 0x100_0000 {
        lemma_nearest_is_single(n, 2 * d, e + 1);
    } else {
        lemma_half_even_range(n, d);
    }
}

/// The single-precision number nearest to `(n / d) * 2^e`.
fn round(n: u128, d: u128, e: i32) -> (r: Single)
    requires
        n <= 0x1_0000_0000_0000_0000_0000,
        1 <= d <= 0x1_0000_0000_0000_0000_0000,
        -1000 <= e <= 1000,
    ensures
        r@ == nearest(n as int, d as int, e as int),
        n > 0 ==> e - 200 <= r.exponent <= e + 200,
        is_single(r@),
{
    proof {
        lemma_nearest_is_single(n as int, d as int, e as int);
    }
    if n == 0 {
        return Single { mantissa: 0, exponent: 0 };
    }
    let mut a: u128 = n;
    let mut b: u128 = d;
    let mut k: i32 = e;
    assert(n as int == n * power2::pow2(0)) by {
        power2::lemma2_to64();
    }
    while a < b * 0x80_0000u128
        invariant
            1 <= n <= a,
            a <= 0x1_0000_0000_0000_0000_0000 * 0x100_0000,
            b == d,
            1 <= d <= 0x1_0000_0000_0000_0000_0000,
            e - 105 <= k <= e,
            -1000 <= e <= 1000,
            a as int == n * power2::pow2((e - k) as nat),
            nearest(a as int, b as int, k as int) == nearest(n as int, d as int, e as int),
        decreases b * 0x100_0000 - a,
    {
        proof {
            lemma_doublings(n as int, (e - k) as nat);
            power2::lemma_pow2_unfold((e - k + 1) as nat);
            assert(2 * (n * power2::pow2((e - k) as nat)) == n * (2 * power2::pow2((e - k) as nat)))
                by (nonlinear_arith);
        }
        a = 2 * a;
        k = k - 1;
    }
    let ghost k0 = k;
    let ghost b0 = b;
    assert(b as int == b0 * power2::pow2(0)) by {
        power2::lemma2_to64();
        assert(b0 * 1 == b0);
    }
    while a >= b * 0x100_0000u128
        invariant
            1 <= b0 <= b,
            b <= a,
            a <= 0x1_0000_0000_0000_0000_0000 * 0x100_0000,
            a >= b * 0x80_0000,
            k0 <= k <= k0 + 105,
            -1200 <= k0 <= 1000,
            b as int == b0 * power2::pow2((k - k0) as nat),
            nearest(a as int, b as int, k as int) == nearest(n as int, d as int, e as int),
        decreases a - b,
    {
        proof {
            lemma_doublings(b0 as int, (k - k0) as nat);
            power2::lemma_pow2_unfold((k - k0 + 1) as nat);
            assert(2 * (b0 * power2::pow2((k - k0) as nat)) == b0 * (2 * power2::pow2((k - k0) as nat)))
                by (nonlinear_arith);
        }
        b = 2 * b;
        k = k + 1;
    }
    let q: u128 = a / b;
    let r: u128 = a % b;
    proof {
        lemma_half_even_range(a as int, b as int);
        assert(q as int == a as int / b as int);
        assert(r as int == a as int % b as int);
    }
    let m: u128 = if 2 * r < b || (2 * r == b && q % 2 == 0) {
        q
    } else {
        q + 1
    };
    assert(m as int == half_even(a as int, b as int));
    if m == 0x100_0000 {
        Single { mantissa: 0x80_0000, exponent: k + 1 }
    } else {
        Single { mantissa: m as u32, exponent: k }
    }
}

proof fn lemma_doublings(n: int, k: nat)
    requires
        n >= 1,
        n * power2::pow2(k) <= 0x1_0000_0000_0000_0000_0000 * 0x80_0000,
    ensures
        k <= 104,
{
    if k > 104 {
        power2::lemma2_to64();
        power2::lemma2_to64_rest();
        power2::lemma_pow2_adds(64, 41);
        if k > 105 {
            power2::lemma_pow2_strictly_increases(105, k);
        }
        assert(n * power2::pow2(k) >= power2::pow2(k)) by (nonlinear_arith)
            requires
                n >= 1,
                power2::pow2(k) >= 0,
        ;
    }
}

impl Single {
    /// The integer `n` as a single-precision number.
    pub fn from_u64(n: u64) -> (r: Single)
        ensures
            r@ == from_int(n as int),
            is_single(r@),
            -200 <= r.exponent <= 200,
    {
        round(n as u128, 1, 0)
    }

    /// The quotient of two single-precision numbers.
    pub fn div(self, other: Single) -> (r: Single)
        requires
            is_single(self@),
            is_single(other@),
            other.mantissa > 0,
            -200 <= self.exponent <= 200,
            -200 <= other.exponent <= 200,
        ensures
            r@ == quotient(self@, other@),
            is_single(r@),
            -600 <= r.exponent <= 600,
    {
        round(self.mantissa as u128, other.mantissa as u128, self.exponent - other.exponent)
    }

    /// The product of two single-precision numbers.
    pub fn mul(self, other: Single) -> (r: Single)
        requires
            is_single(self@),
            is_single(other@),
            -200 <= self.exponent <= 200,
            -600 <= other.exponent <= 600,
        ensures
            r@ == product(self@, other@),
            is_single(r@),
            -1000 <= r.exponent <= 1000,
    {
        assert(0 <= self.mantissa * other.mantissa <= 0x100_0000 * 0x100_0000)
            by (nonlinear_arith)
            requires
                self.mantissa <= 0x100_0000,
                other.mantissa <= 0x100_0000,
        ;
        let n: u128 = self.mantissa as u128 * other.mantissa as u128;
        round(n, 1, self.exponent + other.exponent)
    }

    /// The integer part of a single-precision number.
    pub fn truncate(self) -> (r: u64)
        requires
            is_single(self@),
            -1000 <= self.exponent <= 1000,
            truncated(self@) <= u64::MAX,
        ensures
            r == truncated(self@),
    {
        let mut r: u64 = self.mantissa as u64;
        proof {
            power2::lemma2_to64();
            assert(self.mantissa * 1 == self.mantissa);
            assert(self.mantissa as int / 1 == self.mantissa);
        }
        if self.exponent >= 0 {
            let mut i: i32 = 0;
            while i < self.exponent
                invariant
                    0 <= i <= self.exponent,
                    r as int == self.mantissa * power2::pow2(i as nat),
                    truncated(self@) <= u64::MAX,
                decreases self.exponent - i,
            {
                proof {
                    power2::lemma_pow2_unfold((i + 1) as nat);
                    if i + 1 < self.exponent {
                        power2::lemma_pow2_strictly_increases((i + 1) as nat, self.exponent as nat);
                    }
                    let m = self.mantissa as int;
                    let p = power2::pow2(i as nat) as int;
                    let q = power2::pow2(self.exponent as nat) as int;
                    assert(2 * (m * p) == m * (2 * p)) by (nonlinear_arith);
                    assert(m * (2 * p) <= m * q) by (nonlinear_arith)
                        requires
                            m >= 0,
                            2 * p <= q,
                    ;
                }
                r = 2 * r;
                i = i + 1;
            }
        } else {
            let mut i: i32 = 0;
            while i > self.exponent
                invariant
                    self.exponent <= i <= 0,
                    r as int == self.mantissa as int / power2::pow2((-i) as nat) as int,
                decreases i - self.exponent,
            {
                proof {
                    power2::lemma_pow2_unfold((1 - i) as nat);
                    power2::lemma_pow2_pos((-i) as nat);
                    vstd::arithmetic::div_mod::lemma_div_denominator(
                        self.mantissa as int,
                        power2::pow2((-i) as nat) as int,
                        2,
                    );
                }
                r = r / 2;
                i = i - 1;
            }
        }
        r
    }
}

/// The order of single-precision numbers.
pub open spec fn at_most(a: (int, int), b: (int, int)) -> bool {
    ||| a.0 == 0
    ||| b.0 != 0 && (a.1 < b.1 || (a.1 == b.1 && a.0 <= b.0))
}

proof fn lemma_half_even_double(n: int, d: int)
    requires
        n >= 0,
        d > 0,
    ensures
        half_even(2 * n, 2 * d) == half_even(n, d),
{
    let q = n / d;
    let r = n % d;
    vstd::arithmetic::div_mod::lemma_fundamental_div_mod(n, d);
    assert(2 * n == q * (2 * d) + 2 * r) by (nonlinear_arith)
        requires
            n == d * q + r,
    ;
    vstd::arithmetic::div_mod::lemma_fundamental_div_mod_converse(2 * n, 2 * d, q, 2 * r);
}

/// Doubling both parts of a fraction leaves the nearest number the same.
proof fn lemma_nearest_double(n: int, d: int, e: int)
    requires
        n >= 0,
        d > 0,
    ensures
        nearest(2 * n, 2 * d, e) == nearest(n, d, e),
    decreases
            if n < d * 0x80_0000 {
                d * 0x80_0000 - n
            } else if n >= d * 0x100_0000 {
                n - d * 0x100_0000 + 1
            } else {
                0
            },
{
    if n == 0 {
    } else if n < d * 0x80_0000 {
        lemma_nearest_double(2 * n, d, e - 1);
    } else if n >= d * 0x100_0000 {
        lemma_nearest_double(n, 2 * d, e + 1);
    } else {
        lemma_half_even_double(n, d);
    }
}

/// A factor of two may stand in the fraction or in the exponent.
proof fn lemma_nearest_shift(n: int, d: int, e: int)
    requires
        n > 0,
        d > 0,
    ensures
        nearest(2 * n, d, e - 1) == nearest(n, d, e),
{
    if n >= d * 0x80_0000 {
        assert(nearest(2 * n, d, e - 1) == nearest(2 * n, 2 * d, e));
        lemma_nearest_double(n, d, e);
    }
}

proof fn lemma_nearest_shift_by(n: int, d: int, e: int, k: nat)
    requires
        n > 0,
        d > 0,
    ensures
        nearest(n * power2::pow2(k), d, e - k) == nearest(n, d, e),
    decreases k,
{
    power2::lemma2_to64();
    if k > 0 {
        let j = (k - 1) as nat;
        let p = power2::pow2(j) as int;
        lemma_nearest_shift_by(n, d, e, j);
        power2::lemma_pow2_unfold(k);
        power2::lemma_pow2_pos(j);
        assert(n * (2 * p) == 2 * (n * p)) by (nonlinear_arith);
        assert(n * p > 0) by (nonlinear_arith)
            requires
                n > 0,
                p > 0,
        ;
        lemma_nearest_shift(n * p, d, e - j);
    } else {
        assert(n * 1 == n);
    }
}

/// A number of at most 24 bits is not rounded.
proof fn lemma_nearest_exact(m: int, e: int)
    requires
        0x80_0000 <= m < 0x100_0000,
    ensures
        nearest(m, 1, e) == (m, e),
{
    assert(m / 1 == m && m % 1 == 0);
}

proof fn lemma_nearest_bounds(n: int, d: int, e: int)
    requires
        n > 0,
        d > 0,
    ensures
        n < d * 0x80_0000 ==> at_most(nearest(n, d, e), (0x80_0000, e)),
        n >= d * 0x80_0000 ==> at_most((0x80_0000, e), nearest(n, d, e)),
        n < d * 0x100_0000 ==> at_most(nearest(n, d, e), (0x80_0000, e + 1)),
        n >= d * 0x100_0000 ==> at_most((0x80_0000, e + 1), nearest(n, d, e)),
    decreases
            if n < d * 0x80_0000 {
                d * 0x80_0000 - n
            } else if n >= d * 0x100_0000 {
                n - d * 0x100_0000 + 1
            } else {
                0
            },
{
    lemma_nearest_is_single(n, d, e);
    if n < d * 0x80_0000 {
        lemma_nearest_bounds(2 * n, d, e - 1);
    } else if n >= d * 0x100_0000 {
        lemma_nearest_bounds(n, 2 * d, e + 1);
    } else {
        lemma_half_even_range(n, d);
    }
}

/// Rounding to integers keeps the order.
pub proof fn lemma_half_even_monotone(n1: int, d1: int, n2: int, d2: int)
    requires
        0 <= n1,
        0 <= n2,
        0 < d1,
        0 < d2,
        n1 * d2 <= n2 * d1,
    ensures
        half_even(n1, d1) <= half_even(n2, d2),
{
    let q1 = n1 / d1;
    let r1 = n1 % d1;
    let q2 = n2 / d2;
    let r2 = n2 % d2;
    vstd::arithmetic::div_mod::lemma_fundamental_div_mod(n1, d1);
    vstd::arithmetic::div_mod::lemma_fundamental_div_mod(n2, d2);
    assert(q1 <= q2) by (nonlinear_arith)
        requires
            n1 == d1 * q1 + r1,
            n2 == d2 * q2 + r2,
            0 <= r1 < d1,
            0 <= r2 < d2,
            n1 * d2 <= n2 * d1,
    ;
    if q1 == q2 {
        assert(r1 * d2 <= r2 * d1) by (nonlinear_arith)
            requires
                n1 == d1 * q1 + r1,
                n2 == d2 * q2 + r2,
                q1 == q2,
                n1 * d2 <= n2 * d1,
        ;
        if 2 * r2 < d2 {
            assert(2 * r1 < d1) by (nonlinear_arith)
                requires
                    r1 * d2 <= r2 * d1,
                    2 * r2 < d2,
                    0 < d1,
                    0 < d2,
            ;
        }
        if 2 * r2 == d2 {
            assert(2 * r1 <= d1) by (nonlinear_arith)
                requires
                    r1 * d2 <= r2 * d1,
                    2 * r2 == d2,
                    0 < d1,
                    0 < d2,
            ;
        }
    }
}

/// Rounding keeps the order.
pub proof fn lemma_nearest_monotone(n1: int, d1: int, n2: int, d2: int, e: int)
    requires
        0 <= n1,
        0 <= n2,
        0 < d1,
        0 < d2,
        n1 * d2 <= n2 * d1,
    ensures
        at_most(nearest(n1, d1, e), nearest(n2, d2, e)),
    decreases
            if n1 < d1 * 0x80_0000 {
                d1 * 0x80_0000 - n1
            } else if n1 >= d1 * 0x100_0000 {
                n1 - d1 * 0x100_0000 + 1
            } else {
                0
            },
{
    lemma_nearest_is_single(n1, d1, e);
    lemma_nearest_is_single(n2, d2, e);
    if n1 > 0 {
        assert(n2 > 0) by (nonlinear_arith)
            requires
                n1 > 0,
                d2 > 0,
                d1 > 0,
                n2 >= 0,
                n1 * d2 <= n2 * d1,
        ;
        lemma_nearest_bounds(n1, d1, e);
        lemma_nearest_bounds(n2, d2, e);
        if n1 < d1 * 0x80_0000 {
            if n2 < d2 * 0x80_0000 {
                assert((2 * n1) * d2 <= (2 * n2) * d1) by (nonlinear_arith)
                    requires
                        n1 * d2 <= n2 * d1,
                ;
                lemma_nearest_monotone(2 * n1, d1, 2 * n2, d2, e - 1);
            }
        } else {
            assert(n2 >= d2 * 0x80_0000) by (nonlinear_arith)
                requires
                    n1 * d2 <= n2 * d1,
                    n1 >= d1 * 0x80_0000,
                    0 < d1,
                    0 < d2,
            ;
            if n1 >= d1 * 0x100_0000 {
                assert(n2 >= d2 * 0x100_0000) by (nonlinear_arith)
                    requires
                        n1 * d2 <= n2 * d1,
                        n1 >= d1 * 0x100_0000,
                        0 < d1,
                        0 < d2,
                ;
                assert(n1 * (2 * d2) <= n2 * (2 * d1)) by (nonlinear_arith)
                    requires
                        n1 * d2 <= n2 * d1,
                ;
                lemma_nearest_monotone(n1, 2 * d1, n2, 2 * d2, e + 1);
            } else if n2 < d2 * 0x100_0000 {
                lemma_half_even_monotone(n1, d1, n2, d2);
                lemma_half_even_range(n1, d1);
                lemma_half_even_range(n2, d2);
            }
        }
    }
}

/// Bringing two ordered numbers to the smaller exponent keeps their order.
proof fn lemma_align(a: (int, int), b: (int, int))
    requires
        is_single(a),
        is_single(b),
        a.0 > 0,
        at_most(a, b),
    ensures
        b.0 > 0,
        a.1 <= b.1,
        a.0 <= b.0 * power2::pow2((b.1 - a.1) as nat),
{
    let k = (b.1 - a.1) as nat;
    power2::lemma2_to64();
    if k > 0 {
        power2::lemma_pow2_unfold(k);
        power2::lemma_pow2_pos((k - 1) as nat);
        let p = power2::pow2(k) as int;
        assert(b.0 * p >= 0x80_0000 * 2) by (nonlinear_arith)
            requires
                b.0 >= 0x80_0000,
                p >= 2,
        ;
    } else {
        assert(b.0 * 1 == b.0);
    }
}

/// A larger number has a quotient at least as large.
pub proof fn lemma_quotient_monotone(a: (int, int), b: (int, int), d: (int, int))
    requires
        is_single(a),
        is_single(b),
        is_single(d),
        d.0 > 0,
        at_most(a, b),
    ensures
        at_most(quotient(a, d), quotient(b, d)),
{
    if a.0 > 0 {
        lemma_align(a, b);
        let k = (b.1 - a.1) as nat;
        let n = b.0 * power2::pow2(k);
        lemma_nearest_shift_by(b.0, d.0, b.1 - d.1, k);
        assert(a.0 * d.0 <= n * d.0) by (nonlinear_arith)
            requires
                a.0 <= n,
                d.0 > 0,
        ;
        lemma_nearest_monotone(a.0, d.0, n, d.0, a.1 - d.1);
    }
}

/// A larger number has a product at least as large.
pub proof fn lemma_product_monotone(c: (int, int), a: (int, int), b: (int, int))
    requires
        is_single(c),
        is_single(a),
        is_single(b),
        at_most(a, b),
    ensures
        at_most(product(c, a), product(c, b)),
{
    if a.0 > 0 && c.0 > 0 {
        lemma_align(a, b);
        let k = (b.1 - a.1) as nat;
        let p = power2::pow2(k) as int;
        power2::lemma_pow2_pos(k);
        assert(c.0 * b.0 > 0) by (nonlinear_arith)
            requires
                c.0 > 0,
                b.0 > 0,
        ;
        lemma_nearest_shift_by(c.0 * b.0, 1, c.1 + b.1, k);
        assert(0 <= c.0 * a.0 <= (c.0 * b.0) * p) by (nonlinear_arith)
            requires
                0 < a.0 <= b.0 * p,
                c.0 > 0,
        ;
        lemma_nearest_monotone(c.0 * a.0, 1, (c.0 * b.0) * p, 1, c.1 + a.1);
    } else if c.0 == 0 {
        assert(0 * a.0 == 0);
    } else {
        assert(c.0 * 0 == 0);
    }
}

/// A larger number has an integer part at least as large.
pub proof fn lemma_truncated_monotone(a: (int, int), b: (int, int))
    requires
        is_single(a),
        is_single(b),
        at_most(a, b),
    ensures
        0 <= truncated(a) <= truncated(b),
{
    power2::lemma2_to64();
    if a.0 == 0 {
        if b.1 >= 0 {
            power2::lemma_pow2_pos(b.1 as nat);
            assert(b.0 * power2::pow2(b.1 as nat) >= 0) by (nonlinear_arith)
                requires
                    b.0 >= 0,
                    power2::pow2(b.1 as nat) >= 0,
            ;
        } else {
            power2::lemma_pow2_pos((-b.1) as nat);
            vstd::arithmetic::div_mod::lemma_div_pos_is_pos(
                b.0,
                power2::pow2((-b.1) as nat) as int,
            );
        }
        assert(0 * 1 == 0);
    } else {
        lemma_align(a, b);
        let k = (b.1 - a.1) as nat;
        let p = power2::pow2(k) as int;
        power2::lemma_pow2_pos(k);
        if a.1 >= 0 {
            let q = power2::pow2(a.1 as nat) as int;
            power2::lemma_pow2_pos(a.1 as nat);
            power2::lemma_pow2_adds(k, a.1 as nat);
            assert(0 <= a.0 * q <= b.0 * (p * q)) by (nonlinear_arith)
                requires
                    0 < a.0 <= b.0 * p,
                    q > 0,
            ;
        } else {
            let q = power2::pow2((-a.1) as nat) as int;
            power2::lemma_pow2_pos((-a.1) as nat);
            vstd::arithmetic::div_mod::lemma_div_pos_is_pos(a.0, q);
            vstd::arithmetic::div_mod::lemma_div_is_ordered(a.0, b.0 * p, q);
            if b.1 >= 0 {
                let t = power2::pow2(b.1 as nat) as int;
                power2::lemma_pow2_adds(b.1 as nat, (-a.1) as nat);
                assert(b.0 * (t * q) == (b.0 * t) * q) by (nonlinear_arith);
                vstd::arithmetic::div_mod::lemma_div_by_multiple(b.0 * t, q);
            } else {
                let t = power2::pow2((-b.1) as nat) as int;
                power2::lemma_pow2_pos((-b.1) as nat);
                power2::lemma_pow2_adds(k, (-b.1) as nat);
                vstd::arithmetic::div_mod::lemma_div_denominator(b.0 * p, p, t);
                vstd::arithmetic::div_mod::lemma_div_by_multiple(b.0, p);
            }
        }
    }
}

/// The number one.
pub open spec fn one() -> (int, int) {
    (0x80_0000, -23)
}

proof fn lemma_from_int_one()
    ensures
        from_int(1) == one(),
{
    power2::lemma2_to64();
    lemma_nearest_shift_by(1, 1, 0, 23);
    lemma_nearest_exact(0x80_0000, -23);
}

/// A number divided by one at least as large is at most one, and a number
/// divided by itself is one.
pub proof fn lemma_quotient_at_most_one(a: (int, int), b: (int, int))
    requires
        is_single(a),
        is_single(b),
        b.0 > 0,
        at_most(a, b),
    ensures
        at_most(quotient(a, b), one()),
        quotient(b, b) == one(),
{
    lemma_from_int_one();
    lemma_nearest_monotone(b.0, b.0, 1, 1, 0);
    lemma_nearest_monotone(1, 1, b.0, b.0, 0);
    lemma_quotient_monotone(a, b, b);
}

/// One is neutral.
pub proof fn lemma_product_one(a: (int, int))
    requires
        is_single(a),
    ensures
        product(a, one()) == a,
{
    if a.0 > 0 {
        power2::lemma2_to64();
        lemma_nearest_shift_by(a.0, 1, a.1, 23);
        lemma_nearest_exact(a.0, a.1);
    } else {
        assert(0 * 0x80_0000 == 0);
    }
}

/// Converting integers keeps their order.
pub proof fn lemma_from_int_monotone(a: int, b: int)
    requires
        0 <= a <= b,
    ensures
        is_single(from_int(a)),
        is_single(from_int(b)),
        b > 0 ==> from_int(b).0 > 0,
        at_most(from_int(a), from_int(b)),
{
    lemma_nearest_is_single(a, 1, 0);
    lemma_nearest_is_single(b, 1, 0);
    lemma_nearest_monotone(a, 1, b, 1, 0);
}

proof fn lemma_from_small_int(n: int, k: nat)
    requires
        0 < n,
        n * power2::pow2(k) < 0x100_0000,
    ensures
        truncated(nearest(n * power2::pow2(k), 1, -k)) == n,
    decreases 0x100_0000 - n * power2::pow2(k),
{
    let p = power2::pow2(k) as int;
    let m = n * p;
    power2::lemma_pow2_pos(k);
    assert(m > 0) by (nonlinear_arith)
        requires
            m == n * p,
            n > 0,
            p > 0,
    ;
    if m >= 0x80_0000 {
        lemma_nearest_exact(m, -k);
        if k == 0 {
            power2::lemma2_to64();
            assert(n * 1 == n);
            assert(m * 1 == m);
        } else {
            vstd::arithmetic::div_mod::lemma_div_by_multiple(n, p);
        }
    } else {
        power2::lemma_pow2_unfold(k + 1);
        assert(n * (2 * p) == 2 * m) by (nonlinear_arith)
            requires
                m == n * p,
        ;
        lemma_from_small_int(n, k + 1);
    }
}

/// An integer of at most 24 bits is converted exactly.
pub proof fn lemma_from_int_exact(n: int)
    requires
        0 <= n <= 0x100_0000,
    ensures
        truncated(from_int(n)) == n,
{
    power2::lemma2_to64();
    if n == 0 {
        assert(0 * 1 == 0);
    } else if n < 0x100_0000 {
        assert(n * 1 == n);
        lemma_from_small_int(n, 0);
    } else {
        lemma_nearest_shift(0x80_0000, 1, 1);
        lemma_nearest_exact(0x80_0000, 1);
    }
}

/// Converting an integer of at most 31 bits does not leave them.
pub proof fn lemma_from_int_bound(n: int)
    requires
        0 <= n <= 0x8000_0000,
    ensures
        0 <= truncated(from_int(n)) <= 0x8000_0000,
{
    power2::lemma2_to64();
    lemma_from_int_monotone(n, 0x8000_0000);
    lemma_truncated_monotone(from_int(n), from_int(0x8000_0000));
    lemma_nearest_shift_by(0x80_0000, 1, 8, 8);
    lemma_nearest_exact(0x80_0000, 8);
}

/// Whether `r` is the integer part of the square root of `n`.
pub open spec fn is_root(n: int, r: int) -> bool {
    &&& 0 <= r
    &&& r * r <= n
    &&& n < (r + 1) * (r + 1)
}

/// The integer part of the square root of `n`.
pub open spec fn root(n: int) -> int {
    choose|r: int| is_root(n, r)
}

/// The integer nearest to the square root of `n`; no integer has a root half
/// way between two others.
pub open spec fn nearest_root(n: int) -> int {
    let r = root(n);
    if n > r * r + r {
        r + 1
    } else {
        r
    }
}

/// The integer part of the single-precision square root of `n / scale^2`:
/// scale until the root has 24 bits before the point, round, scale back.
pub open spec fn scaled_root(n: int, scale: int) -> int
    decreases 0x1_0000_0000_0000 - n,
{
    if n <= 0 || scale <= 0 {
        0
    } else if n < 0x4000_0000_0000 {
        scaled_root(4 * n, 2 * scale)
    } else {
        nearest_root(n) / scale
    }
}

/// The integer part of the single-precision square root of the integer `n`,
/// which is first converted to a single-precision number itself.
pub open spec fn sqrt_truncated(n: int) -> int {
    scaled_root(truncated(from_int(n)), 1)
}

/// There is one integer part of a square root.
pub proof fn lemma_root_unique(n: int, r: int)
    requires
        is_root(n, r),
    ensures
        root(n) == r,
{
    let s = root(n);
    assert(is_root(n, s));
    assert(r == s) by (nonlinear_arith)
        requires
            is_root(n, r),
            is_root(n, s),
    ;
}

/// The integer part of the square root of `n`.
fn integer_root(n: u64) -> (r: u64)
    requires
        n < 0x1_0000_0000_0000,
    ensures
        is_root(n as int, r as int),
        r == root(n as int),
        r < 0x100_0000,
{
    let mut low: u64 = 0;
    let mut high: u64 = 0x100_0000;
    while high - low > 1
        invariant
            low < high <= 0x100_0000,
            low * low <= n < high * high,
        decreases high - low,
    {
        let mid: u64 = low + (high - low) / 2;
        assert(mid * mid <= 0x100_0000 * 0x100_0000) by (nonlinear_arith)
            requires
                mid <= 0x100_0000,
        ;
        if mid * mid <= n {
            low = mid;
        } else {
            high = mid;
        }
    }
    assert(high == low + 1);
    proof {
        lemma_root_unique(n as int, low as int);
    }
    low
}

/// The integer part of the single-precision square root of the integer `n`.
pub fn sqrt_floor(n: u32) -> (r: u64)
    requires
        n <= 0x8000_0000,
    ensures
        r == sqrt_truncated(n as int),
        r < 0x1_0000,
{
    proof {
        lemma_from_int_bound(n as int);
    }
    let m: u64 = Single::from_u64(n as u64).truncate();
    if m == 0 {
        return 0;
    }
    let mut a: u64 = m;
    let mut scale: u64 = 1;
    assert(m * (scale * scale) == m) by (nonlinear_arith)
        requires
            scale == 1,
    ;
    while a < 0x4000_0000_0000u64
        invariant
            1 <= m <= a,
            m <= 0x8000_0000,
            a < 0x1_0000_0000_0000,
            a as int == m * (scale * scale),
            1 <= scale <= 0x100_0000,
            scaled_root(a as int, scale as int) == scaled_root(m as int, 1),
        decreases 0x1_0000_0000_0000 - a,
    {
        assert(4 * (m * (scale * scale)) == m * ((2 * scale) * (2 * scale))) by (nonlinear_arith);
        assert(scale < 0x80_0000) by (nonlinear_arith)
            requires
                a < 0x4000_0000_0000,
                a == m * (scale * scale),
                m >= 1,
        ;
        a = 4 * a;
        scale = 2 * scale;
    }
    let t: u64 = integer_root(a);
    assert(t * t + t <= 0x100_0000 * 0x100_0000 + 0x100_0000) by (nonlinear_arith)
        requires
            t < 0x100_0000,
    ;
    let rounded: u64 = if a > t * t + t {
        t + 1
    } else {
        t
    };
    assert(rounded as int == nearest_root(a as int));
    proof {
        // The root of an integer of at most 31 bits has at most 16.
        assert(scale >= 0x80) by (nonlinear_arith)
            requires
                a >= 0x4000_0000_0000,
                a == m * (scale * scale),
                m <= 0x8000_0000,
        ;
        assert(t * t <= m * (scale * scale));
        assert(t < 0xb505 * scale) by (nonlinear_arith)
            requires
                t * t <= m * (scale * scale),
                m <= 0x8000_0000,
                scale >= 1,
                t >= 0,
        ;
        assert(rounded as int / scale as int <= 0xb505) by (nonlinear_arith)
            requires
                rounded <= 0xb505 * scale,
                scale >= 1,
        ;
    }
    rounded / scale
}

/// Below `2^24` the conversion is exact and rounding never reaches the next
/// integer: the result is the integer part of the true square root.
pub proof fn lemma_sqrt_exact(n: int)
    requires
        0 <= n < 0x100_0000,
    ensures
        is_root(n, sqrt_truncated(n)),
{
    lemma_from_int_exact(n);
    if n > 0 {
        lemma_root_exists(n);
        let k = root(n);
        assert(k < 0x1000) by (nonlinear_arith)
            requires
                k * k <= n,
                n < 0x100_0000,
                k >= 0,
        ;
        power2::lemma2_to64();
        assert(n * 1 == n);
        lemma_scaled_root_exact(n, k, 1, 0);
    }
}

proof fn lemma_root_exists(n: int)
    requires
        n >= 0,
    ensures
        is_root(n, root(n)),
    decreases n,
{
    if n == 0 {
        assert(is_root(0, 0));
    } else {
        lemma_root_exists(n - 1);
        let r = root(n - 1);
        if n < (r + 1) * (r + 1) {
            assert(is_root(n, r));
        } else {
            assert(n < (r + 2) * (r + 2)) by (nonlinear_arith)
                requires
                    n - 1 < (r + 1) * (r + 1),
                    r >= 0,
            ;
            assert(is_root(n, r + 1));
        }
    }
}

proof fn lemma_scaled_root_exact(n: int, k: int, scale: int, f: nat)
    requires
        0 < n < 0x100_0000,
        is_root(n, k),
        0 <= k < 0x1000,
        scale > 0,
        scale == power2::pow2(f),
        n * (scale * scale) < 0x1_0000_0000_0000,
    ensures
        scaled_root(n * (scale * scale), scale) == k,
    decreases 0x1_0000_0000_0000 - n * (scale * scale),
{
    let a = n * (scale * scale);
    assert(a >= scale * scale >= 1) by (nonlinear_arith)
        requires
            a == n * (scale * scale),
            n >= 1,
            scale >= 1,
    ;
    if a < 0x4000_0000_0000 {
        assert(4 * a == n * ((2 * scale) * (2 * scale))) by (nonlinear_arith)
            requires
                a == n * (scale * scale),
        ;
        power2::lemma_pow2_unfold(f + 1);
        lemma_scaled_root_exact(n, k, 2 * scale, f + 1);
    } else {
        assert(scale > 0x800) by (nonlinear_arith)
            requires
                a == n * (scale * scale),
                a >= 0x4000_0000_0000,
                0 < n < 0x100_0000,
                scale > 0,
        ;
        power2::lemma2_to64();
        if f < 11 {
            power2::lemma_pow2_strictly_increases(f, 11);
        } else if f > 12 {
            power2::lemma_pow2_strictly_increases(12, f);
        }
        assert(scale >= 0x1000);
        lemma_root_exists(a);
        let t = root(a);
        let top = (k + 1) * scale;
        assert(k * scale <= t) by (nonlinear_arith)
            requires
                k * k <= n,
                a == n * (scale * scale),
                a < (t + 1) * (t + 1),
                k >= 0,
                scale > 0,
                t >= 0,
        ;
        assert(t < top) by (nonlinear_arith)
            requires
                n + 1 <= (k + 1) * (k + 1),
                a == n * (scale * scale),
                t * t <= a,
                top == (k + 1) * scale,
                k >= 0,
                scale > 0,
        ;
        if t == top - 1 {
            assert(a <= t * t + t) by (nonlinear_arith)
                requires
                    n + 1 <= (k + 1) * (k + 1),
                    a == n * (scale * scale),
                    top == (k + 1) * scale,
                    t == top - 1,
                    scale >= k + 1,
                    k >= 0,
            ;
        }
        let m = nearest_root(a);
        assert(k * scale <= m < (k + 1) * scale);
        assert(m / scale == k) by (nonlinear_arith)
            requires
                k * scale <= m < (k + 1) * scale,
                scale > 0,
        ;
    }
}

/// A square root is not negative.
pub proof fn lemma_sqrt_nonnegative(n: int)
    requires
        0 <= n <= 0x8000_0000,
    ensures
        sqrt_truncated(n) >= 0,
{
    lemma_from_int_bound(n);
    lemma_scaled_root_nonnegative(truncated(from_int(n)), 1);
}

proof fn lemma_scaled_root_nonnegative(n: int, scale: int)
    requires
        scale > 0,
    ensures
        scaled_root(n, scale) >= 0,
    decreases 0x1_0000_0000_0000 - n,
{
    if n <= 0 {
    } else if n < 0x4000_0000_0000 {
        lemma_scaled_root_nonnegative(4 * n, 2 * scale);
    } else {
        lemma_root_exists(n);
        vstd::arithmetic::div_mod::lemma_div_pos_is_pos(nearest_root(n), scale);
    }
}

/// Rounding to an integer changes a fraction by at most a half.
pub proof fn lemma_half_even_error(n: int, d: int)
    requires
        n >= 0,
        d > 0,
    ensures
        -d <= 2 * (half_even(n, d) * d - n) <= d,
{
    let q = n / d;
    let r = n % d;
    vstd::arithmetic::div_mod::lemma_fundamental_div_mod(n, d);
    vstd::arithmetic::div_mod::lemma_mod_bound(n, d);
    assert(q * d == d * q) by (nonlinear_arith);
    assert((q + 1) * d == d * q + d) by (nonlinear_arith);
}

/// Rounding changes a number by at most one part in `2^24`: for two powers of
/// two that account for the exponents, `m * 2^k` is that near to `(n / d) * 2^e`.
pub proof fn lemma_nearest_accuracy(n: int, d: int, e: int) -> (w: (nat, nat))
    requires
        n > 0,
        d > 0,
    ensures
        ({
            let exact = n * power2::pow2(w.0);
            let found = nearest(n, d, e).0 * (d * power2::pow2(w.1));
            &&& nearest(n, d, e).1 == e - w.0 + w.1
            &&& -exact <= 0x100_0000 * (found - exact) <= exact
        }),
    decreases
            if n < d * 0x80_0000 {
                d * 0x80_0000 - n
            } else if n >= d * 0x100_0000 {
                n - d * 0x100_0000 + 1
            } else {
                0
            },
{
    power2::lemma2_to64();
    let m = nearest(n, d, e).0;
    if n < d * 0x80_0000 {
        let (a, b) = lemma_nearest_accuracy(2 * n, d, e - 1);
        let p = power2::pow2(a) as int;
        power2::lemma_pow2_unfold(a + 1);
        assert((2 * n) * p == n * (2 * p)) by (nonlinear_arith);
        (a + 1, b)
    } else if n >= d * 0x100_0000 {
        let (a, b) = lemma_nearest_accuracy(n, 2 * d, e + 1);
        let p = power2::pow2(b) as int;
        power2::lemma_pow2_unfold(b + 1);
        assert((2 * d) * p == d * (2 * p)) by (nonlinear_arith);
        (a, b + 1)
    } else {
        let h = half_even(n, d);
        lemma_half_even_error(n, d);
        assert(n * 1 == n && d * 1 == d);
        if h == 0x100_0000 {
            assert(0x80_0000 * (d * 2) == 0x100_0000 * d);
            (0, 1)
        } else {
            (0, 0)
        }
    }
}

/// The integer part of `m * 2^k`, where `2^k` is `up / down`.
pub proof fn lemma_truncated_value(s: (int, int), up: nat, down: nat)
    requires
        s.0 >= 0,
        s.1 == up - down,
    ensures
        truncated(s) * power2::pow2(down) <= s.0 * power2::pow2(up),
        s.0 * power2::pow2(up) < (truncated(s) + 1) * power2::pow2(down),
{
    let m = s.0;
    let h = truncated(s);
    let u = power2::pow2(up) as int;
    let l = power2::pow2(down) as int;
    power2::lemma_pow2_pos(up);
    power2::lemma_pow2_pos(down);
    if s.1 >= 0 {
        let p = power2::pow2(s.1 as nat) as int;
        power2::lemma_pow2_adds(s.1 as nat, down);
        assert((m * p) * l == m * (p * l)) by (nonlinear_arith);
        assert((m * p + 1) * l == m * (p * l) + l) by (nonlinear_arith);
    } else {
        let p = power2::pow2((-s.1) as nat) as int;
        power2::lemma_pow2_pos((-s.1) as nat);
        power2::lemma_pow2_adds((-s.1) as nat, up);
        vstd::arithmetic::div_mod::lemma_fundamental_div_mod(m, p);
        vstd::arithmetic::div_mod::lemma_mod_bound(m, p);
        assert(h * p <= m < (h + 1) * p) by (nonlinear_arith)
            requires
                m == p * h + m % p,
                0 <= m % p < p,
        ;
        assert(h * (p * u) == (h * p) * u) by (nonlinear_arith);
        assert((h + 1) * (p * u) == ((h + 1) * p) * u) by (nonlinear_arith);
        assert((h * p) * u <= m * u < ((h + 1) * p) * u) by (nonlinear_arith)
            requires
                h * p <= m < (h + 1) * p,
                u > 0,
        ;
    }
}

proof fn lemma_near_times(found: int, exact: int, c: int)
    requires
        -exact <= 0x100_0000 * (found - exact) <= exact,
        c >= 0,
    ensures
        -(exact * c) <= 0x100_0000 * (found * c - exact * c) <= exact * c,
{
    let diff = found - exact;
    assert(found * c - exact * c == diff * c) by (nonlinear_arith)
        requires
            diff == found - exact,
    ;
    assert(-(exact * c) <= 0x100_0000 * (diff * c) <= exact * c) by (nonlinear_arith)
        requires
            -exact <= 0x100_0000 * diff <= exact,
            c >= 0,
    ;
}

/// The integer part of `base * (distance / length)`, computed in single
/// precision, is the integer part of a number that differs from the exact one by
/// at most one part in `2^21`.
pub proof fn lemma_share_accuracy(base: int, distance: int, length: int)
    requires
        0 <= base,
        0 <= distance,
        0 < length,
    ensures
        ({
            let share = quotient(from_int(distance), from_int(length));
            let h = truncated(product(from_int(base), share));
            &&& 0 <= h
            &&& 0x20_0000 * (h * length - base * distance) <= base * distance
            &&& 0x20_0000 * (base * distance - (h + 1) * length) < base * distance || base
                * distance == 0
        }),
{
    let (bs, ds, ls) = (from_int(base), from_int(distance), from_int(length));
    let share = quotient(ds, ls);
    let result = product(bs, share);
    let h = truncated(result);
    power2::lemma2_to64();
    lemma_nearest_is_single(base, 1, 0);
    lemma_nearest_is_single(distance, 1, 0);
    lemma_nearest_is_single(length, 1, 0);
    lemma_nearest_is_single(ds.0, ls.0, ds.1 - ls.1);
    if base == 0 || distance == 0 {
        assert(base * distance == 0) by (nonlinear_arith)
            requires
                base == 0 || distance == 0,
        ;
        assert(bs.0 * share.0 == 0) by (nonlinear_arith)
            requires
                bs.0 == 0 || share.0 == 0,
        ;
        assert(0 * 1 == 0);
        assert(h * length == 0) by (nonlinear_arith)
            requires
                h == 0,
        ;
    } else {
        let (b1, b2) = lemma_nearest_accuracy(base, 1, 0);
        let (d1, d2) = lemma_nearest_accuracy(distance, 1, 0);
        let (l1, l2) = lemma_nearest_accuracy(length, 1, 0);
        let (q1, q2) = lemma_nearest_accuracy(ds.0, ls.0, ds.1 - ls.1);
        assert(bs.0 * share.0 > 0) by (nonlinear_arith)
            requires
                bs.0 > 0,
                share.0 > 0,
        ;
        lemma_nearest_is_single(bs.0 * share.0, 1, bs.1 + share.1);
        let (p1, p2) = lemma_nearest_accuracy(bs.0 * share.0, 1, bs.1 + share.1);
        let up = b2 + d2 + l1 + q2 + p2;
        let down = b1 + d1 + l2 + q1 + p1;
        lemma_truncated_value(result, up, down);
        lemma_truncated_nonnegative(result);
        assert(1 * power2::pow2(b2) == power2::pow2(b2));
        assert(1 * power2::pow2(d2) == power2::pow2(d2));
        assert(1 * power2::pow2(l2) == power2::pow2(l2));
        lemma_share_products(
            base,
            distance,
            length,
            (bs.0, power2::pow2(b1) as int, power2::pow2(b2) as int),
            (ds.0, power2::pow2(d1) as int, power2::pow2(d2) as int),
            (ls.0, power2::pow2(l1) as int, power2::pow2(l2) as int),
            (share.0, power2::pow2(q1) as int, power2::pow2(q2) as int),
            (result.0, power2::pow2(p1) as int, power2::pow2(p2) as int),
        );
        lemma_pow2_of_five(b2, d2, l1, q2, p2);
        lemma_pow2_of_five(b1, d1, l2, q1, p1);
        assert(base * distance >= 0) by (nonlinear_arith)
            requires
                base >= 0,
                distance >= 0,
        ;
        lemma_share_bounds(
            h,
            base * distance,
            length,
            power2::pow2(down) as int,
            result.0 * power2::pow2(up),
        );
    }
}

proof fn lemma_truncated_nonnegative(s: (int, int))
    requires
        s.0 >= 0,
    ensures
        truncated(s) >= 0,
{
    if s.1 >= 0 {
        let p = power2::pow2(s.1 as nat) as int;
        assert(s.0 * p >= 0) by (nonlinear_arith)
            requires
                s.0 >= 0,
                p >= 0,
        ;
    } else {
        power2::lemma_pow2_pos((-s.1) as nat);
        vstd::arithmetic::div_mod::lemma_div_pos_is_pos(s.0, power2::pow2((-s.1) as nat) as int);
    }
}

proof fn lemma_pow2_of_five(a: nat, b: nat, c: nat, d: nat, e: nat)
    ensures
        power2::pow2(a + b + c + d + e) == (((power2::pow2(a) * power2::pow2(b)) * power2::pow2(c))
            * power2::pow2(d)) * power2::pow2(e),
        power2::pow2(a + b + c + d + e) > 0,
{
    power2::lemma_pow2_adds(a, b);
    power2::lemma_pow2_adds(a + b, c);
    power2::lemma_pow2_adds(a + b + c, d);
    power2::lemma_pow2_adds(a + b + c + d, e);
    power2::lemma_pow2_pos(a + b + c + d + e);
}

proof fn lemma_regroup_eight(a: int, b: int, c: int, d: int, e: int, f: int, g: int, h: int)
    ensures
        ((a * b) * c) * (((d * e) * (f * g)) * h) == (a * d) * ((h * f) * ((b * g) * (c * e))),
{
    let x = b * c;
    let y = (e * (f * g)) * h;
    let u = h * f;
    let v = g * e;
    vstd::arithmetic::mul::lemma_mul_is_associative(a, b, c);
    vstd::arithmetic::mul::lemma_mul_is_associative(d, e, f * g);
    vstd::arithmetic::mul::lemma_mul_is_associative(d, e * (f * g), h);
    assert((a * x) * (d * y) == (a * d) * (x * y)) by (nonlinear_arith);
    assert((e * (f * g)) * h == (h * f) * (g * e)) by (nonlinear_arith);
    assert(x * (u * v) == u * (x * v)) by (nonlinear_arith);
    assert((b * c) * (g * e) == (b * g) * (c * e)) by (nonlinear_arith);
}

proof fn lemma_regroup_found(a: int, b: int, c: int, d: int, e: int, f: int)
    ensures
        (a * (1 * b)) * ((c * (d * e)) * f) == (a * (((c * d) * e) * b)) * f,
{
    vstd::arithmetic::mul::lemma_mul_is_associative(c, d, e);
    let x = c * (d * e);
    assert((a * (1 * b)) * (x * f) == (a * (x * b)) * f) by (nonlinear_arith);
}

proof fn lemma_regroup_quotient(a: int, b: int, c: int, d: int, e: int, f: int, g: int)
    ensures
        (a * (b * c)) * ((d * e) * (f * g)) == d * ((b * g) * ((a * c) * (e * f))),
{
    let x = a * c;
    let y = e * f;
    assert(a * (b * c) == b * x) by (nonlinear_arith)
        requires
            x == a * c,
    ;
    assert((d * e) * (f * g) == d * (y * g)) by (nonlinear_arith)
        requires
            y == e * f,
    ;
    assert((b * x) * (d * (y * g)) == d * ((b * x) * (y * g))) by (nonlinear_arith);
    assert((b * x) * (y * g) == (b * g) * (x * y)) by (nonlinear_arith);
}

proof fn lemma_regroup_five(a: int, b: int, c: int, d: int, e: int)
    ensures
        (a * b) * (c * (d * e)) == (a * d) * (c * (e * b)),
{
    assert((a * b) * (c * (d * e)) == c * ((a * b) * (d * e))) by (nonlinear_arith);
    assert((a * d) * (c * (e * b)) == c * ((a * d) * (e * b))) by (nonlinear_arith);
    assert((a * b) * (d * e) == (a * d) * (e * b)) by (nonlinear_arith);
}

proof fn lemma_regroup_seven(a: int, b: int, c: int, d: int, e: int, f: int, g: int)
    ensures
        (b * d) * (((a * c) * g) * (e * f)) == (a * b) * ((((c * d) * e) * f) * g),
{
    let x = e * f;
    let y = x * g;
    let u = c * d;
    let v = a * c;
    vstd::arithmetic::mul::lemma_mul_is_associative(u, e, f);
    vstd::arithmetic::mul::lemma_mul_is_associative(u, x, g);
    assert((v * g) * x == v * (x * g)) by (nonlinear_arith);
    assert((b * d) * (v * y) == ((b * d) * v) * y) by (nonlinear_arith);
    assert((b * d) * (a * c) == (a * b) * (c * d)) by (nonlinear_arith);
    vstd::arithmetic::mul::lemma_mul_is_associative(a * b, u, y);
}

/// How the result of the roundings relates to the exact one. Each number comes as
/// its mantissa and the two powers of two of its exponent.
proof fn lemma_share_products(
    base: int,
    distance: int,
    length: int,
    b: (int, int, int),
    d: (int, int, int),
    l: (int, int, int),
    q: (int, int, int),
    p: (int, int, int),
)
    requires
        0 < base && 0 < distance && 0 < length,
        b.0 > 0 && d.0 > 0 && l.0 > 0 && q.0 > 0 && p.0 > 0,
        b.1 >= 0 && b.2 >= 0 && d.1 >= 0 && d.2 >= 0 && l.1 >= 0 && l.2 >= 0,
        q.1 >= 0 && q.2 >= 0 && p.1 >= 0 && p.2 >= 0,
        -(base * b.1) <= 0x100_0000 * (b.0 * b.2 - base * b.1) <= base * b.1,
        -(distance * d.1) <= 0x100_0000 * (d.0 * d.2 - distance * d.1) <= distance * d.1,
        -(length * l.1) <= 0x100_0000 * (l.0 * l.2 - length * l.1) <= length * l.1,
        -(d.0 * q.1) <= 0x100_0000 * (q.0 * (l.0 * q.2) - d.0 * q.1) <= d.0 * q.1,
        -((b.0 * q.0) * p.1) <= 0x100_0000 * (p.0 * (1 * p.2) - (b.0 * q.0) * p.1) <= (b.0 * q.0)
            * p.1,
    ensures
        ({
            let up = (((b.2 * d.2) * l.1) * q.2) * p.2;
            let down = (((b.1 * d.1) * l.2) * q.1) * p.1;
            let exact = (base * distance) * down;
            let found = (p.0 * up) * length;
            -exact <= 0x20_0000 * (found - exact) <= exact
        }),
{
    let up = (((b.2 * d.2) * l.1) * q.2) * p.2;
    let down = (((b.1 * d.1) * l.2) * q.1) * p.1;
    let exact = (base * distance) * down;
    let found = (p.0 * up) * length;
    let parts = (q.0 * q.2) * (p.1 * d.2);
    lemma_product_nonnegative(q.0, q.2);
    lemma_product_nonnegative(p.1, d.2);
    lemma_product_nonnegative(q.0 * q.2, p.1 * d.2);
    lemma_product_nonnegative(base, b.1);
    lemma_product_nonnegative(length, l.1);
    // The product is rounded, with everything else multiplied in.
    let rest = ((b.2 * d.2) * (l.1 * q.2)) * length;
    lemma_product_nonnegative(b.2, d.2);
    lemma_product_nonnegative(l.1, q.2);
    lemma_product_nonnegative(b.2 * d.2, l.1 * q.2);
    lemma_product_nonnegative((b.2 * d.2) * (l.1 * q.2), length);
    lemma_near_times(p.0 * (1 * p.2), (b.0 * q.0) * p.1, rest);
    lemma_regroup_found(p.0, p.2, b.2 * d.2, l.1, q.2, length);
    let step1 = ((b.0 * q.0) * p.1) * rest;
    // So is the full height.
    let with_length = (length * l.1) * parts;
    lemma_product_nonnegative(length * l.1, parts);
    lemma_regroup_eight(b.0, q.0, p.1, b.2, d.2, l.1, q.2, length);
    lemma_near_times(b.0 * b.2, base * b.1, with_length);
    let step2 = (base * b.1) * with_length;
    // And the length.
    let with_base = (base * b.1) * parts;
    lemma_product_nonnegative(base * b.1, parts);
    lemma_regroup_three(base * b.1, length * l.1, parts);
    lemma_regroup_three(base * b.1, l.0 * l.2, parts);
    lemma_near_times(l.0 * l.2, length * l.1, with_base);
    let step3 = (l.0 * l.2) * with_base;
    // And the quotient.
    let more = ((base * b.1) * p.1) * (d.2 * l.2);
    lemma_product_nonnegative(base * b.1, p.1);
    lemma_product_nonnegative(d.2, l.2);
    lemma_product_nonnegative((base * b.1) * p.1, d.2 * l.2);
    lemma_regroup_quotient(q.0, l.0, q.2, base * b.1, p.1, d.2, l.2);
    lemma_near_times(q.0 * (l.0 * q.2), d.0 * q.1, more);
    let step4 = (d.0 * q.1) * more;
    // And the distance.
    let others = ((base * b.1) * p.1) * (l.2 * q.1);
    lemma_product_nonnegative(l.2, q.1);
    lemma_product_nonnegative((base * b.1) * p.1, l.2 * q.1);
    lemma_regroup_five(d.0, q.1, (base * b.1) * p.1, d.2, l.2);
    lemma_near_times(d.0 * d.2, distance * d.1, others);
    lemma_regroup_seven(base, distance, b.1, d.1, l.2, q.1, p.1);
    lemma_product_nonnegative(distance, d.1);
    lemma_product_nonnegative(distance * d.1, others);
    lemma_five_roundings(found, step1, step2, step3, step4, exact);
}

proof fn lemma_product_nonnegative(a: int, b: int)
    requires
        0 <= a,
        0 <= b,
    ensures
        0 <= a * b,
{
    assert(0 <= a * b) by (nonlinear_arith)
        requires
            0 <= a,
            0 <= b,
    ;
}

proof fn lemma_regroup_three(a: int, b: int, c: int)
    ensures
        a * (b * c) == b * (a * c),
{
    assert(a * (b * c) == b * (a * c)) by (nonlinear_arith);
}

proof fn lemma_five_roundings(
    found: int,
    step1: int,
    step2: int,
    step3: int,
    step4: int,
    exact: int,
)
    requires
        0 <= exact,
        -step1 <= 0x100_0000 * (found - step1) <= step1,
        -step2 <= 0x100_0000 * (step1 - step2) <= step2,
        -step2 <= 0x100_0000 * (step3 - step2) <= step2,
        -step4 <= 0x100_0000 * (step3 - step4) <= step4,
        -exact <= 0x100_0000 * (step4 - exact) <= exact,
    ensures
        -exact <= 0x20_0000 * (found - exact) <= exact,
{
    assert(-3 * exact <= 0x100_0000 * (step3 - exact) <= 3 * exact);
    assert(-5 * exact <= 0x100_0000 * (step2 - exact) <= 5 * exact);
    assert(-7 * exact <= 0x100_0000 * (step1 - exact) <= 7 * exact);
    assert(-8 * exact <= 0x100_0000 * (found - exact) <= 8 * exact);
}

proof fn lemma_share_bounds(h: int, exact: int, length: int, down: int, found: int)
    requires
        0 <= exact,
        0 < length,
        0 < down,
        h * down <= found < (h + 1) * down,
        -(exact * down) <= 0x20_0000 * (found * length - exact * down) <= exact * down,
    ensures
        0x20_0000 * (h * length - exact) <= exact,
        0x20_0000 * (exact - (h + 1) * length) < exact || exact == 0,
{
    assert((h * length) * down <= found * length) by (nonlinear_arith)
        requires
            h * down <= found,
            length > 0,
    ;
    assert(found * length < ((h + 1) * length) * down) by (nonlinear_arith)
        requires
            found < (h + 1) * down,
            length > 0,
    ;
    let low = 0x20_0000 * (h * length - exact) - exact;
    assert(low * down <= 0) by (nonlinear_arith)
        requires
            low == 0x20_0000 * (h * length - exact) - exact,
            (h * length) * down <= found * length,
            0x20_0000 * (found * length - exact * down) <= exact * down,
    ;
    assert(low <= 0) by (nonlinear_arith)
        requires
            low * down <= 0,
            down > 0,
    ;
    let high = 0x20_0000 * (exact - (h + 1) * length) - exact;
    assert(high * down < 0) by (nonlinear_arith)
        requires
            high == 0x20_0000 * (exact - (h + 1) * length) - exact,
            found * length < ((h + 1) * length) * down,
            -(exact * down) <= 0x20_0000 * (found * length - exact * down),
    ;
    assert(high < 0) by (nonlinear_arith)
        requires
            high * down < 0,
            down > 0,
    ;
}

proof fn lemma_from_int_near(n: int)
    requires
        0 < n <= 0x7fff_ffff,
    ensures
        -128 <= truncated(from_int(n)) - n <= 128,
{
    let s = from_int(n);
    lemma_nearest_is_single(n, 1, 0);
    let (a, b) = lemma_nearest_accuracy(n, 1, 0);
    lemma_truncated_value(s, b, a);
    let p = power2::pow2(a) as int;
    power2::lemma_pow2_pos(a);
    let v = truncated(s);
    let found = s.0 * power2::pow2(b);
    assert(1 * power2::pow2(b) == power2::pow2(b));
    assert(0x100_0000 * (v - n) <= n) by (nonlinear_arith)
        requires
            v * p <= found,
            0x100_0000 * (found - n * p) <= n * p,
            p > 0,
    ;
    assert(0x100_0000 * (n - v - 1) < n) by (nonlinear_arith)
        requires
            found < (v + 1) * p,
            -(n * p) <= 0x100_0000 * (found - n * p),
            p > 0,
    ;
}

proof fn lemma_scaled_root_near(n: int, scale: int)
    requires
        0 < n <= 0x8000_0000,
        scale > 0,
        n * (scale * scale) < 0x1_0000_0000_0000,
    ensures
        ({
            let r = scaled_root(n * (scale * scale), scale);
            &&& 0 <= r
            &&& r * r <= n + 512
            &&& n < (r + 1) * (r + 1) + 512
        }),
    decreases 0x1_0000_0000_0000 - n * (scale * scale),
{
    let a = n * (scale * scale);
    let square = scale * scale;
    assert(a >= square >= 1) by (nonlinear_arith)
        requires
            a == n * square,
            square == scale * scale,
            n >= 1,
            scale >= 1,
    ;
    if a < 0x4000_0000_0000 {
        assert(4 * a == n * ((2 * scale) * (2 * scale))) by (nonlinear_arith)
            requires
                a == n * (scale * scale),
        ;
        lemma_scaled_root_near(n, 2 * scale);
    } else {
        assert(square >= 0x8000) by (nonlinear_arith)
            requires
                a == n * square,
                a >= 0x4000_0000_0000,
                0 < n <= 0x8000_0000,
        ;
        lemma_root_exists(a);
        let t = root(a);
        let m = nearest_root(a);
        assert(t < 0x100_0000) by (nonlinear_arith)
            requires
                t * t <= a,
                a < 0x1_0000_0000_0000,
                t >= 0,
        ;
        assert((t + 1) * (t + 1) == t * t + 2 * t + 1) by (nonlinear_arith);
        assert(m * m <= a + m && a <= m * m + m && 0 <= m <= 0x100_0000);
        let r = m / scale;
        vstd::arithmetic::div_mod::lemma_fundamental_div_mod(m, scale);
        vstd::arithmetic::div_mod::lemma_mod_bound(m, scale);
        vstd::arithmetic::div_mod::lemma_div_pos_is_pos(m, scale);
        assert(r * scale <= m < (r + 1) * scale) by (nonlinear_arith)
            requires
                m == scale * r + m % scale,
                0 <= m % scale < scale,
        ;
        assert((r * r) * square <= m * m) by (nonlinear_arith)
            requires
                0 <= r * scale <= m,
                square == scale * scale,
        ;
        assert(m * m <= ((r + 1) * (r + 1)) * square) by (nonlinear_arith)
            requires
                0 <= m < (r + 1) * scale,
                square == scale * scale,
        ;
        let over = r * r - n;
        assert(over * square <= 0x100_0000) by (nonlinear_arith)
            requires
                over == r * r - n,
                (r * r) * square <= m * m,
                m * m <= a + m,
                m <= 0x100_0000,
                a == n * square,
        ;
        assert(over <= 512) by (nonlinear_arith)
            requires
                over * square <= 0x100_0000,
                square >= 0x8000,
        ;
        let under = n - (r + 1) * (r + 1);
        assert(under * square <= 0x100_0000) by (nonlinear_arith)
            requires
                under == n - (r + 1) * (r + 1),
                m * m <= ((r + 1) * (r + 1)) * square,
                a <= m * m + m,
                m <= 0x100_0000,
                a == n * square,
        ;
        if under >= 512 {
            assert(square == 0x8000 && under == 512) by (nonlinear_arith)
                requires
                    under * square <= 0x100_0000,
                    square >= 0x8000,
                    under >= 512,
            ;
            assert(false) by (nonlinear_arith)
                requires
                    scale * scale == 0x8000,
            ;
        }
    }
}

/// The integer part of the single-precision square root of an integer of at most
/// 31 bits is that of the true square root, but for what single precision loses
/// where the root is nearly an integer.
pub proof fn lemma_sqrt_near(n: int)
    requires
        0 <= n <= 0x7fff_ffff,
    ensures
        0 <= sqrt_truncated(n),
        sqrt_truncated(n) * sqrt_truncated(n) <= n + 1024,
        n < (sqrt_truncated(n) + 1) * (sqrt_truncated(n) + 1) + 1024,
{
    if n < 0x100_0000 {
        lemma_sqrt_exact(n);
    } else {
        lemma_from_int_near(n);
        lemma_from_int_bound(n);
        let m = truncated(from_int(n));
        assert(m * (1 * 1) == m) by (nonlinear_arith);
        lemma_scaled_root_near(m, 1);
    }
}

} // verus!
