//! The scale of the world, and half-widths multiplied by it.
//!
//! A scale is an IEEE 754 double-precision number. It is kept as its bit
//! pattern and the few operations on it are carried out in integers: a product
//! is the number of 53 significant bits nearest to the exact one, and of two
//! equally near ones the one whose last bit is zero.

use crate::binary32;
use vstd::arithmetic::power2;
use vstd::prelude::*;

verus! {

/// The factor by which the world is larger than its usual size.
#[derive(Clone, Copy, Debug, PartialEq, Eq, Structural)]
pub struct Scale {
    /// The bits of the number: sign, eleven bits of exponent, 52 of fraction.
    pub bits: u64,
}

/// The settings that highways depend on.
#[derive(Clone, Copy, Debug, PartialEq, Eq, Structural)]
pub struct Args {
    pub scale: Scale,
}

/// The double-precision number nearest to `(n / d) * 2^e`, as a mantissa of at
/// most 53 bits (or the next power of two) and an exponent, where `n / d` is an
/// integer or has more bits than that.
pub open spec fn rounded(n: int, d: int, e: int) -> (int, int)
    decreases n - d,
{
    if d <= 0 || n < d * 0x20_0000_0000_0000 {
        (binary32::half_even(n, d), e)
    } else {
        rounded(n, 2 * d, e + 1)
    }
}

/// Whether `s` denotes a number that is not an integer.
pub open spec fn has_fraction(s: (int, int)) -> bool {
    s.1 < 0 && s.0 % (power2::pow2((-s.1) as nat) as int) != 0
}

/// The integer that a conversion to 32 bits gives for `v`: the nearest one in
/// range.
pub open spec fn saturated(v: int) -> i32 {
    if v < i32::MIN {
        i32::MIN
    } else if v > i32::MAX {
        i32::MAX
    } else {
        v as i32
    }
}

impl Scale {
    /// Whether the sign bit is set.
    pub open spec fn negative(self) -> bool {
        self.bits >= 0x8000_0000_0000_0000
    }

    /// The exponent bits.
    pub open spec fn exponent_bits(self) -> int {
        (self.bits as int / 0x10_0000_0000_0000) % 2048
    }

    /// The fraction bits.
    pub open spec fn fraction_bits(self) -> int {
        self.bits as int % 0x10_0000_0000_0000
    }

    pub open spec fn is_nan(self) -> bool {
        self.exponent_bits() == 2047 && self.fraction_bits() != 0
    }

    pub open spec fn is_infinite(self) -> bool {
        self.exponent_bits() == 2047 && self.fraction_bits() == 0
    }

    /// The magnitude of a finite number, as a mantissa and an exponent.
    pub open spec fn magnitude(self) -> (int, int) {
        if self.exponent_bits() == 0 {
            (self.fraction_bits(), -1074)
        } else {
            (0x10_0000_0000_0000 + self.fraction_bits(), self.exponent_bits() - 1075)
        }
    }

    /// Whether the number is less than one.
    pub open spec fn below_one(self) -> bool {
        if self.is_nan() {
            false
        } else if self.negative() {
            true
        } else {
            !self.is_infinite() && binary32::truncated(self.magnitude()) == 0
        }
    }

    /// The magnitude of `n` times a finite number.
    pub open spec fn times(self, n: int) -> (int, int) {
        rounded(n * self.magnitude().0, 1, self.magnitude().1)
    }

    /// `n` times the number, without its fraction downwards, in 32 bits.
    pub open spec fn floor_of_product(self, n: int) -> i32 {
        if self.is_nan() {
            0
        } else if self.is_infinite() {
            if self.negative() {
                i32::MIN
            } else {
                i32::MAX
            }
        } else {
            let whole = binary32::truncated(self.times(n));
            if !self.negative() {
                saturated(whole)
            } else if has_fraction(self.times(n)) {
                saturated(-whole - 1)
            } else {
                saturated(-whole)
            }
        }
    }

    /// `n` times the number, rounded up to an integer, in 32 bits.
    pub open spec fn ceiling_of_product(self, n: int) -> i32 {
        if self.is_nan() {
            0
        } else if self.is_infinite() {
            if self.negative() {
                i32::MIN
            } else {
                i32::MAX
            }
        } else {
            let whole = binary32::truncated(self.times(n));
            if self.negative() {
                saturated(-whole)
            } else if has_fraction(self.times(n)) {
                saturated(whole + 1)
            } else {
                saturated(whole)
            }
        }
    }

    /// The scale with the given bit pattern.
    pub fn from_bits(bits: u64) -> (r: Scale)
        ensures
            r.bits == bits,
    {
        Scale { bits }
    }
}

/// The integer part of `q * 2^e`, cut off at `2^32`, and whether `q * 2^e` has
/// a fraction.
fn integer_part(q: u64, e: i32) -> (r: (u64, bool))
    requires
        q <= 0x20_0000_0000_0000,
        -1100 <= e <= 1100,
    ensures
        binary32::truncated((q as int, e as int)) <= 0x1_0000_0000 ==> r.0 == binary32::truncated(
            (q as int, e as int),
        ),
        binary32::truncated((q as int, e as int)) > 0x1_0000_0000 ==> r.0 == 0x1_0000_0000,
        binary32::truncated((q as int, e as int)) >= 0,
        r.1 == has_fraction((q as int, e as int)),
{
    proof {
        power2::lemma2_to64();
        assert(q as int * 1 == q);
        assert(q as int / 1 == q);
        assert(q as int % 1 == 0);
    }
    let mut v: u64 = q;
    let mut inexact: bool = false;
    if e >= 0 {
        let mut i: i32 = 0;
        while i < e && v <= 0x1_0000_0000
            invariant
                0 <= i <= e,
                v <= 0x20_0000_0000_0000,
                v as int == q * power2::pow2(i as nat),
            decreases e - i,
        {
            proof {
                power2::lemma_pow2_unfold((i + 1) as nat);
                let p = power2::pow2(i as nat) as int;
                assert(2 * (q * p) == q * (2 * p)) by (nonlinear_arith);
            }
            v = 2 * v;
            i = i + 1;
        }
        proof {
            let p = power2::pow2(i as nat) as int;
            let t = power2::pow2(e as nat) as int;
            if i < e {
                power2::lemma_pow2_strictly_increases(i as nat, e as nat);
            }
            assert(q * p <= q * t) by (nonlinear_arith)
                requires
                    p <= t,
                    q >= 0,
            ;
        }
    } else {
        let mut i: i32 = 0;
        while i > e
            invariant
                -1100 <= e <= i <= 0,
                v <= 0x20_0000_0000_0000,
                v as int == q as int / power2::pow2((-i) as nat) as int,
                inexact == (q as int % power2::pow2((-i) as nat) as int != 0),
            decreases i - e,
        {
            proof {
                let p = power2::pow2((-i) as nat) as int;
                let t = power2::pow2((1 - i) as nat) as int;
                power2::lemma_pow2_unfold((1 - i) as nat);
                power2::lemma_pow2_pos((-i) as nat);
                vstd::arithmetic::div_mod::lemma_div_denominator(q as int, p, 2);
                vstd::arithmetic::div_mod::lemma_breakdown(q as int, p, 2);
                vstd::arithmetic::div_mod::lemma_mod_bound(q as int, p);
                assert(q as int % t == p * ((q as int / p) % 2) + q as int % p);
                if v % 2 == 1 {
                    assert(p * 1 == p);
                } else {
                    assert(p * 0 == 0);
                }
            }
            if v % 2 == 1 {
                inexact = true;
            }
            v = v / 2;
            i = i - 1;
        }
    }
    if v > 0x1_0000_0000 {
        (0x1_0000_0000, inexact)
    } else {
        (v, inexact)
    }
}

impl Scale {
    fn decode(self) -> (r: (u64, i32))
        ensures
            (r.0 as int, r.1 as int) == self.magnitude(),
            0 <= r.0 < 0x20_0000_0000_0000,
            -1074 <= r.1 <= 972,
    {
        let exponent_bits: u64 = (self.bits / 0x10_0000_0000_0000) % 2048;
        let fraction_bits: u64 = self.bits % 0x10_0000_0000_0000;
        if exponent_bits == 0 {
            (fraction_bits, -1074)
        } else {
            (0x10_0000_0000_0000 + fraction_bits, exponent_bits as i32 - 1075)
        }
    }

    fn is_finite(self) -> (r: bool)
        ensures
            r == (!self.is_nan() && !self.is_infinite()),
    {
        (self.bits / 0x10_0000_0000_0000) % 2048 != 2047
    }

    /// Whether the number is less than one.
    pub fn less_than_one(self) -> (r: bool)
        ensures
            r == self.below_one(),
    {
        if self.is_finite() {
            if self.bits >= 0x8000_0000_0000_0000 {
                return true;
            }
            let (m, e): (u64, i32) = self.decode();
            integer_part(m, e).0 == 0
        } else {
            self.bits % 0x10_0000_0000_0000 == 0 && self.bits >= 0x8000_0000_0000_0000
        }
    }

    /// The integer part and whether there is a fraction, of `n` times the
    /// magnitude of a finite number.
    fn product_parts(self, n: i32) -> (r: (u64, bool))
        requires
            0 <= n <= 12,
        ensures
            ({
                let whole = binary32::truncated(self.times(n as int));
                &&& whole >= 0
                &&& whole <= 0x1_0000_0000 ==> r.0 == whole
                &&& whole > 0x1_0000_0000 ==> r.0 == 0x1_0000_0000
                &&& r.1 == has_fraction(self.times(n as int))
            }),
    {
        let (m, e): (u64, i32) = self.decode();
        assert(0 <= n * m <= 12 * 0x20_0000_0000_0000) by (nonlinear_arith)
            requires
                0 <= n <= 12,
                0 <= m < 0x20_0000_0000_0000,
        ;
        let product: u64 = n as u64 * m;
        let mut d: u64 = 1;
        let mut k: i32 = e;
        while product >= d * 0x20_0000_0000_0000
            invariant
                1 <= d <= 24,
                product <= 12 * 0x20_0000_0000_0000,
                -1074 <= e <= k <= e + 24,
                e <= 972,
                k <= e + d - 1,
                rounded(product as int, d as int, k as int) == rounded(
                    product as int,
                    1,
                    e as int,
                ),
            decreases 32 - d,
        {
            d = 2 * d;
            k = k + 1;
        }
        let q: u64 = product / d;
        let rest: u64 = product % d;
        assert(q < 0x20_0000_0000_0000) by (nonlinear_arith)
            requires
                q == product / d,
                product < d * 0x20_0000_0000_0000,
                d >= 1,
        ;
        let mantissa: u64 = if 2 * rest < d || (2 * rest == d && q % 2 == 0) {
            q
        } else {
            q + 1
        };
        assert(mantissa as int == binary32::half_even(product as int, d as int));
        integer_part(mantissa, k)
    }

    /// `n` times the number, rounded down.
    pub fn floor_times(self, n: i32) -> (r: i32)
        requires
            0 < n <= 12,
        ensures
            r == self.floor_of_product(n as int),
    {
        let negative: bool = self.bits >= 0x8000_0000_0000_0000;
        if !self.is_finite() {
            if self.bits % 0x10_0000_0000_0000 != 0 {
                0
            } else if negative {
                i32::MIN
            } else {
                i32::MAX
            }
        } else {
            let (whole, inexact): (u64, bool) = self.product_parts(n);
            if !negative {
                saturate(whole as i64)
            } else if inexact {
                saturate(-(whole as i64) - 1)
            } else {
                saturate(-(whole as i64))
            }
        }
    }

    /// `n` times the number, rounded up.
    pub fn ceiling_times(self, n: i32) -> (r: i32)
        requires
            0 < n <= 12,
        ensures
            r == self.ceiling_of_product(n as int),
    {
        let negative: bool = self.bits >= 0x8000_0000_0000_0000;
        if !self.is_finite() {
            if self.bits % 0x10_0000_0000_0000 != 0 {
                0
            } else if negative {
                i32::MIN
            } else {
                i32::MAX
            }
        } else {
            let (whole, inexact): (u64, bool) = self.product_parts(n);
            if negative {
                saturate(-(whole as i64))
            } else if inexact {
                saturate(whole as i64 + 1)
            } else {
                saturate(whole as i64)
            }
        }
    }
}

fn saturate(v: i64) -> (r: i32)
    ensures
        r == saturated(v as int),
{
    if v < i32::MIN as i64 {
        i32::MIN
    } else if v > i32::MAX as i64 {
        i32::MAX
    } else {
        v as i32
    }
}

proof fn lemma_rounded_at_most(x: int, n: int, d: int, j: nat, e: int)
    requires
        0 <= n <= 12,
        e < 0,
        j < -e,
        d == power2::pow2(j),
        0 <= x <= n * power2::pow2((-e) as nat),
    ensures
        0 <= binary32::truncated(rounded(x, d, e + j)) <= n,
    decreases x - d,
{
    let p = power2::pow2((-e) as nat) as int;
    let rest = (-e - j) as nat;
    let t = power2::pow2(rest) as int;
    power2::lemma_pow2_pos(j);
    power2::lemma_pow2_pos(rest);
    power2::lemma_pow2_adds(j, rest);
    assert(p == d * t);
    if x < d * 0x20_0000_0000_0000 {
        let top = n * t;
        assert(n * p == d * top) by (nonlinear_arith)
            requires
                p == d * t,
                top == n * t,
        ;
        assert(top >= 0) by (nonlinear_arith)
            requires
                top == n * t,
                n >= 0,
                t >= 0,
        ;
        vstd::arithmetic::div_mod::lemma_fundamental_div_mod_converse(d * top, d, top, 0);
        assert(binary32::half_even(d * top, d) == top);
        assert(x * d <= (d * top) * d) by (nonlinear_arith)
            requires
                x <= d * top,
                d > 0,
        ;
        binary32::lemma_half_even_monotone(x, d, d * top, d);
        let h = binary32::half_even(x, d);
        vstd::arithmetic::div_mod::lemma_div_pos_is_pos(x, d);
        vstd::arithmetic::div_mod::lemma_div_pos_is_pos(h, t);
        vstd::arithmetic::div_mod::lemma_div_is_ordered(h, top, t);
        vstd::arithmetic::div_mod::lemma_div_by_multiple(n, t);
    } else {
        power2::lemma_pow2_unfold(j + 1);
        assert(t > 1) by (nonlinear_arith)
            requires
                d * 0x20_0000_0000_0000 <= x,
                x <= n * p,
                p == d * t,
                n <= 12,
                d > 0,
                t > 0,
        ;
        if rest == 1 {
            power2::lemma2_to64();
            assert(false) by (nonlinear_arith)
                requires
                    d * 0x20_0000_0000_0000 <= x,
                    x <= n * p,
                    p == d * t,
                    t == 2,
                    n <= 12,
                    d > 0,
            ;
        }
        lemma_rounded_at_most(x, n, 2 * d, j + 1, e);
    }
}

/// A scale between zero and one makes nothing wider, and nothing negative.
pub proof fn small_scales_do_not_widen(scale: Scale, n: int)
    requires
        0 <= n <= 12,
        scale.below_one(),
        !scale.negative(),
    ensures
        0 <= scale.floor_of_product(n) <= n,
{
    let m = scale.magnitude().0;
    let e = scale.magnitude().1;
    power2::lemma2_to64();
    if e >= 0 {
        power2::lemma_pow2_pos(e as nat);
        assert(m == 0) by (nonlinear_arith)
            requires
                m * power2::pow2(e as nat) == 0,
                power2::pow2(e as nat) > 0,
        ;
        assert(n * m == 0) by (nonlinear_arith)
            requires
                m == 0,
        ;
        assert(scale.times(n) == (0int, e));
        assert(0 * power2::pow2(e as nat) == 0) by (nonlinear_arith);
    } else {
        let p = power2::pow2((-e) as nat) as int;
        power2::lemma_pow2_pos((-e) as nat);
        vstd::arithmetic::div_mod::lemma_small_div_converse(m, p);
        assert(0 <= n * m <= n * p) by (nonlinear_arith)
            requires
                0 <= n,
                0 <= m < p,
        ;
        lemma_rounded_at_most(n * m, n, 1, 0, e);
    }
}

proof fn lemma_truncated_ordered(a: int, b: int, e: int)
    requires
        0 <= a <= b,
    ensures
        0 <= binary32::truncated((a, e)) <= binary32::truncated((b, e)),
{
    if e >= 0 {
        let p = power2::pow2(e as nat) as int;
        assert(0 <= a * p <= b * p) by (nonlinear_arith)
            requires
                0 <= a <= b,
                p >= 0,
        ;
    } else {
        let p = power2::pow2((-e) as nat) as int;
        power2::lemma_pow2_pos((-e) as nat);
        vstd::arithmetic::div_mod::lemma_div_pos_is_pos(a, p);
        vstd::arithmetic::div_mod::lemma_div_is_ordered(a, b, p);
    }
}

/// `h * 2^(e + j)` is `(h * 2^j) * 2^e`.
proof fn lemma_truncated_shifted(h: int, j: nat, e: int)
    requires
        0 <= h,
    ensures
        binary32::truncated((h, e + j)) == binary32::truncated((h * power2::pow2(j), e)),
{
    let p = power2::pow2(j) as int;
    power2::lemma_pow2_pos(j);
    if e >= 0 {
        let t = power2::pow2(e as nat) as int;
        power2::lemma_pow2_adds(j, e as nat);
        assert(h * (p * t) == (h * p) * t) by (nonlinear_arith);
    } else if e + j >= 0 {
        let up = power2::pow2((e + j) as nat) as int;
        let down = power2::pow2((-e) as nat) as int;
        power2::lemma_pow2_pos((-e) as nat);
        power2::lemma_pow2_adds((e + j) as nat, (-e) as nat);
        assert(h * p == down * (h * up)) by (nonlinear_arith)
            requires
                p == up * down,
        ;
        vstd::arithmetic::div_mod::lemma_div_multiples_vanish(h * up, down);
    } else {
        let rest = power2::pow2((-e - j) as nat) as int;
        power2::lemma_pow2_pos((-e - j) as nat);
        power2::lemma_pow2_adds(j, (-e - j) as nat);
        vstd::arithmetic::div_mod::lemma_div_multiples_vanish_quotient(p, h, rest);
        assert(h * p == p * h) by (nonlinear_arith);
    }
}

/// Rounding drops the least number of bits that leaves 53.
proof fn lemma_rounded_shape(x: int, d: int, j: nat, e: int) -> (k: nat)
    requires
        0 <= x,
        d == power2::pow2(j),
        j == 0 || d * 0x10_0000_0000_0000 <= x,
    ensures
        rounded(x, d, e) == (binary32::half_even(x, power2::pow2(k) as int), e + k - j),
        j <= k,
        x < power2::pow2(k) * 0x20_0000_0000_0000,
        k == 0 || power2::pow2(k) * 0x10_0000_0000_0000 <= x,
    decreases x - d,
{
    power2::lemma_pow2_pos(j);
    if x < d * 0x20_0000_0000_0000 {
        j
    } else {
        power2::lemma_pow2_unfold(j + 1);
        lemma_rounded_shape(x, 2 * d, j + 1, e + 1)
    }
}

proof fn lemma_half_even_of_multiple(q: int, d: int)
    requires
        0 <= q,
        0 < d,
    ensures
        binary32::half_even(q * d, d) == q,
{
    assert(q * d == d * q) by (nonlinear_arith);
    vstd::arithmetic::div_mod::lemma_fundamental_div_mod_converse(q * d, d, q, 0);
}

proof fn lemma_half_even_ordered(x: int, y: int, d: int)
    requires
        0 <= x <= y,
        0 < d,
    ensures
        0 <= binary32::half_even(x, d) <= binary32::half_even(y, d),
{
    assert(x * d <= y * d) by (nonlinear_arith)
        requires
            x <= y,
            0 < d,
    ;
    binary32::lemma_half_even_monotone(x, d, y, d);
    vstd::arithmetic::div_mod::lemma_div_pos_is_pos(x, d);
}

proof fn lemma_rounded_ordered(x: int, y: int, e: int)
    requires
        0 <= x <= y,
    ensures
        0 <= binary32::truncated(rounded(x, 1, e)) <= binary32::truncated(rounded(y, 1, e)),
{
    power2::lemma2_to64();
    let j = lemma_rounded_shape(x, 1, 0, e);
    let k = lemma_rounded_shape(y, 1, 0, e);
    let p = power2::pow2(j) as int;
    let t = power2::pow2(k) as int;
    power2::lemma_pow2_pos(j);
    power2::lemma_pow2_pos(k);
    let a = binary32::half_even(x, p);
    let b = binary32::half_even(y, t);
    lemma_half_even_ordered(0, x, p);
    lemma_half_even_ordered(0, y, t);
    assert(0 <= a * p <= b * t) by {
        if j == k {
            lemma_half_even_ordered(x, y, p);
            assert(0 <= a * p <= b * p) by (nonlinear_arith)
                requires
                    0 <= a <= b,
                    0 < p,
            ;
        } else if j < k {
            power2::lemma_pow2_unfold(k);
            let half = power2::pow2((k - 1) as nat) as int;
            if j < k - 1 {
                power2::lemma_pow2_strictly_increases(j, (k - 1) as nat);
            }
            assert(0x20_0000_0000_0000 * p == p * 0x20_0000_0000_0000);
            lemma_half_even_ordered(x, 0x20_0000_0000_0000 * p, p);
            lemma_half_even_of_multiple(0x20_0000_0000_0000, p);
            lemma_half_even_ordered(0x10_0000_0000_0000 * t, y, t);
            lemma_half_even_of_multiple(0x10_0000_0000_0000, t);
            assert(0 <= a * p <= b * t) by (nonlinear_arith)
                requires
                    0 <= a <= 0x20_0000_0000_0000,
                    0x10_0000_0000_0000 <= b,
                    0 < p <= half,
                    t == 2 * half,
            ;
        } else {
            power2::lemma_pow2_unfold(j);
            if k < j - 1 {
                power2::lemma_pow2_strictly_increases(k, (j - 1) as nat);
            }
        }
    }
    lemma_truncated_shifted(a, j, e);
    lemma_truncated_shifted(b, k, e);
    lemma_truncated_ordered(a * p, b * t, e);
}

proof fn lemma_rounded_exact(q: int, e: int)
    requires
        0 <= q <= 24,
    ensures
        binary32::truncated(rounded(q * 0x10_0000_0000_0000, 1, e)) == binary32::truncated(
            (q * 0x10_0000_0000_0000, e),
        ),
{
    let x = q * 0x10_0000_0000_0000;
    power2::lemma2_to64();
    let j = lemma_rounded_shape(x, 1, 0, e);
    let p = power2::pow2(j) as int;
    power2::lemma_pow2_pos(j);
    if j > 5 {
        power2::lemma_pow2_strictly_increases(5, j);
    }
    assert(j <= 5);
    let rest = power2::pow2((52 - j) as nat) as int;
    power2::lemma_pow2_adds(j, (52 - j) as nat);
    assert(power2::pow2(52) == 0x10_0000_0000_0000) by {
        power2::lemma2_to64_rest();
    }
    assert(x == (q * rest) * p && 0 <= q * rest) by (nonlinear_arith)
        requires
            x == q * 0x10_0000_0000_0000,
            p * rest == 0x10_0000_0000_0000,
            0 <= q,
            0 < p,
    ;
    lemma_half_even_of_multiple(q * rest, p);
    lemma_truncated_shifted(q * rest, j, e);
}

/// The mantissas and exponents of two numbers in order: on the same exponent,
/// or at least a factor of two apart in what they can be.
proof fn lemma_magnitudes_ordered(smaller: Scale, larger: Scale)
    requires
        !smaller.negative(),
        !larger.negative(),
        smaller.bits <= larger.bits,
    ensures
        0 <= smaller.magnitude().0 < 0x20_0000_0000_0000,
        0 <= larger.magnitude().0,
        smaller.magnitude().1 <= larger.magnitude().1,
        smaller.magnitude().1 == larger.magnitude().1 ==> smaller.magnitude().0
            <= larger.magnitude().0,
        smaller.magnitude().1 < larger.magnitude().1 ==> larger.magnitude().0
            >= 0x10_0000_0000_0000,
{
}

proof fn lemma_times_ordered(smaller: Scale, larger: Scale, n: int)
    requires
        0 <= n <= 12,
        !smaller.negative(),
        !larger.negative(),
        smaller.bits <= larger.bits,
    ensures
        0 <= binary32::truncated(smaller.times(n)) <= binary32::truncated(larger.times(n)),
{
    lemma_magnitudes_ordered(smaller, larger);
    let (m1, e1) = smaller.magnitude();
    let (m2, e2) = larger.magnitude();
    assert(0 <= n * m1 <= n * 0x20_0000_0000_0000) by (nonlinear_arith)
        requires
            0 <= m1 < 0x20_0000_0000_0000,
            0 <= n,
    ;
    if e1 == e2 {
        assert(n * m1 <= n * m2) by (nonlinear_arith)
            requires
                m1 <= m2,
                0 <= n,
        ;
        lemma_rounded_ordered(n * m1, n * m2, e1);
    } else {
        let low = n * 0x10_0000_0000_0000;
        let apart = (e2 - e1) as nat;
        let p = power2::pow2(apart) as int;
        power2::lemma2_to64();
        if apart > 1 {
            power2::lemma_pow2_strictly_increases(1, apart);
        }
        assert(low <= n * m2) by (nonlinear_arith)
            requires
                low == n * 0x10_0000_0000_0000,
                0x10_0000_0000_0000 <= m2,
                0 <= n,
        ;
        assert(2 * low <= low * p) by (nonlinear_arith)
            requires
                0 <= low,
                2 <= p,
        ;
        lemma_rounded_ordered(n * m1, 2 * low, e1);
        lemma_rounded_exact(2 * n, e1);
        lemma_truncated_ordered(2 * low, low * p, e1);
        lemma_truncated_shifted(low, apart, e1);
        lemma_rounded_exact(n, e2);
        lemma_rounded_ordered(low, n * m2, e2);
    }
}

proof fn lemma_rounded_mantissa(m: int, e: int)
    requires
        0 <= m < 0x20_0000_0000_0000,
    ensures
        rounded(m, 1, e) == (m, e),
{
    assert(m / 1 == m);
    assert(m % 1 == 0);
}

/// A larger scale never makes a product smaller. The scales are numbers that
/// are not negative; these are in the order of their bit patterns.
pub proof fn larger_scales_do_not_narrow(smaller: Scale, larger: Scale, n: int)
    requires
        0 <= n <= 12,
        !smaller.negative() && !smaller.is_nan(),
        !larger.negative() && !larger.is_nan(),
        smaller.bits <= larger.bits,
    ensures
        smaller.floor_of_product(n) <= larger.floor_of_product(n),
        larger.below_one() ==> smaller.below_one(),
{
    lemma_magnitudes_ordered(smaller, larger);
    if !larger.is_infinite() {
        lemma_times_ordered(smaller, larger, n);
        lemma_times_ordered(smaller, larger, 1);
        let (m1, e1) = smaller.magnitude();
        let (m2, e2) = larger.magnitude();
        assert(1 * m1 == m1 && 1 * m2 == m2);
        lemma_rounded_mantissa(m1, e1);
        lemma_rounded_mantissa(m2, e2);
    }
}

/// `h * 2^(e + j)` has a fraction where `(h * 2^j) * 2^e` has one.
proof fn lemma_fraction_shifted(h: int, j: nat, shift: nat)
    requires
        0 <= h,
    ensures
        has_fraction((h, j - shift)) <==> (h * power2::pow2(j)) % (power2::pow2(shift) as int) != 0,
{
    let p = power2::pow2(j) as int;
    let unit = power2::pow2(shift) as int;
    power2::lemma_pow2_pos(j);
    power2::lemma_pow2_pos(shift);
    if j >= shift {
        let t = power2::pow2((j - shift) as nat) as int;
        power2::lemma_pow2_adds((j - shift) as nat, shift);
        assert(h * p == (h * t) * unit + 0) by (nonlinear_arith)
            requires
                p == t * unit,
        ;
        vstd::arithmetic::div_mod::lemma_fundamental_div_mod_converse(h * p, unit, h * t, 0);
    } else {
        let t = power2::pow2((shift - j) as nat) as int;
        power2::lemma_pow2_pos((shift - j) as nat);
        power2::lemma_pow2_adds((shift - j) as nat, j);
        let q = h / t;
        let r = h % t;
        vstd::arithmetic::div_mod::lemma_fundamental_div_mod(h, t);
        vstd::arithmetic::div_mod::lemma_mod_bound(h, t);
        assert(h * p == q * unit + r * p) by (nonlinear_arith)
            requires
                h == t * q + r,
                unit == t * p,
        ;
        assert(0 <= r * p < unit) by (nonlinear_arith)
            requires
                0 <= r < t,
                unit == t * p,
                p > 0,
        ;
        vstd::arithmetic::div_mod::lemma_fundamental_div_mod_converse(h * p, unit, q, r * p);
        assert(r * p == 0 <==> r == 0) by (nonlinear_arith)
            requires
                p > 0,
        ;
    }
}

/// The exact product, rounded to 53 bits, as a multiple of the unit of the
/// mantissa.
proof fn lemma_times_value(scale: Scale, n: int) -> (v: int)
    requires
        0 <= n <= 12,
        scale.magnitude().1 <= 0,
    ensures
        ({
            let x = n * scale.magnitude().0;
            let unit = power2::pow2((-scale.magnitude().1) as nat) as int;
            let whole = binary32::truncated(scale.times(n));
            &&& 0 <= v
            &&& -x <= 0x20_0000_0000_0000 * (v - x) <= x
            &&& unit > 0
            &&& 0 <= whole
            &&& whole * unit <= v < (whole + 1) * unit
            &&& has_fraction(scale.times(n)) <==> v != whole * unit
        }),
{
    let (m, e) = scale.magnitude();
    let x = n * m;
    let shift = (-e) as nat;
    let unit = power2::pow2(shift) as int;
    power2::lemma2_to64();
    assert(0 <= x) by (nonlinear_arith)
        requires
            x == n * m,
            n >= 0,
            m >= 0,
    ;
    let j = lemma_rounded_shape(x, 1, 0, e);
    let p = power2::pow2(j) as int;
    power2::lemma_pow2_pos(j);
    power2::lemma_pow2_pos(shift);
    let h = binary32::half_even(x, p);
    lemma_half_even_ordered(0, x, p);
    let v = h * p;
    assert(0 <= v) by (nonlinear_arith)
        requires
            v == h * p,
            h >= 0,
            p > 0,
    ;
    binary32::lemma_half_even_error(x, p);
    if j == 0 {
        assert(v == x);
    }
    lemma_truncated_shifted(h, j, e);
    lemma_fraction_shifted(h, j, shift);
    let whole = binary32::truncated(scale.times(n));
    if shift == 0 {
        assert(v * 1 == v);
        assert(v / 1 == v && v % 1 == 0);
        assert(whole * 1 == whole);
    }
    assert(whole == v / unit);
    vstd::arithmetic::div_mod::lemma_fundamental_div_mod(v, unit);
    vstd::arithmetic::div_mod::lemma_mod_bound(v, unit);
    vstd::arithmetic::div_mod::lemma_div_pos_is_pos(v, unit);
    assert(whole * unit == unit * whole) by (nonlinear_arith);
    assert((whole + 1) * unit == unit * whole + unit) by (nonlinear_arith);
    v
}

/// Products with the scale are products with the number that its bits denote, an
/// IEEE 754 double of less than `2^53`: rounded to 53 bits, and then up or down
/// to an integer. The result is the magnitude of the rounded product, in units of
/// the last bit of the scale.
pub proof fn products_follow_the_number(scale: Scale, n: int) -> (v: int)
    requires
        0 <= n <= 12,
        (scale.bits as int / 0x10_0000_0000_0000) % 2048 <= 1075,
    ensures
        ({
            let exponent = (scale.bits as int / 0x10_0000_0000_0000) % 2048;
            let fraction = scale.bits as int % 0x10_0000_0000_0000;
            let mantissa = if exponent == 0 {
                fraction
            } else {
                0x10_0000_0000_0000 + fraction
            };
            let unit = power2::pow2(
                (if exponent == 0 {
                    1074
                } else {
                    1075 - exponent
                }) as nat,
            ) as int;
            let x = n * mantissa;
            let down = scale.floor_of_product(n) as int;
            let up = scale.ceiling_of_product(n) as int;
            &&& 0 <= v && -x <= 0x20_0000_0000_0000 * (v - x) <= x
            &&& scale.bits < 0x8000_0000_0000_0000 ==> {
                &&& down < i32::MAX ==> down * unit <= v < (down + 1) * unit
                &&& down == i32::MAX ==> v >= down * unit
                &&& up < i32::MAX ==> (up - 1) * unit < v <= up * unit
                &&& up == i32::MAX ==> v > (up - 1) * unit
            }
            &&& scale.bits >= 0x8000_0000_0000_0000 ==> {
                &&& down > i32::MIN ==> down * unit <= -v < (down + 1) * unit
                &&& down == i32::MIN ==> -v < (down + 1) * unit
                &&& up > i32::MIN ==> (up - 1) * unit < -v <= up * unit
                &&& up == i32::MIN ==> -v <= up * unit
            }
        }),
{
    let v = lemma_times_value(scale, n);
    let unit = power2::pow2((-scale.magnitude().1) as nat) as int;
    let whole = binary32::truncated(scale.times(n));
    let down = scale.floor_of_product(n) as int;
    let up = scale.ceiling_of_product(n) as int;
    lemma_units(down, unit);
    lemma_units(up, unit);
    lemma_units(whole, unit);
    lemma_units(-whole, unit);
    lemma_units_ordered(i32::MAX as int, whole, unit);
    lemma_units_ordered(i32::MIN as int, -whole, unit);
    lemma_units_ordered(i32::MIN as int, -whole - 1, unit);
    lemma_units_ordered(i32::MAX as int, whole + 1, unit);
    lemma_units(i32::MIN as int, unit);
    lemma_units(i32::MAX as int, unit);
    lemma_units(-whole - 1, unit);
    lemma_units(whole + 1, unit);
    v
}

proof fn lemma_units(a: int, unit: int)
    ensures
        (a + 1) * unit == a * unit + unit,
        (a - 1) * unit == a * unit - unit,
        (-a) * unit == -(a * unit),
{
    assert((a + 1) * unit == a * unit + unit) by (nonlinear_arith);
    assert((a - 1) * unit == a * unit - unit) by (nonlinear_arith);
    assert((-a) * unit == -(a * unit)) by (nonlinear_arith);
}

proof fn lemma_units_ordered(a: int, b: int, unit: int)
    requires
        unit > 0,
    ensures
        a <= b ==> a * unit <= b * unit,
        b <= a ==> b * unit <= a * unit,
{
    assert(a <= b ==> a * unit <= b * unit) by (nonlinear_arith)
        requires
            unit > 0,
    ;
    assert(b <= a ==> b * unit <= a * unit) by (nonlinear_arith)
        requires
            unit > 0,
    ;
}

/// The numbers below one are the negative ones and those with an exponent below
/// that of one. Infinity is not, nor is what is no number.
pub proof fn numbers_below_one(scale: Scale)
    ensures
        ({
            let exponent = (scale.bits as int / 0x10_0000_0000_0000) % 2048;
            let fraction = scale.bits as int % 0x10_0000_0000_0000;
            let negative = scale.bits >= 0x8000_0000_0000_0000;
            &&& exponent == 2047 && fraction != 0 ==> !scale.below_one()
            &&& exponent == 2047 && fraction == 0 ==> (scale.below_one() <==> negative)
            &&& exponent < 2047 ==> (scale.below_one() <==> negative || exponent < 1023)
        }),
{
    let (m, e) = scale.magnitude();
    let exponent = scale.exponent_bits();
    if exponent < 2047 && !scale.negative() {
        if e >= 0 {
            let p = power2::pow2(e as nat) as int;
            power2::lemma_pow2_pos(e as nat);
            assert(m * p > 0) by (nonlinear_arith)
                requires
                    m > 0,
                    p > 0,
            ;
        } else {
            let p = power2::pow2((-e) as nat) as int;
            power2::lemma_pow2_pos((-e) as nat);
            power2::lemma2_to64_rest();
            if -e > 52 {
                if -e > 53 {
                    power2::lemma_pow2_strictly_increases(53, (-e) as nat);
                }
                assert(m < p);
                vstd::arithmetic::div_mod::lemma_basic_div(m, p);
            } else {
                if -e < 52 {
                    power2::lemma_pow2_strictly_increases((-e) as nat, 52);
                }
                assert(p <= m);
                vstd::arithmetic::div_mod::lemma_div_non_zero(m, p);
            }
        }
    }
}

/// Numbers of `2^53` and more make every product the largest integer there is,
/// or the smallest. What is no number gives zero.
pub proof fn huge_products_are_cut_off(scale: Scale, n: int)
    requires
        1 <= n <= 12,
        (scale.bits as int / 0x10_0000_0000_0000) % 2048 > 1075,
    ensures
        ({
            let exponent = (scale.bits as int / 0x10_0000_0000_0000) % 2048;
            let fraction = scale.bits as int % 0x10_0000_0000_0000;
            let cut = if exponent == 2047 && fraction != 0 {
                0i32
            } else if scale.bits < 0x8000_0000_0000_0000 {
                i32::MAX
            } else {
                i32::MIN
            };
            scale.floor_of_product(n) == cut && scale.ceiling_of_product(n) == cut
        }),
{
    if scale.exponent_bits() < 2047 {
        let (m, e) = scale.magnitude();
        let low: int = 0x10_0000_0000_0000;
        power2::lemma2_to64();
        assert(low <= n * m) by (nonlinear_arith)
            requires
                0 <= low <= m,
                1 <= n,
        ;
        lemma_rounded_ordered(low, n * m, e);
        lemma_rounded_exact(1, e);
        power2::lemma_pow2_pos(e as nat);
        let p = power2::pow2(e as nat) as int;
        assert(low * p >= low) by (nonlinear_arith)
            requires
                low >= 0,
                p >= 1,
        ;
        let j = lemma_rounded_shape(n * m, 1, 0, e);
        assert(!has_fraction(scale.times(n)));
    }
}

} // verus!
