use vstd::prelude::*;

use crate::single::{Single, ONE_BITS};

// Single-precision arithmetic after IEEE 754: exact results, rounded to the nearest number, halfway
// cases to the even one.

verus! {

/// The pattern of infinity.
pub const INFINITE_BITS: u32 = 0x7f80_0000;

/// The pattern of every result that is no number.
pub const NO_NUMBER: u32 = 0x7fc0_0000;

/// The number, doubled so many times.
pub open spec fn doubled(n: int, times: nat) -> int
    decreases times,
{
    if times == 0 {
        n
    } else {
        2 * doubled(n, (times - 1) as nat)
    }
}

/// The integer nearest to a quotient; halfway between two integers, the even one.
pub open spec fn nearest(n: int, d: int) -> int {
    let below = n / d;
    let rest = n % d;
    if 2 * rest > d || (2 * rest == d && below % 2 == 1) {
        below + 1
    } else {
        below
    }
}

/// How many bits a number has.
pub open spec fn width(n: int) -> nat
    decreases n,
{
    if n <= 0 {
        0
    } else {
        1 + width(n / 2)
    }
}

/// How often a number has to be doubled until its quotient by `w` has 24 bits.
pub open spec fn shortfall(p: int, w: int) -> nat
    decreases
            if 0 < p < w * 0x80_0000 {
                w * 0x80_0000 - p
            } else {
                0
            },
{
    if 0 < p < w * 0x80_0000 {
        1 + shortfall(2 * p, w)
    } else {
        0
    }
}

/// The larger of two numbers.
pub open spec fn at_least(n: int, low: int) -> int {
    if n < low {
        low
    } else {
        n
    }
}

impl Single {
    /// Whether this is infinity, of either sign.
    pub open spec fn infinite(self) -> bool {
        self.magnitude() == INFINITE_BITS
    }

    /// Whether this is zero, of either sign.
    pub open spec fn zero(self) -> bool {
        self.magnitude() == 0
    }

    /// The integer that is scaled by a power of two to give the absolute value: 24 bits, or fewer
    /// where the power is as low as it gets.
    pub open spec fn significand(self) -> int {
        if self.magnitude() < 0x80_0000 {
            self.magnitude()
        } else {
            self.magnitude() % 0x80_0000 + 0x80_0000
        }
    }

    /// The power of two by which the significand is scaled.
    pub open spec fn exponent(self) -> int {
        if self.magnitude() < 0x80_0000 {
            -149
        } else {
            self.magnitude() / 0x80_0000 - 150
        }
    }

    /// The number as a multiple of two to the power of `e`, which is not above its own exponent.
    pub open spec fn multiple(self, e: int) -> int {
        let n = doubled(self.significand(), (self.exponent() - e) as nat);
        if self.negative() {
            -n
        } else {
            n
        }
    }
}

/// The number with this sign and this pattern apart from the sign.
pub open spec fn signed(negative: bool, magnitude: int) -> Single {
    Single {
        bits: (if negative {
            magnitude + 0x8000_0000
        } else {
            magnitude
        }) as u32,
    }
}

/// The pattern of an exponent and a significand; infinity where there is none.
pub open spec fn pattern(significand: int, exponent: int) -> int {
    let bits = (exponent + 149) * 0x80_0000 + significand;
    if bits < INFINITE_BITS {
        bits
    } else {
        INFINITE_BITS as int
    }
}

/// What is kept of a number when its last `k` bits are rounded away.
pub open spec fn kept(n: int, k: int) -> int {
    if k < 0 {
        doubled(n, (-k) as nat)
    } else {
        nearest(n, doubled(1, k as nat))
    }
}

/// The pattern of the number nearest to `n` times two to the power of `e`.
pub open spec fn rounded(n: int, e: int) -> int {
    let k = at_least(width(n) - 24, -149 - e);
    if n == 0 {
        0
    } else {
        pattern(kept(n, k), e + k)
    }
}

/// The pattern of the number nearest to the quotient of `p` and `w`, times two to the power of
/// `e`; neither is zero, and neither has more than 24 bits.
pub open spec fn rounded_quotient(p: int, w: int, e: int) -> int {
    let s = shortfall(p, w);
    let k = at_least(e - s, -149);
    pattern(nearest(doubled(p, s), w * doubled(1, (k - (e - s)) as nat)), k)
}

/// The sum of two single-precision numbers.
pub open spec fn sum(x: Single, y: Single) -> Single {
    if x.nan() || y.nan() || (x.infinite() && y.infinite() && x.negative() != y.negative()) {
        Single { bits: NO_NUMBER }
    } else if x.infinite() {
        x
    } else if y.infinite() {
        y
    } else {
        let e = if x.exponent() < y.exponent() {
            x.exponent()
        } else {
            y.exponent()
        };
        let n = x.multiple(e) + y.multiple(e);
        if n < 0 {
            signed(true, rounded(-n, e))
        } else {
            signed(n == 0 && x.negative() && y.negative(), rounded(n, e))
        }
    }
}

/// The product of two single-precision numbers.
pub open spec fn product(x: Single, y: Single) -> Single {
    let negative = x.negative() != y.negative();
    if x.nan() || y.nan() || (x.infinite() && y.zero()) || (x.zero() && y.infinite()) {
        Single { bits: NO_NUMBER }
    } else if x.infinite() || y.infinite() {
        signed(negative, INFINITE_BITS as int)
    } else {
        signed(
            negative,
            rounded(x.significand() * y.significand(), x.exponent() + y.exponent()),
        )
    }
}

/// The quotient of two single-precision numbers.
pub open spec fn quotient(x: Single, y: Single) -> Single {
    let negative = x.negative() != y.negative();
    if x.nan() || y.nan() || (x.infinite() && y.infinite()) || (x.zero() && y.zero()) {
        Single { bits: NO_NUMBER }
    } else if x.infinite() || y.zero() {
        signed(negative, INFINITE_BITS as int)
    } else if x.zero() || y.infinite() {
        signed(negative, 0)
    } else {
        signed(
            negative,
            rounded_quotient(x.significand(), y.significand(), x.exponent() - y.exponent()),
        )
    }
}

/// The single-precision number nearest to a count.
pub open spec fn of_count(n: int) -> Single {
    Single { bits: rounded(n, 0) as u32 }
}

/// One count divided by another, in single precision.
pub open spec fn share(part: int, whole: int) -> Single {
    quotient(of_count(part), of_count(whole))
}

proof fn doubled_further(n: int, a: nat, b: nat)
    ensures
        doubled(n, a + b) == doubled(doubled(n, a), b),
    decreases b,
{
    if b > 0 {
        doubled_further(n, a, (b - 1) as nat);
    }
}

proof fn doubled_grows(n: int, a: nat, b: nat)
    requires
        n >= 1,
        a <= b,
    ensures
        1 <= doubled(n, a) <= doubled(n, b),
        n <= doubled(n, b),
    decreases b,
{
    if b == 0 {
    } else if a == b {
        doubled_grows(n, (a - 1) as nat, (b - 1) as nat);
    } else {
        doubled_grows(n, a, (b - 1) as nat);
    }
}

/// Doubling is multiplication by a power of two.
proof fn doubled_product(n: int, k: nat)
    ensures
        doubled(n, k) == n * doubled(1, k),
    decreases k,
{
    if k > 0 {
        doubled_product(n, (k - 1) as nat);
        let d = doubled(1, (k - 1) as nat);
        assert(2 * (n * d) == n * (2 * d)) by (nonlinear_arith);
    } else {
        assert(n * 1 == n) by (nonlinear_arith);
    }
}

proof fn doubled_hundred_times()
    ensures
        doubled(1, 25) == 0x200_0000,
        doubled(1, 50) == 0x4_0000_0000_0000,
        doubled(1, 100) == 0x10_0000_0000_0000_0000_0000_0000,
{
    assert(doubled(1, 25) == 0x200_0000) by {
        reveal_with_fuel(doubled, 26);
    }
    assert(doubled(0x200_0000, 25) == 0x4_0000_0000_0000) by {
        reveal_with_fuel(doubled, 26);
    }
    assert(doubled(0x4_0000_0000_0000, 25) == 0x800_0000_0000_0000_0000) by {
        reveal_with_fuel(doubled, 26);
    }
    assert(doubled(0x800_0000_0000_0000_0000, 25) == 0x10_0000_0000_0000_0000_0000_0000) by {
        reveal_with_fuel(doubled, 26);
    }
    doubled_further(1, 25, 25);
    doubled_further(1, 50, 25);
    doubled_further(1, 75, 25);
}

/// Rounding to nearest misses by half a step at most.
proof fn nearest_misses_little(n: int, d: int)
    requires
        n >= 0,
        d > 0,
    ensures
        0 <= nearest(n, d),
        n / d <= nearest(n, d) <= n / d + 1,
        -d <= 2 * (nearest(n, d) * d - n) <= d,
        2 * (nearest(n, d) * d - n) == d ==> nearest(n, d) % 2 == 0,
        2 * (n - nearest(n, d) * d) == d ==> nearest(n, d) % 2 == 0,
{
    let q = n / d;
    let r = n % d;
    assert(n == q * d + r && 0 <= r < d && q >= 0) by (nonlinear_arith)
        requires
            n >= 0,
            d > 0,
            q == n / d,
            r == n % d,
    ;
    assert((q + 1) * d == q * d + d) by (nonlinear_arith);
}

fn divide_to_nearest(n: u128, d: u128) -> (r: u128)
    requires
        0 < d < 0x1000_0000_0000_0000_0000_0000_0000_0000,
        n < 0x1000_0000_0000_0000_0000_0000_0000_0000,
    ensures
        r == nearest(n as int, d as int),
{
    let below: u128 = n / d;
    let rest: u128 = n % d;
    proof {
        assert(below <= n) by (nonlinear_arith)
            requires
                below == n / d,
                d > 0,
        ;
    }
    if 2 * rest > d || (2 * rest == d && below % 2 == 1) {
        below + 1
    } else {
        below
    }
}

proof fn width_at_most(n: int, k: nat)
    requires
        n < doubled(1, k),
    ensures
        width(n) <= k,
    decreases k,
{
    if n > 0 && k > 0 {
        width_at_most(n / 2, (k - 1) as nat);
    }
}

proof fn width_at_least(n: int, k: nat)
    requires
        n >= doubled(1, k),
    ensures
        width(n) > k,
    decreases k,
{
    doubled_grows(1, 0, k);
    if k > 0 {
        width_at_least(n / 2, (k - 1) as nat);
    }
}

proof fn width_bounds(n: int)
    requires
        n > 0,
    ensures
        width(n) >= 1,
        doubled(1, (width(n) - 1) as nat) <= n < doubled(1, width(n)),
    decreases n,
{
    if n > 1 {
        width_bounds(n / 2);
    } else {
        reveal_with_fuel(width, 2);
        reveal_with_fuel(doubled, 2);
    }
}

fn width_of(n: u128) -> (r: u32)
    requires
        n < 0x10_0000_0000_0000_0000_0000_0000,
    ensures
        r == width(n as int),
        r <= 100,
{
    let mut m: u128 = n;
    let mut w: u32 = 0;
    proof {
        doubled_hundred_times();
        width_at_most(n as int, 100);
    }
    while m > 0
        invariant
            width(n as int) == w + width(m as int),
            width(n as int) <= 100,
        decreases m,
    {
        m = m / 2;
        w = w + 1;
    }
    w
}

fn power_of_two(k: u32) -> (r: u128)
    requires
        k <= 100,
    ensures
        r == doubled(1, k as nat),
        1 <= r,
        r <= 0x10_0000_0000_0000_0000_0000_0000,
{
    let mut r: u128 = 1;
    let mut i: u32 = 0;
    proof {
        doubled_hundred_times();
    }
    while i < k
        invariant
            i <= k <= 100,
            r == doubled(1, i as nat),
            1 <= r <= 0x10_0000_0000_0000_0000_0000_0000,
            doubled(1, 100) == 0x10_0000_0000_0000_0000_0000_0000,
        decreases k - i,
    {
        proof {
            doubled_grows(1, (i + 1) as nat, 100);
        }
        r = r * 2;
        i = i + 1;
    }
    r
}

fn pattern_of(significand: u128, exponent: i32) -> (r: u32)
    requires
        significand <= 0x100_0000,
        -149 <= exponent <= 1_000,
    ensures
        r == pattern(significand as int, exponent as int),
        r <= INFINITE_BITS,
{
    let bits: i64 = (exponent as i64 + 149) * 0x80_0000 + significand as i64;
    if bits < INFINITE_BITS as i64 {
        bits as u32
    } else {
        INFINITE_BITS
    }
}

/// What is kept of a number has 24 bits, or is the next power of two.
proof fn kept_bounds(n: int, k: int)
    requires
        n > 0,
        width(n) <= k + 24,
    ensures
        0 <= kept(n, k) <= 0x100_0000,
        width(n) == k + 24 ==> kept(n, k) >= 0x80_0000,
{
    width_bounds(n);
    assert(doubled(1, 24) == 0x100_0000) by {
        reveal_with_fuel(doubled, 25);
    }
    assert(doubled(1, 23) == 0x80_0000) by {
        reveal_with_fuel(doubled, 24);
    }
    let w = width(n);
    if k < 0 {
        let j = (-k) as nat;
        let d = doubled(1, j);
        doubled_product(n, j);
        doubled_product(doubled(1, w), j);
        doubled_product(doubled(1, (w - 1) as nat), j);
        doubled_further(1, w, j);
        doubled_further(1, (w - 1) as nat, j);
        doubled_grows(1, w + j, 24);
        doubled_grows(1, 0, j);
        let top = doubled(1, w);
        let bottom = doubled(1, (w - 1) as nat);
        assert(bottom * d <= n * d < top * d && 0 <= n * d) by (nonlinear_arith)
            requires
                0 < bottom <= n < top,
                d >= 1,
        ;
    } else {
        let d = doubled(1, k as nat);
        doubled_grows(1, 0, k as nat);
        doubled_further(1, 24, k as nat);
        doubled_further(1, 23, k as nat);
        doubled_product(0x100_0000, k as nat);
        doubled_product(0x80_0000, k as nat);
        doubled_grows(1, w, (k + 24) as nat);
        nearest_misses_little(n, d);
        assert(n / d < 0x100_0000) by (nonlinear_arith)
            requires
                n < 0x100_0000 * d,
                d >= 1,
        ;
        if w == k + 24 {
            assert(n / d >= 0x80_0000) by (nonlinear_arith)
                requires
                    n >= 0x80_0000 * d,
                    d >= 1,
            ;
        }
    }
}

fn round(n: u128, e: i32) -> (r: u32)
    requires
        n < 0x10_0000_0000_0000_0000_0000_0000,
        -500 <= e <= 500,
    ensures
        r == rounded(n as int, e as int),
        r <= INFINITE_BITS,
{
    if n == 0 {
        return 0;
    }
    let excess: i32 = width_of(n) as i32 - 24;
    let low: i32 = -149 - e;
    let k: i32 = if excess < low {
        low
    } else {
        excess
    };
    proof {
        kept_bounds(n as int, k as int);
    }
    let m: u128 = if k < 0 {
        proof {
            doubled_product(n as int, (-k) as nat);
        }
        n * power_of_two((-k) as u32)
    } else if k > 100 {
        proof {
            doubled_hundred_times();
            doubled_grows(1, 100, (k - 1) as nat);
            let d = doubled(1, k as nat);
            assert(n as int / d == 0 && n as int % d == n as int) by (nonlinear_arith)
                requires
                    0 <= n < d,
            ;
        }
        0
    } else {
        divide_to_nearest(n, power_of_two(k as u32))
    };
    pattern_of(m, e + k)
}

fn with_sign(negative: bool, magnitude: u32) -> (r: Single)
    requires
        magnitude < 0x8000_0000,
    ensures
        r == signed(negative, magnitude as int),
        r.negative() == negative,
        r.magnitude() == magnitude,
{
    if negative {
        Single { bits: magnitude + 0x8000_0000 }
    } else {
        Single { bits: magnitude }
    }
}

/// The pattern is made of the significand and the exponent.
proof fn parts_make_the_pattern(x: Single)
    requires
        x.magnitude() < INFINITE_BITS,
    ensures
        x.magnitude() == pattern(x.significand(), x.exponent()),
        0 <= x.significand() < 0x100_0000,
        -149 <= x.exponent() <= 104,
        x.exponent() > -149 ==> x.significand() >= 0x80_0000,
        x.significand() == 0 <==> x.zero(),
{
}

impl Single {
    fn is_negative(self) -> (r: bool)
        ensures
            r == self.negative(),
    {
        self.bits >= 0x8000_0000
    }

    fn without_sign(self) -> (r: u32)
        ensures
            r == self.magnitude(),
            r < 0x8000_0000,
    {
        if self.bits >= 0x8000_0000 {
            self.bits - 0x8000_0000
        } else {
            self.bits
        }
    }

    fn split(self) -> (r: (u128, i32))
        requires
            self.magnitude() < INFINITE_BITS,
        ensures
            r.0 == self.significand(),
            r.1 == self.exponent(),
            r.0 < 0x100_0000,
            -149 <= r.1 <= 104,
    {
        let m: u32 = self.without_sign();
        if m < 0x80_0000 {
            (m as u128, -149)
        } else {
            ((m % 0x80_0000 + 0x80_0000) as u128, (m / 0x80_0000) as i32 - 150)
        }
    }

}

/// A number that is very small beside another is lost in their sum.
proof fn distant_sum(x: Single, y: Single)
    requires
        x.magnitude() < INFINITE_BITS,
        y.magnitude() < INFINITE_BITS,
        x.exponent() > y.exponent() + 60,
    ensures
        sum(x, y) == x,
        sum(y, x) == x,
{
    parts_make_the_pattern(x);
    parts_make_the_pattern(y);
    let g = y.exponent();
    let gap = (x.exponent() - g) as nat;
    let a = x.significand();
    let b = y.significand();
    let half = doubled(1, (gap - 1) as nat);
    let d = doubled(1, gap);
    assert(d == 2 * half);
    doubled_product(a, gap);
    doubled_hundred_times();
    doubled_grows(1, 50, (gap - 1) as nat);
    assert(doubled(b, 0) == b);
    assert(doubled(1, 24) == 0x100_0000) by {
        reveal_with_fuel(doubled, 25);
    }
    assert(doubled(1, 23) == 0x80_0000) by {
        reveal_with_fuel(doubled, 24);
    }
    assert(doubled(1, 22) == 0x40_0000) by {
        reveal_with_fuel(doubled, 23);
    }
    doubled_further(1, 24, gap);
    doubled_further(1, 23, gap);
    doubled_further(1, 22, gap);
    doubled_product(0x100_0000, gap);
    doubled_product(0x80_0000, gap);
    doubled_product(0x40_0000, gap);
    let n = if x.negative() == y.negative() {
        a * d + b
    } else {
        a * d - b
    };
    assert(a * d > b) by (nonlinear_arith)
        requires
            a >= 1,
            d > b,
            b >= 0,
    ;
    if a * d <= n || a > 0x80_0000 {
        assert(0x80_0000 * d <= n < 0x100_0000 * d) by (nonlinear_arith)
            requires
                0x80_0000 <= a < 0x100_0000,
                a * d - b <= n <= a * d + b,
                a * d <= n || a > 0x80_0000,
                0 <= b < d,
        ;
        width_at_most(n, gap + 24);
        width_at_least(n, gap + 23);
        if n >= a * d {
            assert(n / d == a && n % d == n - a * d) by (nonlinear_arith)
                requires
                    a * d <= n < a * d + d,
                    d > 0,
            ;
        } else {
            assert(n / d == a - 1 && n % d == n - (a - 1) * d) by (nonlinear_arith)
                requires
                    a * d - d <= n < a * d,
                    d > 0,
            ;
            assert((a - 1) * d == a * d - d) by (nonlinear_arith);
        }
        assert(kept(n, gap as int) == a);
        assert(rounded(n, g) == x.magnitude());
    } else {
        assert(a * d == 0x80_0000 * d) by (nonlinear_arith)
            requires
                a == 0x80_0000,
        ;
        width_at_most(n, gap + 23);
        width_at_least(n, gap + 22);
        assert(n / half == 0xff_ffff && n % half == n - 0xff_ffff * half) by (nonlinear_arith)
            requires
                0x100_0000 * half - half <= n < 0x100_0000 * half,
                half > 0,
        ;
        assert(kept(n, gap - 1) == 0x100_0000);
        assert(rounded(n, g) == x.magnitude());
    }
}

fn sum_of_finite(x: Single, y: Single) -> (r: Single)
    requires
        x.magnitude() < INFINITE_BITS,
        y.magnitude() < INFINITE_BITS,
        x.exponent() >= y.exponent(),
    ensures
        r == sum(x, y),
        r == sum(y, x),
{
    let (a, f) = x.split();
    let (b, g) = y.split();
    let gap: u32 = (f - g) as u32;
    if gap > 60 {
        proof {
            distant_sum(x, y);
        }
        return x;
    }
    let unit: u128 = power_of_two(gap);
    proof {
        doubled_product(a as int, gap as nat);
        assert(doubled(b as int, 0) == b);
        doubled_grows(1, gap as nat, 75);
        assert(doubled(0x4_0000_0000_0000, 25) == 0x800_0000_0000_0000_0000) by {
            reveal_with_fuel(doubled, 26);
        }
        doubled_hundred_times();
        doubled_further(1, 50, 25);
        assert(a * unit <= 0x100_0000 * 0x800_0000_0000_0000_0000) by (nonlinear_arith)
            requires
                0 <= a <= 0x100_0000,
                0 <= unit <= 0x800_0000_0000_0000_0000,
        ;
    }
    let left: i128 = if x.is_negative() {
        -((a * unit) as i128)
    } else {
        (a * unit) as i128
    };
    let right: i128 = if y.is_negative() {
        -(b as i128)
    } else {
        b as i128
    };
    let n: i128 = left + right;
    if n < 0 {
        with_sign(true, round((-n) as u128, g))
    } else {
        with_sign(n == 0 && x.is_negative() && y.is_negative(), round(n as u128, g))
    }
}

/// Doubled so often, a number has a quotient with 24 bits.
proof fn shortfall_bounds(p: int, w: int)
    requires
        0 < p < 2 * (w * 0x80_0000),
    ensures
        w * 0x80_0000 <= doubled(p, shortfall(p, w)) < 2 * (w * 0x80_0000),
    decreases
            if p < w * 0x80_0000 {
                w * 0x80_0000 - p
            } else {
                0
            },
{
    if p < w * 0x80_0000 {
        shortfall_bounds(2 * p, w);
        assert(doubled(p, 1) == 2 * p) by {
            reveal_with_fuel(doubled, 2);
        }
        doubled_further(p, 1, shortfall(2 * p, w));
    }
}

/// The significand of a quotient has 24 bits, or is the next power of two; fewer bits where some
/// are rounded away.
proof fn quotient_bounds(p: int, w: int, extra: nat)
    requires
        0 < p < 0x100_0000,
        0 < w < 0x100_0000,
    ensures
        shortfall(p, w) < 50,
        doubled(p, shortfall(p, w)) < 0x1_0000_0000_0000,
        0 <= nearest(doubled(p, shortfall(p, w)), w * doubled(1, extra)) <= 0x100_0000,
        extra == 0 ==> nearest(doubled(p, shortfall(p, w)), w * doubled(1, extra)) >= 0x80_0000,
        w <= w * doubled(1, extra),
{
    let s = shortfall(p, w);
    let n = doubled(p, s);
    shortfall_bounds(p, w);
    doubled_product(p, s);
    doubled_grows(1, 0, s);
    doubled_grows(1, 0, extra);
    doubled_hundred_times();
    let d = doubled(1, s);
    assert(d <= n) by (nonlinear_arith)
        requires
            n == p * d,
            p >= 1,
            d >= 1,
    ;
    if s >= 50 {
        doubled_grows(1, 50, s);
    }
    let unit = doubled(1, extra);
    let whole = w * unit;
    assert(w <= whole) by (nonlinear_arith)
        requires
            whole == w * unit,
            unit >= 1,
            w > 0,
    ;
    nearest_misses_little(n, whole);
    assert(n / whole < 0x100_0000) by (nonlinear_arith)
        requires
            0 <= n < 2 * (w * 0x80_0000),
            0 < w <= whole,
    ;
    if extra == 0 {
        assert(whole == w) by (nonlinear_arith)
            requires
                whole == w * unit,
                unit == 1,
        ;
        assert(0x80_0000 <= n / whole) by (nonlinear_arith)
            requires
                w * 0x80_0000 <= n,
                whole == w,
                w > 0,
        ;
    }
}

fn divide(p: u128, w: u128, e: i32) -> (r: u32)
    requires
        0 < p < 0x100_0000,
        0 < w < 0x100_0000,
        -300 <= e <= 300,
    ensures
        r == rounded_quotient(p as int, w as int, e as int),
        r <= INFINITE_BITS,
{
    let goal: u128 = w * 0x80_0000;
    let mut n: u128 = p;
    let mut s: i32 = 0;
    proof {
        quotient_bounds(p as int, w as int, 0);
    }
    while n < goal
        invariant
            0 < w < 0x100_0000,
            goal == w * 0x80_0000,
            n == doubled(p as int, s as nat),
            0 < n < 2 * goal,
            0 <= s,
            shortfall(p as int, w as int) == s + shortfall(n as int, w as int),
            shortfall(p as int, w as int) < 50,
        decreases 2 * goal - n,
    {
        n = n * 2;
        s = s + 1;
    }
    let exact: i32 = e - s;
    let k: i32 = if exact < -149 {
        -149
    } else {
        exact
    };
    let extra: u32 = (k - exact) as u32;
    proof {
        quotient_bounds(p as int, w as int, extra as nat);
        doubled_hundred_times();
    }
    let m: u128 = if extra > 60 {
        proof {
            doubled_grows(1, 50, extra as nat);
            let unit = doubled(1, extra as nat);
            let whole = w * unit;
            assert(whole >= unit) by (nonlinear_arith)
                requires
                    whole == w * unit,
                    w >= 1,
                    unit >= 1,
            ;
            assert(n as int / whole == 0 && n as int % whole == n as int) by (nonlinear_arith)
                requires
                    0 <= n < whole,
            ;
        }
        0
    } else {
        let unit: u128 = power_of_two(extra);
        assert(w * unit < 0x1000_0000_0000_0000_0000_0000_0000_0000) by (nonlinear_arith)
            requires
                0 < w < 0x100_0000,
                0 < unit <= 0x10_0000_0000_0000_0000_0000_0000,
        ;
        divide_to_nearest(n, w * unit)
    };
    pattern_of(m, k)
}

impl Single {
    /// The sum of two numbers.
    pub fn plus(self, other: Single) -> (r: Single)
        ensures
            r == sum(self, other),
    {
        let a: u32 = self.without_sign();
        let b: u32 = other.without_sign();
        if a > INFINITE_BITS || b > INFINITE_BITS || (a == INFINITE_BITS && b == INFINITE_BITS
            && self.is_negative() != other.is_negative()) {
            Single { bits: NO_NUMBER }
        } else if a == INFINITE_BITS {
            self
        } else if b == INFINITE_BITS {
            other
        } else {
            let (_, f) = self.split();
            let (_, g) = other.split();
            if f >= g {
                sum_of_finite(self, other)
            } else {
                sum_of_finite(other, self)
            }
        }
    }

    /// The product of two numbers.
    pub fn times(self, other: Single) -> (r: Single)
        ensures
            r == product(self, other),
    {
        let a: u32 = self.without_sign();
        let b: u32 = other.without_sign();
        let negative = self.is_negative() != other.is_negative();
        if a > INFINITE_BITS || b > INFINITE_BITS || (a == INFINITE_BITS && b == 0) || (a == 0 && b
            == INFINITE_BITS) {
            Single { bits: NO_NUMBER }
        } else if a == INFINITE_BITS || b == INFINITE_BITS {
            with_sign(negative, INFINITE_BITS)
        } else {
            let (p, f) = self.split();
            let (q, g) = other.split();
            assert(0 <= p * q < 0x1_0000_0000_0000) by (nonlinear_arith)
                requires
                    0 <= p < 0x100_0000,
                    0 <= q < 0x100_0000,
            ;
            with_sign(negative, round(p * q, f + g))
        }
    }

    /// The quotient of two numbers.
    pub fn over(self, other: Single) -> (r: Single)
        ensures
            r == quotient(self, other),
    {
        let a: u32 = self.without_sign();
        let b: u32 = other.without_sign();
        let negative = self.is_negative() != other.is_negative();
        if a > INFINITE_BITS || b > INFINITE_BITS || (a == INFINITE_BITS && b == INFINITE_BITS)
            || (a == 0 && b == 0) {
            Single { bits: NO_NUMBER }
        } else if a == INFINITE_BITS || b == 0 {
            with_sign(negative, INFINITE_BITS)
        } else if a == 0 || b == INFINITE_BITS {
            with_sign(negative, 0)
        } else {
            proof {
                parts_make_the_pattern(self);
                parts_make_the_pattern(other);
            }
            let (p, f) = self.split();
            let (q, g) = other.split();
            with_sign(negative, divide(p, q, f - g))
        }
    }

    /// The number nearest to a count.
    pub fn from_count(n: u128) -> (r: Single)
        requires
            n < 0x10_0000_0000_0000_0000_0000_0000,
        ensures
            r == of_count(n as int),
    {
        Single { bits: round(n, 0) }
    }
}

/// A quotient is rounded alike, whatever it is expanded by.
proof fn nearest_expands(n: int, d: int, c: int)
    requires
        n >= 0,
        d > 0,
        c > 0,
    ensures
        nearest(n * c, d * c) == nearest(n, d),
{
    let q = n / d;
    let r = n % d;
    assert(n == q * d + r && 0 <= r < d) by (nonlinear_arith)
        requires
            n >= 0,
            d > 0,
            q == n / d,
            r == n % d,
    ;
    assert(n * c == q * (d * c) + r * c && 0 <= r * c < d * c) by (nonlinear_arith)
        requires
            n == q * d + r,
            0 <= r < d,
            c > 0,
    ;
    let big = n * c;
    let unit = d * c;
    let rest = r * c;
    assert(big / unit == q && big % unit == rest) by (nonlinear_arith)
        requires
            big == q * unit + rest,
            0 <= rest < unit,
    ;
    assert(2 * rest > unit <==> 2 * r > d) by (nonlinear_arith)
        requires
            rest == r * c,
            unit == d * c,
            c > 0,
    ;
    assert(2 * rest == unit <==> 2 * r == d) by (nonlinear_arith)
        requires
            rest == r * c,
            unit == d * c,
            c > 0,
    ;
}

/// Rounding keeps the order of numbers.
proof fn nearest_grows(a: int, b: int, d: int)
    requires
        0 <= a <= b,
        d > 0,
    ensures
        nearest(a, d) <= nearest(b, d),
{
    nearest_misses_little(a, d);
    nearest_misses_little(b, d);
    assert(a / d <= b / d) by (nonlinear_arith)
        requires
            0 <= a <= b,
            d > 0,
    ;
    if a / d == b / d {
        assert(a % d <= b % d) by (nonlinear_arith)
            requires
                a / d == b / d,
                a <= b,
                d > 0,
        ;
    }
}

/// Rounding keeps the order of quotients.
proof fn nearest_quotients(a: int, c: int, b: int, d: int)
    requires
        0 <= a,
        0 <= b,
        c > 0,
        d > 0,
        a * d <= b * c,
    ensures
        nearest(a, c) <= nearest(b, d),
{
    nearest_expands(a, c, d);
    nearest_expands(b, d, c);
    assert(0 <= a * d && d * c == c * d && c * d > 0) by (nonlinear_arith)
        requires
            a >= 0,
            c > 0,
            d > 0,
    ;
    nearest_grows(a * d, b * c, c * d);
}

proof fn doubled_keeps_order(a: int, b: int, k: nat)
    requires
        a <= b,
    ensures
        doubled(a, k) <= doubled(b, k),
    decreases k,
{
    if k > 0 {
        doubled_keeps_order(a, b, (k - 1) as nat);
    }
}

proof fn width_grows(a: int, b: int)
    requires
        a <= b,
    ensures
        width(a) <= width(b),
    decreases b,
{
    if a > 0 {
        width_grows(a / 2, b / 2);
    }
}

/// Rounding to a single-precision number keeps the order of numbers.
proof fn rounded_grows(a: int, b: int, e: int)
    requires
        0 <= a <= b,
    ensures
        0 <= rounded(a, e) <= rounded(b, e) <= INFINITE_BITS,
{
    width_grows(a, b);
    let j = at_least(width(a) - 24, -149 - e);
    let k = at_least(width(b) - 24, -149 - e);
    if b > 0 {
        kept_bounds(b, k);
    }
    if a > 0 {
        kept_bounds(a, j);
        if j == k {
            if k < 0 {
                doubled_keeps_order(a, b, (-k) as nat);
            } else {
                doubled_grows(1, 0, k as nat);
                nearest_grows(a, b, doubled(1, k as nat));
            }
        }
    }
}

/// Doubling a number and lowering the power of two changes nothing.
proof fn rounded_shifts(n: int, e: int, j: nat)
    requires
        n >= 0,
    ensures
        rounded(doubled(n, j), e - j) == rounded(n, e),
    decreases j,
{
    if j > 0 {
        rounded_shifts(n, e, (j - 1) as nat);
        let m = doubled(n, (j - 1) as nat);
        doubled_keeps_order(0, n, (j - 1) as nat);
        doubled_of_zero((j - 1) as nat);
        rounded_shifts_once(m, e - (j - 1));
    }
}

proof fn doubled_of_zero(k: nat)
    ensures
        doubled(0, k) == 0,
    decreases k,
{
    if k > 0 {
        doubled_of_zero((k - 1) as nat);
    }
}

proof fn rounded_shifts_once(n: int, e: int)
    requires
        n >= 0,
    ensures
        rounded(2 * n, e - 1) == rounded(n, e),
{
    if n > 0 {
        assert((2 * n) / 2 == n);
        assert(width(2 * n) == width(n) + 1);
        let k = at_least(width(n) - 24, -149 - e);
        if k + 1 < 0 {
            doubled_further(n, 1, (-k - 1) as nat);
            assert(doubled(n, 1) == 2 * n) by {
                reveal_with_fuel(doubled, 2);
            }
        } else if k < 0 {
            assert(doubled(n, 1) == 2 * n) by {
                reveal_with_fuel(doubled, 2);
            }
            assert(doubled(1, 0) == 1);
            assert(nearest(2 * n, 1) == 2 * n);
        } else {
            let d = doubled(1, k as nat);
            doubled_grows(1, 0, k as nat);
            nearest_expands(n, d, 2);
        }
    }
}

/// Rounding to a single-precision number keeps the order of quotients.
proof fn rounded_quotients(p: int, w: int, e: int, q: int, v: int, f: int, low: int)
    requires
        0 < p < 0x100_0000,
        0 < w < 0x100_0000,
        0 < q < 0x100_0000,
        0 < v < 0x100_0000,
        low <= e,
        low <= f,
        doubled(p, (e - low) as nat) * v <= doubled(q, (f - low) as nat) * w,
    ensures
        0 <= rounded_quotient(p, w, e) <= rounded_quotient(q, v, f) <= INFINITE_BITS,
{
    let s = shortfall(p, w);
    let t = shortfall(q, v);
    let n = doubled(p, s);
    let m = doubled(q, t);
    let g = e - s;
    let h = f - t;
    let j = at_least(g, -149);
    let k = at_least(h, -149);
    let x = (j - g) as nat;
    let y = (k - h) as nat;
    shortfall_bounds(p, w);
    shortfall_bounds(q, v);
    quotient_bounds(p, w, x);
    quotient_bounds(q, v, y);
    let base = if g < h {
        if g < low {
            g
        } else {
            low
        }
    } else {
        if h < low {
            h
        } else {
            low
        }
    };
    let a = (g - base) as nat;
    let b = (h - base) as nat;
    let c = (low - base) as nat;
    doubled_further(p, s, a);
    doubled_further(q, t, b);
    doubled_further(p, (e - low) as nat, c);
    doubled_further(q, (f - low) as nat, c);
    assert(s + a == (e - low) as nat + c);
    assert(t + b == (f - low) as nat + c);
    let left = doubled(p, (e - low) as nat);
    let right = doubled(q, (f - low) as nat);
    doubled_product(left, c);
    doubled_product(right, c);
    doubled_product(n, a);
    doubled_product(m, b);
    doubled_grows(1, 0, a);
    doubled_grows(1, 0, b);
    doubled_grows(1, 0, c);
    let da = doubled(1, a);
    let db = doubled(1, b);
    let dc = doubled(1, c);
    assert((n * da) * v <= (m * db) * w) by (nonlinear_arith)
        requires
            n * da == left * dc,
            m * db == right * dc,
            left * v <= right * w,
            dc >= 1,
    ;
    if g > h {
        doubled_further(1, b, (g - h) as nat);
        doubled_product(db, (g - h) as nat);
        let dd = doubled(1, (g - h) as nat);
        doubled_grows(1, 1, (g - h) as nat);
        assert(doubled(1, 1) == 2) by {
            reveal_with_fuel(doubled, 2);
        }
        assert(false) by (nonlinear_arith)
            requires
                (n * da) * v <= (m * db) * w,
                da == db * dd,
                dd >= 2,
                db >= 1,
                n >= w * 0x80_0000,
                m < 2 * (v * 0x80_0000),
                w > 0,
                v > 0,
        ;
    }
    doubled_further(1, a, (h - g) as nat);
    doubled_product(da, (h - g) as nat);
    let dd = doubled(1, (h - g) as nat);
    doubled_grows(1, 0, (h - g) as nat);
    assert(n * v <= (m * dd) * w) by (nonlinear_arith)
        requires
            (n * da) * v <= (m * db) * w,
            db == da * dd,
            da >= 1,
    ;
    if j == k {
        doubled_further(1, y, (h - g) as nat);
        assert(y + (h - g) as nat == x);
        let dy = doubled(1, y);
        let dx = doubled(1, x);
        doubled_product(dy, (h - g) as nat);
        doubled_grows(1, 0, y);
        let wide = w * dx;
        let long = v * dy;
        assert(n * long <= m * wide) by (nonlinear_arith)
            requires
                n * v <= (m * dd) * w,
                long == v * dy,
                wide == w * dx,
                dx == dy * dd,
                dy >= 1,
        ;
        nearest_quotients(n, wide, m, long);
    }
}

impl Single {
    /// Whether this is a number that is not negative.
    pub open spec fn nonnegative(self) -> bool {
        !self.nan() && self.order() >= 0
    }
}

/// A number that is not larger is no larger multiple of a power of two.
proof fn multiples_keep_order(x: Single, y: Single, e: int)
    requires
        x.nonnegative(),
        y.nonnegative(),
        x.order() <= y.order(),
        !y.infinite(),
        e <= x.exponent(),
    ensures
        x.exponent() <= y.exponent(),
        0 <= x.multiple(e) <= y.multiple(e),
        doubled(x.significand(), (x.exponent() - e) as nat) == x.multiple(e),
        doubled(y.significand(), (y.exponent() - e) as nat) == y.multiple(e),
{
    parts_make_the_pattern(x);
    parts_make_the_pattern(y);
    let j = (x.exponent() - e) as nat;
    let k = (y.exponent() - e) as nat;
    doubled_of_zero(j);
    doubled_of_zero(k);
    doubled_keeps_order(0, x.significand(), j);
    doubled_keeps_order(0, y.significand(), k);
    if j == k {
        doubled_keeps_order(x.significand(), y.significand(), j);
    } else {
        doubled_keeps_order(x.significand(), 0x100_0000, j);
        doubled_keeps_order(0x80_0000, y.significand(), k);
        doubled_further(0x80_0000, 1, j);
        assert(doubled(0x80_0000, 1) == 0x100_0000) by {
            reveal_with_fuel(doubled, 2);
        }
        doubled_grows(0x80_0000, j + 1, k);
    }
}

/// Of numbers that are not negative: a larger number gives no smaller sum.
pub proof fn sum_grows(x: Single, y: Single, z: Single)
    requires
        x.nonnegative(),
        y.nonnegative(),
        z.nonnegative(),
        x.order() <= y.order(),
    ensures
        sum(x, z).nonnegative(),
        sum(y, z).nonnegative(),
        sum(x, z).order() <= sum(y, z).order(),
        sum(z, x) == sum(x, z),
{
    if !y.infinite() && !z.infinite() {
        parts_make_the_pattern(x);
        parts_make_the_pattern(y);
        parts_make_the_pattern(z);
        let low = if x.exponent() < z.exponent() {
            x.exponent()
        } else {
            z.exponent()
        };
        multiples_keep_order(x, y, low);
        let high = if y.exponent() < z.exponent() {
            y.exponent()
        } else {
            z.exponent()
        };
        multiples_keep_order(y, y, high);
        multiples_keep_order(z, z, low);
        multiples_keep_order(z, z, high);
        let j = (high - low) as nat;
        doubled_further(y.significand(), (y.exponent() - high) as nat, j);
        doubled_further(z.significand(), (z.exponent() - high) as nat, j);
        assert((y.exponent() - high) as nat + j == (y.exponent() - low) as nat);
        assert((z.exponent() - high) as nat + j == (z.exponent() - low) as nat);
        let n = y.multiple(high) + z.multiple(high);
        doubled_product(y.multiple(high), j);
        doubled_product(z.multiple(high), j);
        doubled_product(n, j);
        let a = y.multiple(high);
        let b = z.multiple(high);
        let d = doubled(1, j);
        assert(n * d == a * d + b * d) by (nonlinear_arith)
            requires
                n == a + b,
        ;
        rounded_shifts(n, high, j);
        rounded_grows(x.multiple(low) + z.multiple(low), doubled(n, j), low);
    } else if !x.infinite() && !z.infinite() {
        parts_make_the_pattern(x);
        let low = if x.exponent() < z.exponent() {
            x.exponent()
        } else {
            z.exponent()
        };
        multiples_keep_order(x, x, low);
        multiples_keep_order(z, z, low);
        rounded_grows(0, x.multiple(low) + z.multiple(low), low);
    }
}

/// A larger number gives no smaller product with a positive one.
pub proof fn product_grows(x: Single, y: Single, z: Single)
    requires
        x.nonnegative(),
        y.nonnegative(),
        x.order() <= y.order(),
        0 < z.bits < INFINITE_BITS,
    ensures
        product(x, z).nonnegative(),
        product(y, z).nonnegative(),
        product(x, z).order() <= product(y, z).order(),
{
    parts_make_the_pattern(z);
    let c = z.significand();
    if !x.infinite() {
        parts_make_the_pattern(x);
        let a = x.significand();
        assert(0 <= a * c) by (nonlinear_arith)
            requires
                0 <= a,
                0 <= c,
        ;
        assert(a == 0 ==> a * c == 0) by (nonlinear_arith);
        rounded_grows(0, a * c, x.exponent() + z.exponent());
        if !y.infinite() {
            parts_make_the_pattern(y);
            multiples_keep_order(x, y, x.exponent());
            assert(doubled(a, 0) == a);
            let b = y.significand();
            let j = (y.exponent() - x.exponent()) as nat;
            doubled_product(b, j);
            doubled_product(b * c, j);
            let d = doubled(1, j);
            assert((b * c) * d == (b * d) * c && a * c <= (b * d) * c && 0 <= b * c)
                by (nonlinear_arith)
                requires
                    a <= b * d,
                    0 <= b,
                    0 <= c,
            ;
            assert(b == 0 ==> b * c == 0) by (nonlinear_arith);
            rounded_shifts(b * c, y.exponent() + z.exponent(), j);
            rounded_grows(a * c, doubled(b * c, j), x.exponent() + z.exponent());
        }
    }
}

/// A larger number gives no smaller quotient by a positive one.
pub proof fn quotient_grows(x: Single, y: Single, z: Single)
    requires
        x.nonnegative(),
        y.nonnegative(),
        x.order() <= y.order(),
        0 < z.bits < INFINITE_BITS,
    ensures
        quotient(x, z).nonnegative(),
        quotient(y, z).nonnegative(),
        quotient(x, z).order() <= quotient(y, z).order(),
{
    parts_make_the_pattern(z);
    if !x.infinite() && !y.zero() {
        parts_make_the_pattern(x);
        let g = z.exponent();
        let c = z.significand();
        if !x.zero() {
            assert(doubled(x.significand(), 0) == x.significand());
            rounded_quotients(
                x.significand(),
                c,
                x.exponent() - g,
                x.significand(),
                c,
                x.exponent() - g,
                x.exponent() - g,
            );
        }
        if !y.infinite() {
            parts_make_the_pattern(y);
            assert(doubled(y.significand(), 0) == y.significand());
            rounded_quotients(
                y.significand(),
                c,
                y.exponent() - g,
                y.significand(),
                c,
                y.exponent() - g,
                y.exponent() - g,
            );
            if !x.zero() {
                multiples_keep_order(x, y, x.exponent());
                let a = x.significand();
                let b = doubled(y.significand(), (y.exponent() - x.exponent()) as nat);
                assert(a * c <= b * c) by (nonlinear_arith)
                    requires
                        a <= b,
                        c >= 0,
                ;
                rounded_quotients(
                    a,
                    c,
                    x.exponent() - g,
                    y.significand(),
                    c,
                    y.exponent() - g,
                    x.exponent() - g,
                );
            }
        }
    }
}

/// A positive number gives no larger quotient by a larger one.
pub proof fn quotient_falls(x: Single, y: Single, z: Single)
    requires
        0 < x.bits < INFINITE_BITS,
        0 < y.bits <= z.bits <= INFINITE_BITS,
    ensures
        quotient(x, y).nonnegative(),
        quotient(x, z).nonnegative(),
        quotient(x, z).order() <= quotient(x, y).order(),
{
    parts_make_the_pattern(x);
    let a = x.significand();
    let e = x.exponent();
    if !y.infinite() {
        parts_make_the_pattern(y);
        let b = y.significand();
        let f = y.exponent();
        assert(doubled(a, 0) == a);
        rounded_quotients(a, b, e - f, a, b, e - f, e - f);
        if !z.infinite() {
            parts_make_the_pattern(z);
            let c = z.significand();
            let g = z.exponent();
            multiples_keep_order(y, z, f);
            assert(doubled(b, 0) == b);
            let j = (g - f) as nat;
            doubled_product(c, j);
            doubled_product(a, j);
            let d = doubled(1, j);
            assert(a * b <= (a * d) * c) by (nonlinear_arith)
                requires
                    b <= c * d,
                    a >= 0,
            ;
            rounded_quotients(a, c, e - g, a, b, e - f, e - g);
        }
    }
}

/// A larger count becomes no smaller number.
pub proof fn counts_grow(a: int, b: int)
    requires
        0 <= a <= b,
    ensures
        of_count(a).nonnegative(),
        of_count(b).nonnegative(),
        of_count(a).order() <= of_count(b).order(),
{
    rounded_grows(a, b, 0);
    rounded_grows(0, a, 0);
}

/// A number is nearest to itself.
proof fn numbers_are_kept(x: Single, e: int)
    requires
        x.magnitude() < INFINITE_BITS,
        e <= x.exponent(),
    ensures
        rounded(doubled(x.significand(), (x.exponent() - e) as nat), e) == x.magnitude(),
{
    parts_make_the_pattern(x);
    let n = x.significand();
    let j = (x.exponent() - e) as nat;
    rounded_shifts(n, x.exponent(), j);
    assert(doubled(1, 23) == 0x80_0000) by {
        reveal_with_fuel(doubled, 24);
    }
    assert(doubled(1, 24) == 0x100_0000) by {
        reveal_with_fuel(doubled, 25);
    }
    width_at_most(n, 24);
    if n >= 0x80_0000 {
        width_at_least(n, 23);
    }
    assert(doubled(1, 0) == 1);
    assert(nearest(n, 1) == n);
}

/// Nothing is gained by adding zero to a positive number.
pub proof fn sum_is_kept(x: Single)
    requires
        0x80_0000 <= x.bits < INFINITE_BITS,
    ensures
        sum(x, Single { bits: 0 }) == x,
        sum(Single { bits: 0 }, x) == x,
{
    parts_make_the_pattern(x);
    parts_make_the_pattern(Single { bits: 0 });
    numbers_are_kept(x, -149);
    assert(doubled(0, 0) == 0);
    doubled_keeps_order(0, x.significand(), (x.exponent() + 149) as nat);
    doubled_of_zero((x.exponent() + 149) as nat);
}

/// A positive number is kept by a factor of one.
pub proof fn product_is_kept(x: Single)
    requires
        0 < x.bits < INFINITE_BITS,
    ensures
        product(Single { bits: ONE_BITS }, x) == x,
{
    parts_make_the_pattern(x);
    let n = x.significand();
    numbers_are_kept(x, x.exponent() - 23);
    doubled_product(n, 23);
    assert(doubled(1, 23) == 0x80_0000) by {
        reveal_with_fuel(doubled, 24);
    }
    let one = Single { bits: ONE_BITS };
    assert(one.significand() == 0x80_0000 && one.exponent() == -23);
    assert(0x80_0000 * n == n * 0x80_0000) by (nonlinear_arith);
}

/// The sum of two positive numbers, from its exact value `n` in units of the smaller one, of which
/// the last `k` bits are rounded away.
pub(crate) proof fn sum_of_positive(x: Single, y: Single, n: int, k: nat)
    requires
        0 < x.bits < INFINITE_BITS,
        0 < y.bits < INFINITE_BITS,
        y.exponent() <= x.exponent(),
        n == doubled(x.significand(), (x.exponent() - y.exponent()) as nat) + y.significand(),
        doubled(0x80_0000, k) <= n < doubled(0x100_0000, k),
    ensures
        sum(x, y).bits == pattern(nearest(n, doubled(1, k)), y.exponent() + k),
{
    parts_make_the_pattern(x);
    parts_make_the_pattern(y);
    assert(doubled(1, 23) == 0x80_0000) by {
        reveal_with_fuel(doubled, 24);
    }
    assert(doubled(1, 24) == 0x100_0000) by {
        reveal_with_fuel(doubled, 25);
    }
    doubled_further(1, 23, k);
    doubled_further(1, 24, k);
    doubled_grows(0x80_0000, 0, k);
    width_at_least(n, 23 + k);
    width_at_most(n, 24 + k);
    kept_bounds(n, k as int);
    assert(doubled(y.significand(), 0) == y.significand());
}

/// A sum is larger than its first term where the second one is not too small beside it.
pub proof fn sum_exceeds(x: Single, y: Single)
    requires
        x.nonnegative(),
        x.magnitude() < INFINITE_BITS - 1,
        0x80_0000 <= y.bits < INFINITE_BITS,
        x.exponent() <= y.exponent() + 23,
    ensures
        sum(x, y).nonnegative(),
        sum(x, y).order() > x.order(),
{
    let z = Single { bits: (x.magnitude() + 1) as u32 };
    parts_make_the_pattern(x);
    parts_make_the_pattern(y);
    parts_make_the_pattern(z);
    let e = if x.exponent() < y.exponent() {
        x.exponent()
    } else {
        y.exponent()
    };
    let a = x.significand();
    let j = (x.exponent() - e) as nat;
    let k = (y.exponent() - e) as nat;
    multiples_keep_order(x, z, e);
    multiples_keep_order(y, y, e);
    let d = doubled(1, j);
    doubled_product(a, j);
    doubled_product(a + 1, j);
    assert((a + 1) * d == a * d + d) by (nonlinear_arith);
    assert(z.multiple(e) == doubled(a + 1, j)) by {
        if z.exponent() == x.exponent() {
            assert(z.significand() == a + 1);
        } else {
            assert(a + 1 == 0x100_0000 && z.significand() == 0x80_0000);
            assert(doubled(0x80_0000, 1) == 0x100_0000) by {
                reveal_with_fuel(doubled, 2);
            }
            doubled_further(0x80_0000, 1, j);
        }
    }
    assert(doubled(1, 23) == 0x80_0000) by {
        reveal_with_fuel(doubled, 24);
    }
    doubled_keeps_order(0x80_0000, y.significand(), k);
    doubled_further(1, 23, k);
    doubled_grows(1, j, 23 + k);
    numbers_are_kept(z, e);
    rounded_grows(z.multiple(e), x.multiple(e) + y.multiple(e), e);
}

/// A positive number divided by itself is one.
pub proof fn quotient_of_equals(x: Single)
    requires
        0 < x.bits < INFINITE_BITS,
    ensures
        quotient(x, x) == (Single { bits: ONE_BITS }),
{
    parts_make_the_pattern(x);
    let p = x.significand();
    shortfall_bounds(p, p);
    let s = shortfall(p, p);
    doubled_product(p, s);
    let d = doubled(1, s);
    doubled_grows(1, 0, s);
    assert(0x80_0000 <= d < 0x100_0000) by (nonlinear_arith)
        requires
            p * 0x80_0000 <= p * d < 2 * (p * 0x80_0000),
            p > 0,
    ;
    assert(doubled(1, 23) == 0x80_0000) by {
        reveal_with_fuel(doubled, 24);
    }
    if s < 23 {
        doubled_grows(1, s, 22);
        assert(doubled(1, 23) == 2 * doubled(1, 22));
    }
    if s > 23 {
        doubled_grows(1, 24, s);
        assert(doubled(1, 24) == 2 * doubled(1, 23));
    }
    assert(doubled(1, 0) == 1);
    let n = p * 0x80_0000;
    assert(n / p == 0x80_0000 && n % p == 0) by (nonlinear_arith)
        requires
            n == p * 0x80_0000,
            p > 0,
    ;
    assert(p * 1 == p) by (nonlinear_arith);
}

/// A count that is not zero becomes a positive number.
pub proof fn counts_are_positive(n: int)
    requires
        0 < n < 0x10_0000_0000_0000_0000_0000_0000,
    ensures
        0 < of_count(n).bits < INFINITE_BITS,
{
    doubled_hundred_times();
    width_at_most(n, 100);
    width_bounds(n);
    kept_bounds(n, width(n) - 24);
}

/// A part of a whole is a share between zero and one.
pub proof fn shares_are_units(part: int, whole: int)
    requires
        0 <= part <= whole,
        0 < whole < 0x10_0000_0000_0000_0000_0000_0000,
    ensures
        share(part, whole).unit(),
        share(whole, whole) == (Single { bits: ONE_BITS }),
{
    counts_are_positive(whole);
    counts_grow(part, whole);
    quotient_of_equals(of_count(whole));
    quotient_grows(of_count(part), of_count(whole), of_count(whole));
}

impl Single {
    /// The number as a multiple of the smallest positive one.
    pub open spec fn units(self) -> int {
        self.multiple(-149)
    }

    /// Whether this number is larger than another by 1/4096 or more.
    pub open spec fn clearly_above(self, other: Single) -> bool {
        self.units() - other.units() >= doubled(1, 137)
    }
}

/// Rounding misses a number by half a step at most, and steps are no wider than the number allows.
proof fn rounding_error(n: int, e: int, big: nat)
    requires
        0 <= n < doubled(1, big + 24),
        -149 - e <= big,
        e <= -149,
        e + big <= 100,
    ensures
        ({
            let r = Single { bits: rounded(n, e) as u32 };
            &&& r.bits == rounded(n, e)
            &&& r.bits < INFINITE_BITS
            &&& -doubled(1, big) <= 2 * (r.multiple(e) - n) <= doubled(1, big)
        }),
{
    let r = Single { bits: rounded(n, e) as u32 };
    doubled_grows(1, 0, big);
    if n == 0 {
        doubled_of_zero((-149 - e) as nat);
    } else {
        width_at_most(n, big + 24);
        let k = at_least(width(n) - 24, -149 - e) as nat;
        let d = doubled(1, k);
        let m = nearest(n, d);
        kept_bounds(n, k as int);
        doubled_grows(1, 0, k);
        doubled_grows(1, k, big);
        nearest_misses_little(n, d);
        doubled_product(m, k);
        assert(r.multiple(e) == m * d) by {
            if m == 0x100_0000 {
                assert(r.significand() == 0x80_0000 && r.exponent() == e + k + 1);
                assert(doubled(0x80_0000, 1) == 0x100_0000) by {
                    reveal_with_fuel(doubled, 2);
                }
                doubled_further(0x80_0000, 1, k);
            } else {
                assert(r.significand() == m && r.exponent() == e + k);
            }
        }
    }
}

/// The sum of two numbers that add up to less than two, in units: exact up to half a step.
proof fn sum_in_units(x: Single, z: Single)
    requires
        x.nonnegative(),
        z.nonnegative(),
        !x.infinite(),
        !z.infinite(),
        x.units() + z.units() < doubled(1, 150),
    ensures
        sum(x, z).nonnegative(),
        !sum(x, z).infinite(),
        -doubled(1, 126) <= 2 * (sum(x, z).units() - (x.units() + z.units())) <= doubled(1, 126),
{
    parts_make_the_pattern(x);
    parts_make_the_pattern(z);
    let e = if x.exponent() < z.exponent() {
        x.exponent()
    } else {
        z.exponent()
    };
    multiples_keep_order(x, x, e);
    multiples_keep_order(z, z, e);
    multiples_keep_order(x, x, -149);
    multiples_keep_order(z, z, -149);
    let j = (e + 149) as nat;
    doubled_further(x.significand(), (x.exponent() - e) as nat, j);
    doubled_further(z.significand(), (z.exponent() - e) as nat, j);
    assert((x.exponent() - e) as nat + j == (x.exponent() + 149) as nat);
    assert((z.exponent() - e) as nat + j == (z.exponent() + 149) as nat);
    let a = x.multiple(e);
    let b = z.multiple(e);
    let n = a + b;
    let d = doubled(1, j);
    doubled_product(a, j);
    doubled_product(b, j);
    doubled_product(n, j);
    assert(n * d == a * d + b * d) by (nonlinear_arith)
        requires
            n == a + b,
    ;
    rounded_shifts(n, e, j);
    rounding_error(doubled(n, j), -149, 126);
}

/// The product of a number below two and a weight, in units: exact up to half a step. A larger
/// number gives no smaller product, and a clearly larger one a larger product.
pub(crate) proof fn product_in_units(x: Single, y: Single, w: Single)
    requires
        x.nonnegative(),
        y.nonnegative(),
        x.order() <= y.order(),
        y.order() <= 0x3fa0_0000,
        0x80_0000 <= w.bits < INFINITE_BITS,
        -26 <= w.exponent() <= -25,
    ensures
        product(x, w).nonnegative(),
        product(y, w).nonnegative(),
        !product(x, w).infinite(),
        !product(y, w).infinite(),
        0 <= product(x, w).units() <= product(y, w).units(),
        4 * product(y, w).units() <= 5 * w.units() + doubled(1, 126),
        y.clearly_above(x) ==> product(y, w).units() - product(x, w).units() >= doubled(1, 133),
{
    product_grows(x, y, w);
    product_value(x, w);
    product_value(y, w);
    multiples_keep_order(product(x, w), product(y, w), -149);
    let c = w.significand();
    parts_make_the_pattern(w);
    product_is_bounded(y, w);
    if y.clearly_above(x) {
        let a = x.units();
        let b = y.units();
        let g = doubled(1, 137);
        doubled_grows(1, 0, 137);
        let s = (-w.exponent()) as nat;
        let f = doubled(1, s);
        let u = product(x, w).units();
        let v = product(y, w).units();
        assert(b * c - a * c >= g * 0x80_0000) by (nonlinear_arith)
            requires
                b - a >= g,
                g >= 0,
                c >= 0x80_0000,
        ;
        doubled_product(g, 23);
        assert(doubled(1, 23) == 0x80_0000) by {
            reveal_with_fuel(doubled, 24);
        }
        doubled_further(1, 137, 23);
        let h = doubled(1, 149);
        assert(doubled(1, 160) == 2048 * h) by {
            doubled_further(1, 149, 11);
            doubled_product(h, 11);
            assert(doubled(1, 11) == 2048) by {
                reveal_with_fuel(doubled, 12);
            }
        }
        assert(doubled(1, 150) == 2 * h);
        assert(v * f - u * f >= 2046 * h);
        doubled_grows(1, s, 26);
        doubled_grows(1, 0, s);
        assert(doubled(1, 26) == 0x400_0000) by {
            reveal_with_fuel(doubled, 27);
        }
        let t = doubled(1, 123);
        doubled_grows(1, 0, 123);
        assert(h == 0x400_0000 * t) by {
            doubled_further(1, 123, 26);
            doubled_product(t, 26);
        }
        assert(doubled(1, 133) == 1024 * t) by {
            doubled_further(1, 123, 10);
            doubled_product(t, 10);
            assert(doubled(1, 10) == 1024) by {
                reveal_with_fuel(doubled, 11);
            }
        }
        assert(v - u >= 1024 * t) by (nonlinear_arith)
            requires
                v * f - u * f >= 2046 * (0x400_0000 * t),
                1 <= f <= 0x400_0000,
                v >= u,
                t >= 1,
        ;
    }
}

proof fn product_value(x: Single, w: Single)
    requires
        x.nonnegative(),
        x.order() <= 0x3fa0_0000,
        0x80_0000 <= w.bits < INFINITE_BITS,
        -26 <= w.exponent() <= -25,
    ensures
        product(x, w).nonnegative(),
        !product(x, w).infinite(),
        -doubled(1, 150) <= 2 * (product(x, w).units() * doubled(1, (-w.exponent()) as nat)
            - x.units() * w.significand()) <= doubled(1, 150),
        0 <= x.units() < doubled(1, 150),
{
    parts_make_the_pattern(x);
    parts_make_the_pattern(w);
    let c = w.significand();
    let g = w.exponent();
    let j = (x.exponent() + 149) as nat;
    let a = x.significand();
    let n = a * c;
    multiples_keep_order(x, x, -149);
    doubled_product(a, j);
    doubled_product(n, j);
    let d = doubled(1, j);
    doubled_grows(1, 0, j);
    assert((a * c) * d == (a * d) * c) by (nonlinear_arith);
    assert(0 <= n) by (nonlinear_arith)
        requires
            n == a * c,
            a >= 0,
            c >= 0,
    ;
    rounded_shifts(n, x.exponent() + g, j);
    let below = Single { bits: 0x3fff_ffff };
    parts_make_the_pattern(below);
    multiples_keep_order(x, below, -149);
    assert(below.exponent() == -23 && below.significand() == 0xff_ffff);
    doubled_further(1, 24, 126);
    assert(doubled(1, 24) == 0x100_0000) by {
        reveal_with_fuel(doubled, 25);
    }
    doubled_product(0x100_0000, 126);
    doubled_product(0xff_ffff, 126);
    doubled_grows(1, 0, 126);
    let big = x.units() * c;
    let top = doubled(1, 150);
    assert(0 <= big < top * 0x100_0000) by (nonlinear_arith)
        requires
            big == x.units() * c,
            0 <= x.units() < top,
            0 <= c < 0x100_0000,
    ;
    doubled_product(top, 24);
    doubled_further(1, 150, 24);
    rounding_error(big, g - 149, 150);
    let r = product(x, w);
    let t = Single { bits: rounded(big, g - 149) as u32 };
    product_grows(x, x, w);
    assert(r.magnitude() == t.magnitude());
    multiples_keep_order(r, r, -149);
    multiples_keep_order(r, r, g - 149);
    multiples_keep_order(t, t, g - 149);
    doubled_further(r.significand(), (r.exponent() + 149) as nat, (-g) as nat);
    assert((r.exponent() + 149) as nat + (-g) as nat == (r.exponent() - (g - 149)) as nat);
    doubled_product(doubled(r.significand(), (r.exponent() + 149) as nat), (-g) as nat);
}

proof fn product_is_bounded(y: Single, w: Single)
    requires
        y.nonnegative(),
        y.order() <= 0x3fa0_0000,
        0x80_0000 <= w.bits < INFINITE_BITS,
        -26 <= w.exponent() <= -25,
    ensures
        4 * product(y, w).units() <= 5 * w.units() + doubled(1, 126),
{
    product_value(y, w);
    parts_make_the_pattern(w);
    parts_make_the_pattern(y);
    let top = Single { bits: 0x3fa0_0000 };
    parts_make_the_pattern(top);
    assert(top.significand() == 0xa0_0000 && top.exponent() == -23);
    multiples_keep_order(y, top, -149);
    let c = w.significand();
    let s = (-w.exponent()) as nat;
    let f = doubled(1, s);
    let v = product(y, w).units();
    let a = y.units();
    doubled_product(0xa0_0000, 126);
    let k = doubled(1, 126);
    doubled_grows(1, 0, 126);
    assert(doubled(1, 149) == 0x80_0000 * k) by {
        doubled_further(1, 126, 23);
        doubled_product(k, 23);
        assert(doubled(1, 23) == 0x80_0000) by {
            reveal_with_fuel(doubled, 24);
        }
    }
    assert(doubled(1, 150) == 2 * doubled(1, 149));
    let h = doubled(1, 149);
    let z = w.units();
    multiples_keep_order(w, w, -149);
    doubled_further(c, (w.exponent() + 149) as nat, s);
    assert((w.exponent() + 149) as nat + s == 149);
    doubled_product(c, 149);
    doubled_product(z, s);
    assert(z * f == c * h);
    assert(4 * (a * c) <= 5 * (c * h)) by (nonlinear_arith)
        requires
            a <= 0xa0_0000 * k,
            h == 0x80_0000 * k,
            c >= 0,
    ;
    assert(2 * (v * f) <= 2 * (a * c) + 2 * h);
    doubled_grows(1, 25, s);
    assert(doubled(1, 25) == 0x200_0000) by {
        reveal_with_fuel(doubled, 26);
    }
    assert(4 * v <= 5 * z + k) by (nonlinear_arith)
        requires
            4 * (v * f) <= 5 * (z * f) + 4 * h,
            h == 0x80_0000 * k,
            f >= 0x200_0000,
            k >= 1,
    ;
}

/// The sums of smaller and of larger numbers, in units: what the larger ones have ahead, the larger
/// sum has ahead too, up to a step.
pub(crate) proof fn sums_in_units(a: Single, b: Single, c: Single, d: Single)
    requires
        a.nonnegative(),
        b.nonnegative(),
        c.nonnegative(),
        d.nonnegative(),
        !a.infinite(),
        !b.infinite(),
        !c.infinite(),
        !d.infinite(),
        a.units() + c.units() <= b.units() + d.units() < doubled(1, 150),
    ensures
        sum(a, c).nonnegative(),
        sum(b, d).nonnegative(),
        !sum(a, c).infinite(),
        !sum(b, d).infinite(),
        sum(b, d).units() - sum(a, c).units() >= b.units() + d.units() - a.units() - c.units()
            - doubled(1, 126),
        sum(b, d).units() <= b.units() + d.units() + doubled(1, 126),
{
    sum_in_units(a, c);
    sum_in_units(b, d);
}

/// A number of more units is larger.
pub(crate) proof fn more_units_are_larger(x: Single, y: Single)
    requires
        x.nonnegative(),
        y.nonnegative(),
        !x.infinite(),
        x.units() < y.units(),
    ensures
        x.order() < y.order(),
{
    parts_make_the_pattern(x);
    if y.order() <= x.order() {
        parts_make_the_pattern(y);
        multiples_keep_order(y, x, -149);
    }
}

/// Powers of two multiply.
pub(crate) proof fn powers_from(a: nat, b: nat)
    ensures
        doubled(1, a) >= 1,
        doubled(1, a + b) == doubled(1, a) * doubled(1, b),
{
    doubled_grows(1, 0, a);
    doubled_further(1, a, b);
    doubled_product(doubled(1, a), b);
}

/// A positive number in units, from its parts.
pub(crate) proof fn weight_units(w: Single, significand: int, k: nat)
    requires
        w.bits < INFINITE_BITS,
        w.significand() == significand,
        w.exponent() + 149 == k,
    ensures
        w.units() == significand * doubled(1, k),
{
    doubled_product(significand, k);
}

/// Rounding goes to the nearest multiple, and to the even one where two are equally near.
pub proof fn rounding_goes_to_the_nearest_even(n: int, d: int)
    requires
        n >= 0,
        d > 0,
    ensures
        -d <= 2 * (nearest(n, d) * d - n) <= d,
        2 * (nearest(n, d) * d - n) == d || 2 * (nearest(n, d) * d - n) == -d ==> nearest(n, d) % 2
            == 0,
{
    let q = n / d;
    let r = n % d;
    assert(n == q * d + r && 0 <= r < d) by (nonlinear_arith)
        requires
            d > 0,
            q == n / d,
            r == n % d,
    ;
    assert((q + 1) * d == q * d + d) by (nonlinear_arith);
}

/// The order of two numbers changes neither their sum nor their product.
pub proof fn sums_and_products_commute(x: Single, y: Single)
    ensures
        sum(x, y) == sum(y, x),
        product(x, y) == product(y, x),
{
    assert(x.significand() * y.significand() == y.significand() * x.significand())
        by (nonlinear_arith);
    if x.infinite() && y.infinite() && x.negative() == y.negative() {
        assert(x.bits == y.bits);
    }
}

/// What is no number makes none; opposite infinities have no sum, and zero and an infinity no product.
/// Dividing by zero gives an infinity, and dividing by an infinity gives zero.
pub proof fn unbounded_numbers_are_handled(x: Single, y: Single)
    ensures
        x.nan() || y.nan() ==> sum(x, y).nan() && product(x, y).nan() && quotient(x, y).nan(),
        x.infinite() && y.infinite() && x.negative() != y.negative() ==> sum(x, y).nan(),
        x.infinite() && !y.infinite() && !y.nan() ==> sum(x, y) == x,
        x.zero() && y.infinite() ==> product(x, y).nan() && quotient(x, y).zero(),
        x.infinite() && y.infinite() ==> product(x, y).infinite() && quotient(x, y).nan(),
        x.zero() && y.zero() ==> quotient(x, y).nan(),
        !x.zero() && !x.nan() && y.zero() ==> quotient(x, y).infinite(),
{
}

} // verus!
