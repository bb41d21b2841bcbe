use vstd::prelude::*;

verus! {

/// A single-precision number, held by its IEEE 754 bit pattern.
///
/// `==` on two values of this type compares bit patterns.
#[derive(Clone, Copy, Debug, PartialEq, Eq, Structural)]
pub struct Single {
    pub bits: u32,
}

/// The pattern of one.
pub const ONE_BITS: u32 = 0x3f80_0000;

impl Single {
    /// Whether the sign bit is set.
    pub open spec fn negative(self) -> bool {
        self.bits >= 0x8000_0000u32
    }

    /// The pattern without its sign bit: it grows with the absolute value.
    pub open spec fn magnitude(self) -> int {
        if self.negative() {
            self.bits - 0x8000_0000
        } else {
            self.bits as int
        }
    }

    /// Whether the pattern stands for no number.
    pub open spec fn nan(self) -> bool {
        self.magnitude() > 0x7f80_0000
    }

    /// The position of the number among all numbers; both zeros stand at 0.
    pub open spec fn order(self) -> int {
        if self.negative() {
            -self.magnitude()
        } else {
            self.magnitude()
        }
    }

    /// The position of the pattern among all patterns: negative zero stands just below positive
    /// zero, negative non-numbers below everything, positive ones above everything.
    pub open spec fn total(self) -> int {
        if self.negative() {
            -self.magnitude() - 1
        } else {
            self.magnitude()
        }
    }

    /// Whether this is a number not below zero and not above one.
    pub open spec fn unit(self) -> bool {
        0 <= self.order() <= ONE_BITS
    }

    /// Whether both are numbers and this one is not below the other.
    pub open spec fn not_below(self, other: Single) -> bool {
        !self.nan() && !other.nan() && self.order() >= other.order()
    }

    /// The larger of two numbers, where a non-number gives way to the other argument.
    pub open spec fn larger(self, other: Single) -> Single {
        if self.nan() {
            other
        } else if !other.nan() && other.order() > self.order() {
            other
        } else {
            self
        }
    }

    /// The smaller of two numbers, where a non-number gives way to the other argument.
    pub open spec fn smaller(self, other: Single) -> Single {
        if self.nan() {
            other
        } else if !other.nan() && other.order() < self.order() {
            other
        } else {
            self
        }
    }

    /// The number brought between zero and one; a non-number stays as it is.
    pub open spec fn unit_clamped(self) -> Single {
        if self.nan() {
            self
        } else if self.order() < 0 {
            Single { bits: 0 }
        } else if self.order() > ONE_BITS {
            Single { bits: ONE_BITS }
        } else {
            self
        }
    }

    /// Whether the pattern stands for no number.
    pub fn is_nan(self) -> (r: bool)
        ensures
            r == self.nan(),
    {
        if self.bits >= 0x8000_0000 {
            self.bits - 0x8000_0000 > 0x7f80_0000
        } else {
            self.bits > 0x7f80_0000
        }
    }

    /// Whether this is a number and not infinite.
    pub fn is_finite(self) -> (r: bool)
        ensures
            r == (self.magnitude() < 0x7f80_0000),
    {
        if self.bits >= 0x8000_0000 {
            self.bits - 0x8000_0000 < 0x7f80_0000
        } else {
            self.bits < 0x7f80_0000
        }
    }

    /// The key by which numbers are sorted.
    pub fn order_key(self) -> (r: i64)
        ensures
            r == self.order(),
            -0x8000_0000 < r < 0x8000_0000,
    {
        if self.bits >= 0x8000_0000 {
            -((self.bits - 0x8000_0000) as i64)
        } else {
            self.bits as i64
        }
    }

    /// The key by which patterns are sorted.
    pub fn total_key(self) -> (r: i64)
        ensures
            r == self.total(),
            -0x8000_0000 <= r < 0x8000_0000,
    {
        if self.bits >= 0x8000_0000 {
            -((self.bits - 0x8000_0000) as i64) - 1
        } else {
            self.bits as i64
        }
    }

    /// Whether this is a number between zero and one, both included.
    pub fn in_unit_range(self) -> (r: bool)
        ensures
            r == self.unit(),
    {
        let key: i64 = self.order_key();
        0 <= key && key <= ONE_BITS as i64
    }

    /// `self >= other` on numbers; false as soon as one of the two is none.
    pub fn at_least(self, other: Single) -> (r: bool)
        ensures
            r == self.not_below(other),
    {
        !self.is_nan() && !other.is_nan() && self.order_key() >= other.order_key()
    }

    /// The larger of the two.
    pub fn max(self, other: Single) -> (r: Single)
        ensures
            r == self.larger(other),
    {
        if self.is_nan() {
            other
        } else if !other.is_nan() && other.order_key() > self.order_key() {
            other
        } else {
            self
        }
    }

    /// The smaller of the two.
    pub fn min(self, other: Single) -> (r: Single)
        ensures
            r == self.smaller(other),
    {
        if self.is_nan() {
            other
        } else if !other.is_nan() && other.order_key() < self.order_key() {
            other
        } else {
            self
        }
    }

    /// The number brought between zero and one.
    pub fn clamp_unit(self) -> (r: Single)
        ensures
            r == self.unit_clamped(),
    {
        if self.is_nan() {
            self
        } else {
            let key: i64 = self.order_key();
            if key < 0 {
                Single { bits: 0 }
            } else if key > ONE_BITS as i64 {
                Single { bits: ONE_BITS }
            } else {
                self
            }
        }
    }
}

/// A number between zero and one is a number.
pub proof fn unit_is_a_number(x: Single)
    requires
        x.unit(),
    ensures
        !x.nan(),
{
}

/// The larger of two numbers in the unit range stays in it and is below neither.
pub proof fn larger_keeps_unit(x: Single, y: Single)
    requires
        x.unit(),
        y.unit(),
    ensures
        x.larger(y).unit(),
        x.larger(y).not_below(x),
        x.larger(y).not_below(y),
{
}

/// Clamping a number always lands in the unit range, and clamping again changes nothing.
pub proof fn clamp_reaches_unit(x: Single)
    ensures
        !x.nan() ==> x.unit_clamped().unit(),
        x.unit_clamped().unit_clamped() == x.unit_clamped(),
{
}

/// The order of numbers is that of their patterns among positive ones, the reverse among negative
/// ones, and negative numbers come before positive ones; both zeros are equal.
pub proof fn numbers_are_ordered(x: Single, y: Single)
    ensures
        x.bits < 0x8000_0000 && y.bits < 0x8000_0000 ==> (x.order() <= y.order() <==> x.bits
            <= y.bits),
        x.bits >= 0x8000_0000 && y.bits >= 0x8000_0000 ==> (x.order() <= y.order() <==> x.bits
            >= y.bits),
        x.bits > 0x8000_0000 && y.bits < 0x8000_0000 ==> x.order() < y.order(),
        x.bits == 0x8000_0000 && y.bits == 0 ==> x.order() == y.order(),
        !x.nan() && !y.nan() && x.order() < y.order() ==> x.total() < y.total(),
        x.total() == y.total() ==> x == y,
        x.nan() <==> 0x7f80_0000 < x.bits < 0x8000_0000 || x.bits > 0xff80_0000,
{
}

/// The larger of two values is one of them and below neither; a non-number gives way.
pub proof fn larger_is_below_neither(x: Single, y: Single)
    ensures
        x.larger(y) == x || x.larger(y) == y,
        !x.nan() && !y.nan() ==> x.larger(y).order() >= x.order() && x.larger(y).order()
            >= y.order(),
        x.nan() ==> x.larger(y) == y,
        y.nan() ==> x.larger(y) == x || x.nan(),
{
}

/// The smaller of two values is one of them and above neither; a non-number gives way.
pub proof fn smaller_is_above_neither(x: Single, y: Single)
    ensures
        x.smaller(y) == x || x.smaller(y) == y,
        !x.nan() && !y.nan() ==> x.smaller(y).order() <= x.order() && x.smaller(y).order()
            <= y.order(),
        x.nan() ==> x.smaller(y) == y,
        y.nan() ==> x.smaller(y) == x || x.nan(),
{
}

/// A number between zero and one is kept as it is; one below becomes zero, one above becomes one.
pub proof fn clamping_keeps_units(x: Single)
    ensures
        0 <= x.order() <= 0x3f80_0000 ==> x.unit_clamped() == x,
        !x.nan() && x.order() < 0 ==> x.unit_clamped() == (Single { bits: 0 }),
        !x.nan() && x.order() > 0x3f80_0000 ==> x.unit_clamped() == (Single { bits: 0x3f80_0000 }),
        x.nan() ==> x.unit_clamped().nan(),
        x.unit() <==> 0 <= x.order() <= 0x3f80_0000,
{
}

} // verus!
