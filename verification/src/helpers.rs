//! Small value types shared by the simulation: a two-component `i8` vector
//! used for offsets and velocities, and an RGB colour.
use vstd::prelude::*;

verus! {

/// A two-component vector of `i8`, used for grid offsets and velocities.
#[derive(Clone, Copy, PartialEq, Eq, Structural, Debug)]
pub struct I8Vec2 {
    pub x: i8,
    pub y: i8,
}

/// Builds a vector from its two components.
pub fn i8vec2(x: i8, y: i8) -> (v: I8Vec2)
    ensures
        v.x == x,
        v.y == y,
{
    I8Vec2::new(x, y)
}

/// Turns a list of `(x, y)` pairs into a list of vectors, in the same order.
pub fn i8vec2_vector(input_collection: Vec<(i8, i8)>) -> (v: Vec<I8Vec2>)
    ensures
        v@.len() == input_collection@.len(),
        forall|i: int|
            0 <= i < v@.len() ==> #[trigger] v@[i] == I8Vec2::spec_from_pair(input_collection@[i]),
{
    let mut v: Vec<I8Vec2> = Vec::new();
    let n = input_collection.len();
    for i in 0..n
        invariant
            n == input_collection@.len(),
            v@.len() == i,
            forall|j: int| 0 <= j < i ==> #[trigger] v@[j] == I8Vec2::spec_from_pair(input_collection@[j]),
    {
        let (x, y) = input_collection[i];
        v.push(I8Vec2::new(x, y));
    }
    v
}

/// One row up.
pub fn up() -> (r: I8Vec2)
    ensures
        r.x == 0,
        r.y == -1,
{
    I8Vec2 { x: 0, y: -1i8 }
}

/// One row down.
pub fn dn() -> (r: I8Vec2)
    ensures
        r.x == 0,
        r.y == 1,
{
    I8Vec2 { x: 0, y: 1 }
}

/// One column left.
pub fn left() -> (r: I8Vec2)
    ensures
        r.x == -1,
        r.y == 0,
{
    I8Vec2 { x: -1i8, y: 0 }
}

/// One column right.
pub fn right() -> (r: I8Vec2)
    ensures
        r.x == 1,
        r.y == 0,
{
    I8Vec2 { x: 1, y: 0 }
}

/// Up and to the left.
pub fn up_l() -> (r: I8Vec2)
    ensures
        r.x == -1,
        r.y == -1,
{
    I8Vec2 { x: -1i8, y: -1i8 }
}

/// Up and to the right.
pub fn up_r() -> (r: I8Vec2)
    ensures
        r.x == 1,
        r.y == -1,
{
    I8Vec2 { x: 1, y: -1i8 }
}

/// Down and to the left.
pub fn dn_l() -> (r: I8Vec2)
    ensures
        r.x == -1,
        r.y == 1,
{
    I8Vec2 { x: -1i8, y: 1 }
}

/// Down and to the right.
pub fn dn_r() -> (r: I8Vec2)
    ensures
        r.x == 1,
        r.y == 1,
{
    I8Vec2 { x: 1, y: 1 }
}

/// The smaller of two integers.
pub open spec fn min_int(a: int, b: int) -> int {
    if a <= b { a } else { b }
}

/// The larger of two integers.
pub open spec fn max_int(a: int, b: int) -> int {
    if a >= b { a } else { b }
}

impl I8Vec2 {
    /// All zeroes.
    pub fn zero() -> (r: Self)
        ensures
            r.x == 0,
            r.y == 0,
    {
        Self { x: 0, y: 0 }
    }

    /// All ones.
    pub fn one() -> (r: Self)
        ensures
            r.x == 1,
            r.y == 1,
    {
        Self { x: 1, y: 1 }
    }

    /// All negative ones.
    pub fn neg_one() -> (r: Self)
        ensures
            r.x == -1,
            r.y == -1,
    {
        Self { x: -1i8, y: -1i8 }
    }

    /// A unit-length vector pointing along the positive X axis.
    pub fn unit_x() -> (r: Self)
        ensures
            r.x == 1,
            r.y == 0,
    {
        Self { x: 1, y: 0 }
    }

    /// A unit-length vector pointing along the positive Y axis.
    pub fn unit_y() -> (r: Self)
        ensures
            r.x == 0,
            r.y == 1,
    {
        Self { x: 0, y: 1 }
    }

    /// A unit-length vector pointing along the negative X axis.
    pub fn neg_unit_x() -> (r: Self)
        ensures
            r.x == -1,
            r.y == 0,
    {
        Self { x: -1i8, y: 0 }
    }

    /// A unit-length vector pointing along the negative Y axis.
    pub fn neg_unit_y() -> (r: Self)
        ensures
            r.x == 0,
            r.y == -1,
    {
        Self { x: 0, y: -1i8 }
    }

    /// The unit axes.
    pub fn axes() -> (r: [Self; 2])
        ensures
            r@[0] == (I8Vec2 { x: 1, y: 0 }),
            r@[1] == (I8Vec2 { x: 0, y: 1 }),
    {
        [Self { x: 1, y: 0 }, Self { x: 0, y: 1 }]
    }

    /// The vector with components `p.0` and `p.1`.
    pub open spec fn spec_from_pair(p: (i8, i8)) -> I8Vec2 {
        I8Vec2 { x: p.0, y: p.1 }
    }

    /// Creates a new vector.
    pub fn new(x: i8, y: i8) -> (v: Self)
        ensures
            v.x == x,
            v.y == y,
    {
        Self { x, y }
    }

    /// Creates a vector with both components set to `v`.
    pub fn splat(v: i8) -> (r: Self)
        ensures
            r.x == v,
            r.y == v,
    {
        Self { x: v, y: v }
    }

    /// The component-wise absolute value.
    pub fn abs(self) -> (r: Self)
        requires
            self.x != i8::MIN,
            self.y != i8::MIN,
        ensures
            r.x == (if self.x < 0 { -self.x } else { self.x as int }),
            r.y == (if self.y < 0 { -self.y } else { self.y as int }),
    {
        Self {
            x: if self.x < 0 { -self.x } else { self.x },
            y: if self.y < 0 { -self.y } else { self.y },
        }
    }

    /// The component-wise minimum of `self` and `rhs`.
    pub fn min(self, rhs: Self) -> (r: Self)
        ensures
            r.x == min_int(self.x as int, rhs.x as int),
            r.y == min_int(self.y as int, rhs.y as int),
    {
        Self {
            x: if self.x <= rhs.x { self.x } else { rhs.x },
            y: if self.y <= rhs.y { self.y } else { rhs.y },
        }
    }

    /// The component-wise maximum of `self` and `rhs`.
    pub fn max(self, rhs: Self) -> (r: Self)
        ensures
            r.x == max_int(self.x as int, rhs.x as int),
            r.y == max_int(self.y as int, rhs.y as int),
    {
        Self {
            x: if self.x >= rhs.x { self.x } else { rhs.x },
            y: if self.y >= rhs.y { self.y } else { rhs.y },
        }
    }

    /// Component-wise clamping of `self` into `[min, max]`; each component of
    /// `min` must not exceed the one of `max`.
    pub fn clamp(self, min: Self, max: Self) -> (r: Self)
        requires
            min.x <= max.x,
            min.y <= max.y,
        ensures
            r.x == min_int(max_int(self.x as int, min.x as int), max.x as int),
            r.y == min_int(max_int(self.y as int, min.y as int), max.y as int),
            min.x <= r.x <= max.x,
            min.y <= r.y <= max.y,
    {
        self.max(min).min(max)
    }

    /// The squared length `x * x + y * y`.
    pub fn length_sq(&self) -> (r: u16)
        requires
            self.x * self.x + self.y * self.y <= i16::MAX,
        ensures
            r == self.x * self.x + self.y * self.y,
    {
        let x = self.x as i16;
        let y = self.y as i16;
        assert(x * x <= 128 * 128 && y * y <= 128 * 128) by (nonlinear_arith)
            requires
                -128 <= x <= 127,
                -128 <= y <= 127,
        ;
        assert(x * x >= 0 && y * y >= 0) by (nonlinear_arith);
        (x * x + y * y) as u16
    }

    /// The component-wise sum `self + rhs`.
    pub fn add(self, rhs: Self) -> (r: Self)
        requires
            i8::MIN <= self.x + rhs.x <= i8::MAX,
            i8::MIN <= self.y + rhs.y <= i8::MAX,
        ensures
            r.x == self.x + rhs.x,
            r.y == self.y + rhs.y,
    {
        Self { x: self.x + rhs.x, y: self.y + rhs.y }
    }

    /// Adds `rhs` to both components.
    pub fn add_scalar(self, rhs: i8) -> (r: Self)
        requires
            i8::MIN <= self.x + rhs <= i8::MAX,
            i8::MIN <= self.y + rhs <= i8::MAX,
        ensures
            r.x == self.x + rhs,
            r.y == self.y + rhs,
    {
        Self { x: self.x + rhs, y: self.y + rhs }
    }

    /// In-place component-wise sum.
    pub fn add_assign(&mut self, rhs: Self)
        requires
            i8::MIN <= old(self).x + rhs.x <= i8::MAX,
            i8::MIN <= old(self).y + rhs.y <= i8::MAX,
        ensures
            final(self).x == old(self).x + rhs.x,
            final(self).y == old(self).y + rhs.y,
    {
        self.x = self.x + rhs.x;
        self.y = self.y + rhs.y;
    }

    /// In-place addition of `rhs` to both components.
    pub fn add_assign_scalar(&mut self, rhs: i8)
        requires
            i8::MIN <= old(self).x + rhs <= i8::MAX,
            i8::MIN <= old(self).y + rhs <= i8::MAX,
        ensures
            final(self).x == old(self).x + rhs,
            final(self).y == old(self).y + rhs,
    {
        self.x = self.x + rhs;
        self.y = self.y + rhs;
    }

    /// The component-wise difference `self - rhs`.
    pub fn sub(self, rhs: Self) -> (r: Self)
        requires
            i8::MIN <= self.x - rhs.x <= i8::MAX,
            i8::MIN <= self.y - rhs.y <= i8::MAX,
        ensures
            r.x == self.x - rhs.x,
            r.y == self.y - rhs.y,
    {
        Self { x: self.x - rhs.x, y: self.y - rhs.y }
    }

    /// Subtracts `rhs` from both components.
    pub fn sub_scalar(self, rhs: i8) -> (r: Self)
        requires
            i8::MIN <= self.x - rhs <= i8::MAX,
            i8::MIN <= self.y - rhs <= i8::MAX,
        ensures
            r.x == self.x - rhs,
            r.y == self.y - rhs,
    {
        Self { x: self.x - rhs, y: self.y - rhs }
    }

    /// In-place component-wise difference.
    pub fn sub_assign(&mut self, rhs: Self)
        requires
            i8::MIN <= old(self).x - rhs.x <= i8::MAX,
            i8::MIN <= old(self).y - rhs.y <= i8::MAX,
        ensures
            final(self).x == old(self).x - rhs.x,
            final(self).y == old(self).y - rhs.y,
    {
        self.x = self.x - rhs.x;
        self.y = self.y - rhs.y;
    }

    /// In-place subtraction of `rhs` from both components.
    pub fn sub_assign_scalar(&mut self, rhs: i8)
        requires
            i8::MIN <= old(self).x - rhs <= i8::MAX,
            i8::MIN <= old(self).y - rhs <= i8::MAX,
        ensures
            final(self).x == old(self).x - rhs,
            final(self).y == old(self).y - rhs,
    {
        self.x = self.x - rhs;
        self.y = self.y - rhs;
    }

    /// The components widened to `(i16, i16)`.
    pub fn to_i16_pair(self) -> (r: (i16, i16))
        ensures
            r.0 == self.x,
            r.1 == self.y,
    {
        (self.x as i16, self.y as i16)
    }

    /// The components as a grid offset.
    pub open spec fn to_offset_spec(self) -> (isize, isize) {
        (self.x as isize, self.y as isize)
    }

    /// The components widened to `(isize, isize)`, the form grid offsets take.
    pub fn to_offset(self) -> (r: (isize, isize))
        ensures
            r.0 == self.x,
            r.1 == self.y,
            r == self.to_offset_spec(),
    {
        (self.x as isize, self.y as isize)
    }

    /// The vector with components `pair.0` and `pair.1`.
    pub fn from_pair(pair: (i8, i8)) -> (r: Self)
        ensures
            r == Self::spec_from_pair(pair),
    {
        Self { x: pair.0, y: pair.1 }
    }
}

/// `lhs` added to both components of `rhs`.
pub fn scalar_add(lhs: i8, rhs: I8Vec2) -> (r: I8Vec2)
    requires
        i8::MIN <= lhs + rhs.x <= i8::MAX,
        i8::MIN <= lhs + rhs.y <= i8::MAX,
    ensures
        r.x == lhs + rhs.x,
        r.y == lhs + rhs.y,
{
    I8Vec2 { x: lhs + rhs.x, y: lhs + rhs.y }
}

/// Both components of `rhs` subtracted from `lhs`.
pub fn scalar_sub(lhs: i8, rhs: I8Vec2) -> (r: I8Vec2)
    requires
        i8::MIN <= lhs - rhs.x <= i8::MAX,
        i8::MIN <= lhs - rhs.y <= i8::MAX,
    ensures
        r.x == lhs - rhs.x,
        r.y == lhs - rhs.y,
{
    I8Vec2 { x: lhs - rhs.x, y: lhs - rhs.y }
}

/// An RGB colour with one byte per channel.
#[derive(Clone, Copy, PartialEq, Eq, Structural, Debug)]
pub struct PColor {
    pub r: u8,
    pub g: u8,
    pub b: u8,
}

impl PColor {
    /// Creates a colour from its three channels.
    pub fn new(r: u8, g: u8, b: u8) -> (c: Self)
        ensures
            c.r == r,
            c.g == g,
            c.b == b,
    {
        Self { r, g, b }
    }
}

} // verus!
