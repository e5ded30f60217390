//! Integer vectors in fixed-point world coordinates.

use vstd::prelude::*;
use vstd::std_specs::convert::FromSpecImpl;

verus! {

/// One world unit, in coordinate steps: coordinates are fixed-point numbers
/// with ten fractional bits.
pub const UNIT: i32 = 1024;

/// The value nearest to `v` that a coordinate can hold.
pub open spec fn clamp_coord(v: int) -> int {
    if v > i32::MAX {
        i32::MAX as int
    } else if v < i32::MIN {
        i32::MIN as int
    } else {
        v
    }
}

/// Brings a wide intermediate result back into the coordinate range.
pub fn clamp_to_coord(v: i128) -> (c: i32)
    ensures
        c == clamp_coord(v as int),
{
    if v > i32::MAX as i128 {
        i32::MAX
    } else if v < i32::MIN as i128 {
        i32::MIN
    } else {
        v as i32
    }
}

/// The quotient `a / b` rounded toward zero, for a positive divisor.
pub open spec fn div_toward_zero(a: int, b: int) -> int
    recommends
        b > 0,
{
    if a >= 0 {
        a / b
    } else {
        -((-a) / b)
    }
}

/// Divides by a positive number, rounding toward zero.
pub fn divide_toward_zero(a: i128, b: i128) -> (q: i128)
    requires
        b > 0,
        a > i128::MIN,
    ensures
        q == div_toward_zero(a as int, b as int),
{
    a / b
}


/// A point or displacement in the plane.
#[derive(Clone, Copy, Debug, PartialEq, Eq, Structural)]
pub struct Vector2 {
    pub x: i32,
    pub y: i32,
}

impl Vector2 {
    /// The vector with the given components.
    pub fn new(x: i32, y: i32) -> (v: Vector2)
        ensures
            v == (Vector2 { x, y }),
    {
        Vector2 { x, y }
    }

    /// The null vector.
    pub fn zero() -> (v: Vector2)
        ensures
            v == (Vector2 { x: 0, y: 0 }),
    {
        Vector2 { x: 0, y: 0 }
    }

    /// One world unit along each axis.
    pub fn unit() -> (v: Vector2)
        ensures
            v == (Vector2 { x: UNIT, y: UNIT }),
    {
        Vector2 { x: UNIT, y: UNIT }
    }

    /// Component-wise sum, each component held to the coordinate range.
    pub open spec fn spec_plus(self, other: Vector2) -> Vector2 {
        Vector2 {
            x: clamp_coord(self.x + other.x) as i32,
            y: clamp_coord(self.y + other.y) as i32,
        }
    }

    /// Component-wise difference, each component held to the coordinate range.
    pub open spec fn spec_minus(self, other: Vector2) -> Vector2 {
        Vector2 {
            x: clamp_coord(self.x - other.x) as i32,
            y: clamp_coord(self.y - other.y) as i32,
        }
    }

    /// The squared length, which no rounding affects.
    pub open spec fn norm_squared(self) -> int {
        self.x * self.x + self.y * self.y
    }

    /// Adds `other`, saturating at the ends of the coordinate range.
    pub fn plus(self, other: Vector2) -> (v: Vector2)
        ensures
            v == self.spec_plus(other),
    {
        Vector2 {
            x: clamp_to_coord(self.x as i128 + other.x as i128),
            y: clamp_to_coord(self.y as i128 + other.y as i128),
        }
    }

    /// Subtracts `other`, saturating at the ends of the coordinate range.
    pub fn minus(self, other: Vector2) -> (v: Vector2)
        ensures
            v == self.spec_minus(other),
    {
        Vector2 {
            x: clamp_to_coord(self.x as i128 - other.x as i128),
            y: clamp_to_coord(self.y as i128 - other.y as i128),
        }
    }

    /// The squared length of the vector.
    pub fn length_squared(self) -> (m: i128)
        ensures
            m == self.norm_squared(),
    {
        let x = self.x as i128;
        let y = self.y as i128;
        assert(x * x <= 0x4000_0000_0000_0000 && y * y <= 0x4000_0000_0000_0000) by (nonlinear_arith)
            requires
                -0x8000_0000 <= x <= 0x7fff_ffff,
                -0x8000_0000 <= y <= 0x7fff_ffff,
        ;
        assert(x * x >= 0 && y * y >= 0) by (nonlinear_arith);
        x * x + y * y
    }
}

/// A point, displacement or per-axis factor in space.
#[derive(Clone, Copy, Debug, PartialEq, Eq, Structural)]
pub struct Vector3 {
    pub x: i32,
    pub y: i32,
    pub z: i32,
}

impl Vector3 {
    /// The vector with the given components.
    pub fn new(x: i32, y: i32, z: i32) -> (v: Vector3)
        ensures
            v == (Vector3 { x, y, z }),
    {
        Vector3 { x, y, z }
    }

    /// The null vector.
    pub fn zero() -> (v: Vector3)
        ensures
            v == (Vector3 { x: 0, y: 0, z: 0 }),
    {
        Vector3 { x: 0, y: 0, z: 0 }
    }

    /// One world unit along each axis.
    pub fn one() -> (v: Vector3)
        ensures
            v == (Vector3 { x: UNIT, y: UNIT, z: UNIT }),
    {
        Vector3 { x: UNIT, y: UNIT, z: UNIT }
    }

    /// Component-wise sum, each component held to the coordinate range.
    pub open spec fn spec_plus(self, other: Vector3) -> Vector3 {
        Vector3 {
            x: clamp_coord(self.x + other.x) as i32,
            y: clamp_coord(self.y + other.y) as i32,
            z: clamp_coord(self.z + other.z) as i32,
        }
    }

    /// Adds `other`, saturating at the ends of the coordinate range.
    pub fn plus(self, other: Vector3) -> (v: Vector3)
        ensures
            v == self.spec_plus(other),
    {
        Vector3 {
            x: clamp_to_coord(self.x as i128 + other.x as i128),
            y: clamp_to_coord(self.y as i128 + other.y as i128),
            z: clamp_to_coord(self.z as i128 + other.z as i128),
        }
    }

    /// The planar part of the vector.
    pub open spec fn spec_xy(self) -> Vector2 {
        Vector2 { x: self.x, y: self.y }
    }

    /// Drops the depth component.
    pub fn xy(self) -> (v: Vector2)
        ensures
            v == self.spec_xy(),
    {
        Vector2 { x: self.x, y: self.y }
    }
}

impl From<(i32, i32)> for Vector2 {
    fn from(val: (i32, i32)) -> (v: Vector2) {
        Vector2 { x: val.0, y: val.1 }
    }
}

impl FromSpecImpl<(i32, i32)> for Vector2 {
    open spec fn obeys_from_spec() -> bool {
        true
    }

    open spec fn from_spec(val: (i32, i32)) -> Vector2 {
        Vector2 { x: val.0, y: val.1 }
    }
}

impl From<(i32, i32, i32)> for Vector3 {
    fn from(val: (i32, i32, i32)) -> (v: Vector3) {
        Vector3 { x: val.0, y: val.1, z: val.2 }
    }
}

impl FromSpecImpl<(i32, i32, i32)> for Vector3 {
    open spec fn obeys_from_spec() -> bool {
        true
    }

    open spec fn from_spec(val: (i32, i32, i32)) -> Vector3 {
        Vector3 { x: val.0, y: val.1, z: val.2 }
    }
}

} // verus!
