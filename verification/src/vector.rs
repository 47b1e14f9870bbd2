//! Vectors of three `binary64` numbers.
use vstd::prelude::*;

use crate::ieee::Double;
use crate::params::ONE;

verus! {

/// A displacement or position, in meters.
#[derive(Clone, Copy, PartialEq, Eq, Structural, Debug)]
pub struct Vector {
    pub x: Double,
    pub y: Double,
    pub z: Double,
}

impl Vector {
    /// The same number on each axis.
    pub open spec fn even(v: Double) -> Vector {
        Vector { x: v, y: v, z: v }
    }

    /// The sum on each axis.
    pub open spec fn sum(self, other: Vector) -> Vector {
        Vector { x: self.x.sum(other.x), y: self.y.sum(other.y), z: self.z.sum(other.z) }
    }

    /// The difference on each axis.
    pub open spec fn difference(self, other: Vector) -> Vector {
        Vector {
            x: self.x.difference(other.x),
            y: self.y.difference(other.y),
            z: self.z.difference(other.z),
        }
    }

    /// Each component divided by the same number.
    pub open spec fn quotient(self, d: Double) -> Vector {
        Vector { x: self.x.quotient(d), y: self.y.quotient(d), z: self.z.quotient(d) }
    }

    /// Each component multiplied by the same number.
    pub open spec fn multiple(self, d: Double) -> Vector {
        Vector { x: self.x.product(d), y: self.y.product(d), z: self.z.product(d) }
    }

    /// The sum of the products of the components.
    pub open spec fn inner(self, other: Vector) -> Double {
        self.x.product(other.x).sum(self.y.product(other.y)).sum(self.z.product(other.z))
    }

    /// The vector product.
    pub open spec fn outer(self, other: Vector) -> Vector {
        Vector {
            x: self.y.product(other.z).difference(other.y.product(self.z)),
            y: self.z.product(other.x).difference(other.z.product(self.x)),
            z: self.x.product(other.y).difference(other.x.product(self.y)),
        }
    }

    /// The sum of the squares of the components.
    pub open spec fn square(self) -> Double {
        self.inner(self)
    }

    /// The Euclidean length.
    pub open spec fn norm(self) -> Double {
        self.square().root()
    }

    /// The vector of the same direction and of length one.
    pub open spec fn unit(self) -> Vector {
        self.multiple((Double { bits: ONE }).quotient(self.norm()))
    }

    /// On each axis the number between the bounds that is nearest.
    pub open spec fn confined(self, low: Vector, high: Vector) -> Vector {
        Vector {
            x: confined(self.x, low.x, high.x),
            y: confined(self.y, low.y, high.y),
            z: confined(self.z, low.z, high.z),
        }
    }

    /// The vector with these components.
    pub fn new(x: Double, y: Double, z: Double) -> (r: Vector)
        ensures
            r == (Vector { x, y, z }),
    {
        Vector { x, y, z }
    }

    /// The same number on each axis.
    pub fn splat(v: Double) -> (r: Vector)
        ensures
            r == Vector::even(v),
    {
        Vector { x: v, y: v, z: v }
    }

    /// Adds.
    pub fn plus(self, other: Vector) -> (r: Vector)
        ensures
            r == self.sum(other),
    {
        Vector { x: self.x.plus(other.x), y: self.y.plus(other.y), z: self.z.plus(other.z) }
    }

    /// Subtracts.
    pub fn minus(self, other: Vector) -> (r: Vector)
        ensures
            r == self.difference(other),
    {
        Vector { x: self.x.minus(other.x), y: self.y.minus(other.y), z: self.z.minus(other.z) }
    }

    /// Divides each component by `d`.
    pub fn over(self, d: Double) -> (r: Vector)
        ensures
            r == self.quotient(d),
    {
        Vector { x: self.x.over(d), y: self.y.over(d), z: self.z.over(d) }
    }

    /// Multiplies each component by `d`.
    pub fn times(self, d: Double) -> (r: Vector)
        ensures
            r == self.multiple(d),
    {
        Vector { x: self.x.times(d), y: self.y.times(d), z: self.z.times(d) }
    }

    /// The scalar product.
    pub fn dot(self, other: Vector) -> (r: Double)
        ensures
            r == self.inner(other),
    {
        self.x.times(other.x).plus(self.y.times(other.y)).plus(self.z.times(other.z))
    }

    /// The vector product.
    pub fn cross(self, other: Vector) -> (r: Vector)
        ensures
            r == self.outer(other),
    {
        Vector {
            x: self.y.times(other.z).minus(other.y.times(self.z)),
            y: self.z.times(other.x).minus(other.z.times(self.x)),
            z: self.x.times(other.y).minus(other.x.times(self.y)),
        }
    }

    /// The squared length.
    pub fn length_squared(self) -> (r: Double)
        ensures
            r == self.square(),
    {
        self.dot(self)
    }

    /// The length.
    pub fn length(self) -> (r: Double)
        ensures
            r == self.norm(),
    {
        self.length_squared().sqrt()
    }

    /// The vector of the same direction and of length one.
    pub fn normalize(self) -> (r: Vector)
        ensures
            r == self.unit(),
    {
        self.times(Double { bits: ONE }.over(self.length()))
    }

    /// Brings each component between the bounds.
    pub fn clamp(self, low: Vector, high: Vector) -> (r: Vector)
        ensures
            r == self.confined(low, high),
    {
        Vector {
            x: confine(self.x, low.x, high.x),
            y: confine(self.y, low.y, high.y),
            z: confine(self.z, low.z, high.z),
        }
    }
}

/// `v` raised to `low` unless it is above, then lowered to `high` unless it is below.
pub open spec fn confined(v: Double, low: Double, high: Double) -> Double {
    let raised = if low.less(v) {
        v
    } else {
        low
    };
    if raised.less(high) {
        raised
    } else {
        high
    }
}

fn confine(v: Double, low: Double, high: Double) -> (r: Double)
    ensures
        r == confined(v, low, high),
{
    let raised: Double = if v.gt(low) {
        v
    } else {
        low
    };
    if raised.lt(high) {
        raised
    } else {
        high
    }
}

} // verus!
