//! Rotations.
use vstd::prelude::*;

use crate::ieee::Double;
use crate::maths::{evaluate, reliable, value_of, Elementary};
use crate::params::{HALF, ONE, ZERO};
use crate::vector::Vector;

verus! {

/// A rotation.
#[derive(Clone, Copy, PartialEq, Eq, Structural, Debug)]
pub struct Quaternion {
    pub x: Double,
    pub y: Double,
    pub z: Double,
    pub w: Double,
}

impl Quaternion {
    /// The vector part.
    pub open spec fn axis(self) -> Vector {
        Vector { x: self.x, y: self.y, z: self.z }
    }

    /// The vector `v` rotated.
    pub open spec fn turned(self, v: Vector) -> Vector {
        let b = self.axis();
        let two = Double { bits: 0x4000_0000_0000_0000 /* 2.0 */ };
        v.multiple(self.w.product(self.w).difference(b.inner(b))).sum(
            b.multiple(v.inner(b).product(two)),
        ).sum(b.outer(v).multiple(self.w.product(two)))
    }

    /// The rotation `other` followed by `self`.
    pub open spec fn composed(self, other: Quaternion) -> Quaternion {
        let (a, b) = (self, other);
        Quaternion {
            x: a.w.product(b.x).sum(a.x.product(b.w)).sum(a.y.product(b.z)).difference(
                a.z.product(b.y),
            ),
            y: a.w.product(b.y).difference(a.x.product(b.z)).sum(a.y.product(b.w)).sum(
                a.z.product(b.x),
            ),
            z: a.w.product(b.z).sum(a.x.product(b.y)).difference(a.y.product(b.x)).sum(
                a.z.product(b.w),
            ),
            w: a.w.product(b.w).difference(a.x.product(b.x)).difference(
                a.y.product(b.y),
            ).difference(a.z.product(b.z)),
        }
    }

    /// The rotation scaled to length one.
    pub open spec fn unit(self) -> Quaternion {
        let square = self.x.product(self.x).sum(self.y.product(self.y)).sum(
            self.z.product(self.z),
        ).sum(self.w.product(self.w));
        let f = (Double { bits: ONE }).quotient(square.root());
        Quaternion {
            x: self.x.product(f),
            y: self.y.product(f),
            z: self.z.product(f),
            w: self.w.product(f),
        }
    }

    /// The rotation about `axis` by an angle whose half has the sine `sin` and the cosine `cos`.
    pub open spec fn about(axis: Vector, sin: Double, cos: Double) -> Quaternion {
        let v = axis.multiple(sin);
        Quaternion { x: v.x, y: v.y, z: v.z, w: cos }
    }

    /// No rotation.
    pub open spec fn still() -> Quaternion {
        Quaternion {
            x: Double { bits: ZERO },
            y: Double { bits: ZERO },
            z: Double { bits: ZERO },
            w: Double { bits: ONE },
        }
    }

    /// No rotation.
    pub fn identity() -> (r: Quaternion)
        ensures
            r == Quaternion::still(),
    {
        Quaternion {
            x: Double { bits: ZERO },
            y: Double { bits: ZERO },
            z: Double { bits: ZERO },
            w: Double { bits: ONE },
        }
    }

    /// Rotates `v`.
    pub fn turn(self, v: Vector) -> (r: Vector)
        ensures
            r == self.turned(v),
    {
        let b: Vector = Vector::new(self.x, self.y, self.z);
        let two: Double = Double { bits: 0x4000_0000_0000_0000 /* 2.0 */ };
        v.times(self.w.times(self.w).minus(b.dot(b))).plus(b.times(v.dot(b).times(two))).plus(
            b.cross(v).times(self.w.times(two)),
        )
    }

    /// The rotation `other` followed by `self`.
    pub fn times(self, other: Quaternion) -> (r: Quaternion)
        ensures
            r == self.composed(other),
    {
        let (a, b): (Quaternion, Quaternion) = (self, other);
        Quaternion {
            x: a.w.times(b.x).plus(a.x.times(b.w)).plus(a.y.times(b.z)).minus(a.z.times(b.y)),
            y: a.w.times(b.y).minus(a.x.times(b.z)).plus(a.y.times(b.w)).plus(a.z.times(b.x)),
            z: a.w.times(b.z).plus(a.x.times(b.y)).minus(a.y.times(b.x)).plus(a.z.times(b.w)),
            w: a.w.times(b.w).minus(a.x.times(b.x)).minus(a.y.times(b.y)).minus(
                a.z.times(b.z),
            ),
        }
    }

    /// The rotation scaled to length one.
    pub fn normalize(self) -> (r: Quaternion)
        ensures
            r == self.unit(),
    {
        let square: Double = self.x.times(self.x).plus(self.y.times(self.y)).plus(
            self.z.times(self.z),
        ).plus(self.w.times(self.w));
        let f: Double = Double { bits: ONE }.over(square.sqrt());
        Quaternion {
            x: self.x.times(f),
            y: self.y.times(f),
            z: self.z.times(f),
            w: self.w.times(f),
        }
    }

    /// The rotation about `axis` by an angle whose half has the sine `sin` and the cosine `cos`.
    pub fn about_axis(axis: Vector, sin: Double, cos: Double) -> (r: Quaternion)
        ensures
            r == Quaternion::about(axis, sin, cos),
    {
        let v: Vector = axis.times(sin);
        Quaternion { x: v.x, y: v.y, z: v.z, w: cos }
    }
}

/// The first axis.
pub open spec fn x_axis() -> Vector {
    Vector { x: Double { bits: ONE }, y: Double { bits: ZERO }, z: Double { bits: ZERO } }
}

/// The second axis.
pub open spec fn y_axis() -> Vector {
    Vector { x: Double { bits: ZERO }, y: Double { bits: ONE }, z: Double { bits: ZERO } }
}

/// Against the third axis: where an unrotated camera looks.
pub open spec fn view_axis() -> Vector {
    Vector {
        x: Double { bits: ZERO },
        y: Double { bits: ZERO },
        z: Double { bits: 0xbff0_0000_0000_0000 /* -1.0 */ },
    }
}

/// The rotation about `axis` by `angle` radians.
pub open spec fn rotation_of<M: Fn(Elementary, Double, Double) -> Double>(
    maths: M,
    axis: Vector,
    angle: Double,
) -> Quaternion {
    let zero = Double { bits: ZERO };
    let half = angle.product(Double { bits: HALF });
    Quaternion::about(
        axis,
        value_of(maths, Elementary::Sin, half, zero),
        value_of(maths, Elementary::Cos, half, zero),
    )
}

/// The rotation about `axis` by `angle` radians.
pub fn rotation_about<M: Fn(Elementary, Double, Double) -> Double>(maths: &M, axis: Vector, angle: Double) -> (r: Quaternion)
    requires
        reliable(*maths),
    ensures
        r == rotation_of(*maths, axis, angle),
{
    let zero: Double = Double { bits: ZERO };
    let half: Double = angle.times(Double { bits: HALF });
    let sin: Double = evaluate(maths, Elementary::Sin, half, zero);
    let cos: Double = evaluate(maths, Elementary::Cos, half, zero);
    Quaternion::about_axis(axis, sin, cos)
}

} // verus!
