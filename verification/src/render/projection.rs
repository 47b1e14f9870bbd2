//! View and projection matrices.
use vstd::prelude::*;

use crate::ieee::{Double, Single};
use crate::params::{ONE, ZERO};
use crate::vector::Vector;

verus! {

/// A column of a matrix.
#[derive(Clone, Copy, PartialEq, Eq, Structural, Debug)]
pub struct Column {
    pub x: Double,
    pub y: Double,
    pub z: Double,
    pub w: Double,
}

/// A matrix of four rows: its columns.
#[derive(Clone, Copy, PartialEq, Eq, Structural, Debug)]
pub struct Matrix {
    pub x: Column,
    pub y: Column,
    pub z: Column,
    pub w: Column,
}

impl Column {
    /// Each component multiplied by the same number.
    pub open spec fn multiple(self, d: Double) -> Column {
        Column {
            x: self.x.product(d),
            y: self.y.product(d),
            z: self.z.product(d),
            w: self.w.product(d),
        }
    }

    /// The sum of the components.
    pub open spec fn sum(self, other: Column) -> Column {
        Column {
            x: self.x.sum(other.x),
            y: self.y.sum(other.y),
            z: self.z.sum(other.z),
            w: self.w.sum(other.w),
        }
    }

    /// The column in `binary32`.
    pub open spec fn narrowed(self) -> [Single; 4] {
        [self.x.narrowed(), self.y.narrowed(), self.z.narrowed(), self.w.narrowed()]
    }

    /// The column with these components.
    pub fn new(x: Double, y: Double, z: Double, w: Double) -> (r: Column)
        ensures
            r == (Column { x, y, z, w }),
    {
        Column { x, y, z, w }
    }

    /// Multiplies each component by `d`.
    pub fn times(self, d: Double) -> (r: Column)
        ensures
            r == self.multiple(d),
    {
        Column::new(self.x.times(d), self.y.times(d), self.z.times(d), self.w.times(d))
    }

    /// Adds `other`.
    pub fn plus(self, other: Column) -> (r: Column)
        ensures
            r == self.sum(other),
    {
        Column::new(
            self.x.plus(other.x),
            self.y.plus(other.y),
            self.z.plus(other.z),
            self.w.plus(other.w),
        )
    }

    /// The column in `binary32`.
    pub fn narrow(self) -> (r: [Single; 4])
        ensures
            r == self.narrowed(),
    {
        [self.x.to_single(), self.y.to_single(), self.z.to_single(), self.w.to_single()]
    }
}

impl Matrix {
    /// The view of an eye that looks at `center`: right, up and backwards become the axes.
    pub open spec fn looking(eye: Vector, center: Vector, up: Vector) -> Matrix {
        let (zero, one) = (Double { bits: ZERO }, Double { bits: ONE });
        let f = center.difference(eye).unit();
        let s = f.outer(up).unit();
        let u = s.outer(f);
        Matrix {
            x: Column { x: s.x, y: u.x, z: f.x.opposite(), w: zero },
            y: Column { x: s.y, y: u.y, z: f.y.opposite(), w: zero },
            z: Column { x: s.z, y: u.z, z: f.z.opposite(), w: zero },
            w: Column {
                x: eye.inner(s).opposite(),
                y: eye.inner(u).opposite(),
                z: eye.inner(f),
                w: one,
            },
        }
    }

    /// A perspective projection with depths from zero to one. `sin` and `cos` are of half the
    /// vertical angle.
    pub open spec fn lens(sin: Double, cos: Double, aspect: Double, near: Double, far: Double) -> Matrix {
        let zero = Double { bits: ZERO };
        let h = cos.quotient(sin);
        let r = far.quotient(near.difference(far));
        Matrix {
            x: Column { x: h.quotient(aspect), y: zero, z: zero, w: zero },
            y: Column { x: zero, y: h, z: zero, w: zero },
            z: Column { x: zero, y: zero, z: r, w: Double { bits: 0xbff0_0000_0000_0000 /* -1.0 */ } },
            w: Column { x: zero, y: zero, z: r.product(near), w: zero },
        }
    }

    /// The matrix applied to a column.
    pub open spec fn applied(self, c: Column) -> Column {
        self.x.multiple(c.x).sum(self.y.multiple(c.y)).sum(self.z.multiple(c.z)).sum(
            self.w.multiple(c.w),
        )
    }

    /// The product of two matrices: `other` first.
    pub open spec fn composed(self, other: Matrix) -> Matrix {
        Matrix {
            x: self.applied(other.x),
            y: self.applied(other.y),
            z: self.applied(other.z),
            w: self.applied(other.w),
        }
    }

    /// The matrix in `binary32`.
    pub open spec fn narrowed(self) -> Projection {
        Projection {
            x: self.x.narrowed(),
            y: self.y.narrowed(),
            z: self.z.narrowed(),
            w: self.w.narrowed(),
        }
    }

    /// The view of an eye that looks at `center`.
    pub fn look_at(eye: Vector, center: Vector, up: Vector) -> (r: Matrix)
        ensures
            r == Matrix::looking(eye, center, up),
    {
        let (zero, one): (Double, Double) = (Double { bits: ZERO }, Double { bits: ONE });
        let f: Vector = center.minus(eye).normalize();
        let s: Vector = f.cross(up).normalize();
        let u: Vector = s.cross(f);
        Matrix {
            x: Column::new(s.x, u.x, f.x.negated(), zero),
            y: Column::new(s.y, u.y, f.y.negated(), zero),
            z: Column::new(s.z, u.z, f.z.negated(), zero),
            w: Column::new(eye.dot(s).negated(), eye.dot(u).negated(), eye.dot(f), one),
        }
    }

    /// A perspective projection with depths from zero to one.
    pub fn perspective(sin: Double, cos: Double, aspect: Double, near: Double, far: Double) -> (r: Matrix)
        ensures
            r == Matrix::lens(sin, cos, aspect, near, far),
    {
        let zero: Double = Double { bits: ZERO };
        let h: Double = cos.over(sin);
        let r: Double = far.over(near.minus(far));
        Matrix {
            x: Column::new(h.over(aspect), zero, zero, zero),
            y: Column::new(zero, h, zero, zero),
            z: Column::new(zero, zero, r, Double { bits: 0xbff0_0000_0000_0000 /* -1.0 */ }),
            w: Column::new(zero, zero, r.times(near), zero),
        }
    }

    /// The matrix applied to a column.
    pub fn apply(&self, c: Column) -> (r: Column)
        ensures
            r == self.applied(c),
    {
        self.x.times(c.x).plus(self.y.times(c.y)).plus(self.z.times(c.z)).plus(
            self.w.times(c.w),
        )
    }

    /// The product of two matrices: `other` first.
    pub fn times(&self, other: &Matrix) -> (r: Matrix)
        ensures
            r == self.composed(*other),
    {
        Matrix {
            x: self.apply(other.x),
            y: self.apply(other.y),
            z: self.apply(other.z),
            w: self.apply(other.w),
        }
    }

    /// The matrix in `binary32`.
    pub fn narrow(&self) -> (r: Projection)
        ensures
            r == self.narrowed(),
    {
        Projection {
            x: self.x.narrow(),
            y: self.y.narrow(),
            z: self.z.narrow(),
            w: self.w.narrow(),
        }
    }
}

/// A projection: the four columns of its matrix.
#[derive(Clone, Copy, PartialEq, Eq, Debug)]
pub struct Projection {
    pub x: [Single; 4],
    pub y: [Single; 4],
    pub z: [Single; 4],
    pub w: [Single; 4],
}

/// A vector in `binary32`.
pub open spec fn narrowed(v: Vector) -> [Single; 3] {
    [v.x.narrowed(), v.y.narrowed(), v.z.narrowed()]
}

/// A vector in `binary32`.
pub fn narrow(v: Vector) -> (r: [Single; 3])
    ensures
        r == narrowed(v),
{
    [v.x.to_single(), v.y.to_single(), v.z.to_single()]
}

impl Projection {
    /// The projection that changes nothing.
    pub open spec fn unchanged() -> Projection {
        let (zero, one) = (Single { bits: 0x0000_0000 /* 0.0 */ }, Single { bits: 0x3f80_0000 /* 1.0 */ });
        Projection {
            x: [one, zero, zero, zero],
            y: [zero, one, zero, zero],
            z: [zero, zero, one, zero],
            w: [zero, zero, zero, one],
        }
    }

    /// The projection that changes nothing.
    pub fn identity() -> (r: Projection)
        ensures
            r == Projection::unchanged(),
    {
        let (zero, one): (Single, Single) = (Single { bits: 0x0000_0000 /* 0.0 */ }, Single { bits: 0x3f80_0000 /* 1.0 */ });
        Projection {
            x: [one, zero, zero, zero],
            y: [zero, one, zero, zero],
            z: [zero, zero, one, zero],
            w: [zero, zero, zero, one],
        }
    }

    /// Coordinate `i` of the point `p` in clip space.
    pub open spec fn clip(self, p: [Single; 3], i: int) -> Single {
        self.x@[i].product(p@[0]).sum(self.y@[i].product(p@[1])).sum(
            self.z@[i].product(p@[2]),
        ).sum(self.w@[i].product(Single { bits: 0x3f80_0000 /* 1.0 */ }))
    }

    /// Coordinate `i` of the point `p` in clip space.
    pub fn project(&self, p: [Single; 3], i: usize) -> (r: Single)
        requires
            i < 4,
        ensures
            r == self.clip(p, i as int),
    {
        let (a, b, c): (Single, Single, Single) = (p[0], p[1], p[2]);
        self.x[i].times(a).plus(self.y[i].times(b)).plus(self.z[i].times(c)).plus(
            self.w[i].times(Single { bits: 0x3f80_0000 /* 1.0 */ }),
        )
    }

    /// The direction `p` is in front of the camera and, with a small margin, inside its
    /// viewport.
    pub open spec fn shows(self, p: [Single; 3]) -> bool {
        let w = self.clip(p, 3);
        let inv_w = (Single { bits: 0x3f80_0000 /* 1.0 */ }).quotient(w);
        let edge = (Single { bits: 0x3f80_0000 /* 1.0 */ }).sum(Single { bits: 0x3d4c_cccd /* 0.05 */ });
        &&& !w.at_most(Single { bits: 0x0000_0000 /* 0.0 */ })
        &&& !edge.less(self.clip(p, 0).product(inv_w).magnitude())
        &&& !edge.less(self.clip(p, 1).product(inv_w).magnitude())
    }

    /// Whether the direction `p` is inside the viewport.
    pub fn is_shown(&self, p: [Single; 3]) -> (r: bool)
        ensures
            r == self.shows(p),
    {
        let w: Single = self.project(p, 3);
        if w.le(Single { bits: 0x0000_0000 /* 0.0 */ }) {
            return false;
        }
        let inv_w: Single = Single { bits: 0x3f80_0000 /* 1.0 */ }.over(w);
        let edge: Single = Single { bits: 0x3f80_0000 /* 1.0 */ }.plus(Single { bits: 0x3d4c_cccd /* 0.05 */ });
        let ndc_x: Single = self.project(p, 0).times(inv_w);
        let ndc_y: Single = self.project(p, 1).times(inv_w);
        !(ndc_x.abs().gt(edge) || ndc_y.abs().gt(edge))
    }
}

} // verus!
