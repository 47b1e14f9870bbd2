//! Camera with an absolute galactic position.
//!
//! The camera stores its position exactly, in whole meters. Stars are rendered as a sky sphere:
//! each star is projected by its direction from the camera (its distance only modulates
//! brightness), so there is no dependence on galactic-scale near and far planes.
use vstd::prelude::*;

use crate::coord::{fits, whole_meters, Fixed, GalacticCoord};
use crate::ieee::Double;
use crate::maths::{evaluate, reliable, value_of, Elementary};
use crate::params::{HALF, ONE, ZERO};
use crate::quaternion::{rotation_about, rotation_of, view_axis, x_axis, y_axis, Quaternion};
use crate::render::projection::{Matrix, Projection};
use crate::vector::Vector;

verus! {

/// A free-flying 6DOF camera.
#[derive(Clone, Copy, PartialEq, Eq, Structural, Debug)]
pub struct Camera {
    /// Absolute position in the galaxy.
    pub position: GalacticCoord,
    /// Orientation (world-from-camera rotation).
    pub orientation: Quaternion,
    /// Vertical field of view, radians.
    pub fov_y: Double,
}

impl Default for Camera {
    fn default() -> (r: Camera)
        ensures
            r.position == GalacticCoord::at(0, 0, 0),
            r.orientation == Quaternion::still(),
            r.fov_y == (Double { bits: 0x3ff0_c152_382d_7365 /* 1.0471975511965976 */ }),
    {
        Camera {
            position: GalacticCoord::origin(),
            orientation: Quaternion::identity(),
            fov_y: Double { bits: 0x3ff0_c152_382d_7365 /* 1.0471975511965976 */ },
        }
    }
}

impl Camera {
    /// The camera turned by a yaw and then a pitch, in its own directions.
    #[verifier::opaque]
    pub open spec fn rotated<M: Fn(Elementary, Double, Double) -> Double>(
        self,
        maths: M,
        yaw: Double,
        pitch: Double,
    ) -> Camera {
        Camera {
            orientation: self.orientation.composed(rotation_of(maths, y_axis(), yaw)).composed(
                rotation_of(maths, x_axis(), pitch),
            ).unit(),
            ..self
        }
    }

    /// The camera rolled about its view axis.
    #[verifier::opaque]
    pub open spec fn rolled<M: Fn(Elementary, Double, Double) -> Double>(
        self,
        maths: M,
        angle: Double,
    ) -> Camera {
        Camera {
            orientation: self.orientation.composed(rotation_of(maths, view_axis(), angle)).unit(),
            ..self
        }
    }

    /// The camera moved by `local`, in its own directions, scaled by `speed`.
    pub open spec fn moved(self, local: Vector, speed: Double) -> Camera {
        Camera { position: self.destination(local, speed), ..self }
    }

    /// Where the camera is after moving by `local`, in its own directions, scaled by `speed`.
    #[verifier::opaque]
    pub open spec fn destination(self, local: Vector, speed: Double) -> GalacticCoord {
        let world = self.orientation.turned(local).multiple(speed);
        GalacticCoord::at(
            self.position.x.value() + whole_meters(world.x),
            self.position.y.value() + whole_meters(world.y),
            self.position.z.value() + whole_meters(world.z),
        )
    }

    /// The coordinates of [`Camera::destination`] fit.
    #[verifier::opaque]
    pub open spec fn can_move(self, local: Vector, speed: Double) -> bool {
        let world = self.orientation.turned(local).multiple(speed);
        &&& fits(self.position.x.value() + whole_meters(world.x))
        &&& fits(self.position.y.value() + whole_meters(world.y))
        &&& fits(self.position.z.value() + whole_meters(world.z))
    }

    /// Where the camera looks.
    pub fn forward(&self) -> (r: Vector)
        ensures
            r == self.orientation.turned(view_axis()),
    {
        self.orientation.turn(
            Vector::new(
                Double { bits: ZERO },
                Double { bits: ZERO },
                Double { bits: 0xbff0_0000_0000_0000 /* -1.0 */ },
            ),
        )
    }

    /// To the right of the camera.
    pub fn right(&self) -> (r: Vector)
        ensures
            r == self.orientation.turned(x_axis()),
    {
        self.orientation.turn(
            Vector::new(Double { bits: ONE }, Double { bits: ZERO }, Double { bits: ZERO }),
        )
    }

    /// Up from the camera.
    pub fn up(&self) -> (r: Vector)
        ensures
            r == self.orientation.turned(y_axis()),
    {
        self.orientation.turn(
            Vector::new(Double { bits: ZERO }, Double { bits: ONE }, Double { bits: ZERO }),
        )
    }

    /// The projection of a frame with these planes.
    #[verifier::opaque]
    pub open spec fn projected<M: Fn(Elementary, Double, Double) -> Double>(
        self,
        maths: M,
        aspect: Double,
        near: Double,
        far: Double,
    ) -> Projection {
        let zero = Double { bits: ZERO };
        let half = (Double { bits: HALF }).product(self.fov_y);
        Matrix::lens(
            value_of(maths, Elementary::Sin, half, zero),
            value_of(maths, Elementary::Cos, half, zero),
            aspect,
            near,
            far,
        ).composed(
            Matrix::looking(
                Vector::even(zero),
                self.orientation.turned(view_axis()),
                self.orientation.turned(y_axis()),
            ),
        ).narrowed()
    }

    /// The projection of the unit sky sphere.
    pub open spec fn sky_projection<M: Fn(Elementary, Double, Double) -> Double>(
        self,
        maths: M,
        aspect: Double,
    ) -> Projection {
        self.projected(maths, aspect, Double { bits: 0x3f84_7ae1_47ae_147b /* 0.01 */ }, Double { bits: 0x4024_0000_0000_0000 /* 10.0 */ })
    }

    /// View-projection matrix of the camera, at the origin, with the given planes.
    pub fn projection<M: Fn(Elementary, Double, Double) -> Double>(
        &self,
        maths: &M,
        aspect: Double,
        near: Double,
        far: Double,
    ) -> (r: Projection)
        requires
            reliable(*maths),
        ensures
            r == self.projected(*maths, aspect, near, far),
    {
        let zero: Double = Double { bits: ZERO };
        reveal(Camera::projected);
        let view: Matrix = Matrix::look_at(Vector::splat(zero), self.forward(), self.up());
        let half: Double = Double { bits: HALF }.times(self.fov_y);
        let sin: Double = evaluate(maths, Elementary::Sin, half, zero);
        let cos: Double = evaluate(maths, Elementary::Cos, half, zero);
        Matrix::perspective(sin, cos, aspect, near, far).times(&view).narrow()
    }

    /// View-projection matrix for the directional sky-sphere render.
    ///
    /// Stars are supplied as unit directions placed at radius 1, so the eye sits at the origin
    /// and near and far bracket that unit sphere. This removes all galactic-scale precision
    /// problems from the projection.
    pub fn view_proj<M: Fn(Elementary, Double, Double) -> Double>(
        &self,
        maths: &M,
        aspect: Double,
    ) -> (r: Projection)
        requires
            reliable(*maths),
        ensures
            r == self.sky_projection(*maths, aspect),
    {
        self.projection(maths, aspect, Double { bits: 0x3f84_7ae1_47ae_147b /* 0.01 */ }, Double { bits: 0x4024_0000_0000_0000 /* 10.0 */ })
    }

    /// Apply yaw/pitch deltas (radians) using local axes.
    ///
    /// Right-multiplying by local rotations avoids the drift that occurs when rotating about
    /// world axes derived from the current orientation. Roll is only introduced explicitly.
    pub fn rotate<M: Fn(Elementary, Double, Double) -> Double>(&mut self, maths: &M, yaw: Double, pitch: Double)
        requires
            reliable(*maths),
        ensures
            *final(self) == old(self).rotated(*maths, yaw, pitch),
    {
        reveal(Camera::rotated);
        let zero: Double = Double { bits: ZERO };
        let one: Double = Double { bits: ONE };
        let yaw_q: Quaternion = rotation_about(maths, Vector::new(zero, one, zero), yaw);
        let pitch_q: Quaternion = rotation_about(maths, Vector::new(one, zero, zero), pitch);
        self.orientation = self.orientation.times(yaw_q).times(pitch_q).normalize();
    }

    /// Roll about the local view axis (radians). Positive rolls clockwise.
    pub fn roll<M: Fn(Elementary, Double, Double) -> Double>(&mut self, maths: &M, angle: Double)
        requires
            reliable(*maths),
        ensures
            *final(self) == old(self).rolled(*maths, angle),
    {
        reveal(Camera::rolled);
        let zero: Double = Double { bits: ZERO };
        let axis: Vector = Vector::new(zero, zero, Double { bits: 0xbff0_0000_0000_0000 /* -1.0 */ });
        let roll_q: Quaternion = rotation_about(maths, axis, angle);
        self.orientation = self.orientation.times(roll_q).normalize();
    }

    /// Whether moving by a local-space delta scaled by `speed` meters ends at coordinates that
    /// fit.
    pub fn has_room(&self, local: Vector, speed: Double) -> (r: bool)
        ensures
            r == self.can_move(local, speed),
    {
        reveal(Camera::can_move);
        let world: Vector = self.orientation.turn(local).times(speed);
        let (x, y, z): (Fixed, Fixed, Fixed) = (
            Fixed::from_meters_f64(world.x),
            Fixed::from_meters_f64(world.y),
            Fixed::from_meters_f64(world.z),
        );
        self.position.x.raw().checked_add(x.raw()).is_some()
            && self.position.y.raw().checked_add(y.raw()).is_some()
            && self.position.z.raw().checked_add(z.raw()).is_some()
    }

    /// Move by a local-space delta scaled by `speed` meters.
    pub fn translate_local(&mut self, local: Vector, speed: Double)
        requires
            old(self).can_move(local, speed),
        ensures
            *final(self) == old(self).moved(local, speed),
    {
        reveal(Camera::destination);
        reveal(Camera::can_move);
        let world: Vector = self.orientation.turn(local).times(speed);
        self.position = self.position.offset_f64(world);
    }
}

} // verus!
