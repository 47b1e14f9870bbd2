//! Star billboards.
use vstd::prelude::*;

use crate::coord::{GalacticCoord, METERS_PER_PARSEC};
use crate::ieee::{Double, Single};
use crate::maths::{evaluate, reliable, value_of, Elementary};
use crate::octree::VisibleStar;
use crate::params::{Star, ONE, ZERO};
use crate::render::camera::Camera;
use crate::render::projection::{narrow, narrowed, Projection};
use crate::vector::Vector;

verus! {

/// Per-star GPU instance data (unit direction from the camera).
#[derive(Clone, Copy, PartialEq, Eq, Debug)]
pub struct InstanceRaw {
    pub dir: [Single; 3],
    pub color: [Single; 3],
    pub intensity: Single,
    pub core_px: Single,
}

/// The power of ten that is the flux of a star of apparent magnitude `app_mag`, that of a star
/// at the limit being one.
pub open spec fn flux_power(app_mag: Single, mag_limit: Single) -> Single {
    mag_limit.difference(app_mag).product(Single { bits: 0x3ecc_cccd /* 0.4 */ }).clamped(Single { bits: 0xc080_0000 /* -4.0 */ }, Single { bits: 0x4080_0000 /* 4.0 */ })
}

/// The display intensity of a flux.
pub open spec fn intensity_at(flux: Single) -> Single {
    flux.product(Single { bits: 0x3ca3_d70a /* 0.02 */ }).clamped(Single { bits: 0x0000_0000 /* 0.0 */ }, Single { bits: 0x4080_0000 /* 4.0 */ })
}

/// The linear display intensity of an apparent magnitude.
pub open spec fn intensity_of<M: Fn(Elementary, Double, Double) -> Double>(
    maths: M,
    app_mag: Single,
    mag_limit: Single,
) -> Single {
    intensity_at(
        value_of(
            maths,
            Elementary::PowSingle,
            (Single { bits: 0x4120_0000 /* 10.0 */ }).widened(),
            flux_power(app_mag, mag_limit).widened(),
        ).narrowed(),
    )
}

/// The power of ten that is the flux of a star of apparent magnitude `app_mag`.
pub fn flux_exponent(app_mag: Single, mag_limit: Single) -> (r: Single)
    ensures
        r == flux_power(app_mag, mag_limit),
{
    mag_limit.minus(app_mag).times(Single { bits: 0x3ecc_cccd /* 0.4 */ }).clamp(Single { bits: 0xc080_0000 /* -4.0 */ }, Single { bits: 0x4080_0000 /* 4.0 */ })
}

/// The display intensity of a flux.
pub fn flux_to_intensity(flux: Single) -> (r: Single)
    ensures
        r == intensity_at(flux),
{
    flux.times(Single { bits: 0x3ca3_d70a /* 0.02 */ }).clamp(Single { bits: 0x0000_0000 /* 0.0 */ }, Single { bits: 0x4080_0000 /* 4.0 */ })
}

/// Convert apparent magnitude to a linear display intensity.
///
/// Magnitudes are logarithmic (each 5 mag = factor 100 in flux). Bright stars glow strongly and
/// the `mag_limit` fades to near zero.
pub fn magnitude_to_intensity<M: Fn(Elementary, Double, Double) -> Double>(
    maths: &M,
    app_mag: Single,
    mag_limit: Single,
) -> (r: Single)
    requires
        reliable(*maths),
    ensures
        r == intensity_of(*maths, app_mag, mag_limit),
{
    let x: Single = flux_exponent(app_mag, mag_limit);
    let flux: Double = evaluate(
        maths,
        Elementary::PowSingle,
        Single { bits: 0x4120_0000 /* 10.0 */ }.to_double(),
        x.to_double(),
    );
    flux_to_intensity(flux.to_single())
}

/// Apparent magnitude of a star for the renderer, from the decimal logarithm of its distance in
/// parsecs.
pub open spec fn photometric_at(abs_mag: Single, log: Double) -> Single {
    abs_mag.sum((Single { bits: 0x40a0_0000 /* 5.0 */ }).product(log.narrowed().difference(Single { bits: 0x3f80_0000 /* 1.0 */ })))
}

/// Apparent magnitude of a star for the renderer, from the decimal logarithm of its distance in
/// parsecs.
pub fn photometric_magnitude(abs_mag: Single, log: Double) -> (r: Single)
    ensures
        r == photometric_at(abs_mag, log),
{
    abs_mag.plus(Single { bits: 0x40a0_0000 /* 5.0 */ }.times(log.to_single().minus(Single { bits: 0x3f80_0000 /* 1.0 */ })))
}

/// The brightness with which a star is drawn, seen from `distance_m` meters: its intensity
/// times its fade weight.
pub open spec fn brightness<M: Fn(Elementary, Double, Double) -> Double>(
    maths: M,
    v: VisibleStar,
    distance_m: Double,
    mag_limit: Single,
) -> Single {
    let d_pc = distance_m.quotient(Double { bits: METERS_PER_PARSEC });
    let log = value_of(maths, Elementary::Log10, d_pc, Double { bits: ZERO });
    intensity_of(maths, photometric_at(v.star.abs_mag, log), mag_limit).product(v.fade)
}

/// The direction of `pos` seen from `eye`.
pub open spec fn direction(pos: GalacticCoord, eye: GalacticCoord) -> [Single; 3] {
    narrowed(pos.relative(eye).quotient(pos.relative(eye).norm()))
}

/// The instance of a visible star, if it is drawn.
///
/// Culling and photometry are evaluated from the observer; the final billboard direction is
/// from the render camera, so that detached camera motion can inspect the frozen
/// observer-selected set. A star within a meter of either has no direction and is left out.
pub open spec fn instance_of<M: Fn(Elementary, Double, Double) -> Double>(
    maths: M,
    v: VisibleStar,
    eye: GalacticCoord,
    observer: GalacticCoord,
    observer_view: Projection,
    mag_limit: Single,
) -> Option<InstanceRaw> {
    let one = Double { bits: ONE };
    let seen = v.star.pos.relative(observer).norm();
    let drawn = v.star.pos.relative(eye).norm();
    let intensity = brightness(maths, v, seen, mag_limit);
    if seen.less(one) || !observer_view.shows(direction(v.star.pos, observer)) || intensity.at_most(
        Single { bits: 0x0000_0000 /* 0.0 */ },
    ) || drawn.less(one) {
        None
    } else {
        Some(
            InstanceRaw {
                dir: direction(v.star.pos, eye),
                color: v.star.color,
                intensity,
                core_px: Single { bits: 0x3f19_999a /* 0.6 */ },
            },
        )
    }
}

/// The instances of several visible stars, in order.
pub open spec fn instances_of<M: Fn(Elementary, Double, Double) -> Double>(
    maths: M,
    stars: Seq<VisibleStar>,
    eye: GalacticCoord,
    observer: GalacticCoord,
    observer_view: Projection,
    mag_limit: Single,
) -> Seq<InstanceRaw>
    decreases stars.len(),
{
    if stars.len() == 0 {
        Seq::empty()
    } else {
        let before = instances_of(maths, stars.drop_last(), eye, observer, observer_view, mag_limit);
        match instance_of(maths, stars.last(), eye, observer, observer_view, mag_limit) {
            Some(i) => before.push(i),
            None => before,
        }
    }
}

/// The instance of a visible star, if it is drawn.
fn build_instance<M: Fn(Elementary, Double, Double) -> Double>(
    maths: &M,
    v: &VisibleStar,
    eye: GalacticCoord,
    observer: GalacticCoord,
    observer_view: &Projection,
    mag_limit: Single,
) -> (r: Option<InstanceRaw>)
    requires
        reliable(*maths),
        v.star.pos.measurable_from(observer),
        v.star.pos.measurable_from(eye),
    ensures
        r == instance_of(*maths, *v, eye, observer, *observer_view, mag_limit),
{
    let one: Double = Double { bits: ONE };
    let s: Star = v.star;
    let observer_rel: Vector = s.pos.relative_f64(observer);
    let observer_dist_m: Double = observer_rel.length();
    if observer_dist_m.lt(one) {
        // Star essentially at the observer: it has no direction.
        return None;
    }
    let observer_dir: [Single; 3] = narrow(observer_rel.over(observer_dist_m));
    if !observer_view.is_shown(observer_dir) {
        return None;
    }
    let d_pc: Double = observer_dist_m.over(Double { bits: METERS_PER_PARSEC });
    let log: Double = evaluate(maths, Elementary::Log10, d_pc, Double { bits: ZERO });
    let app_mag: Single = photometric_magnitude(s.abs_mag, log);
    let intensity: Single = magnitude_to_intensity(maths, app_mag, mag_limit).times(v.fade);
    if intensity.le(Single { bits: 0x0000_0000 /* 0.0 */ }) {
        return None;
    }
    let render_rel: Vector = s.pos.relative_f64(eye);
    let render_dist_m: Double = render_rel.length();
    if render_dist_m.lt(one) {
        // Star essentially at the render camera.
        return None;
    }
    Some(
        InstanceRaw {
            dir: narrow(render_rel.over(render_dist_m)),
            color: s.color,
            intensity,
            core_px: Single { bits: 0x3f19_999a /* 0.6 */ },
        },
    )
}

/// Everything needed to draw one frame of stars.
pub struct FrameInput<'a> {
    pub stars: &'a [VisibleStar],
    pub camera: &'a Camera,
    pub mag_limit: Single,
}

impl<'a> FrameInput<'a> {
    /// Every star can be measured from the camera and from `observer`.
    pub open spec fn measurable_by(self, observer: GalacticCoord) -> bool {
        forall|i: int|
            0 <= i < self.stars@.len() ==> (#[trigger] self.stars@[i]).star.pos.measurable_from(
                observer,
            ) && self.stars@[i].star.pos.measurable_from(self.camera.position)
    }

    /// The instances of the frame's stars.
    pub open spec fn instances<M: Fn(Elementary, Double, Double) -> Double>(
        self,
        maths: M,
        observer: GalacticCoord,
        observer_view_proj: Projection,
    ) -> Seq<InstanceRaw> {
        instances_of(
            maths,
            self.stars@,
            self.camera.position,
            observer,
            observer_view_proj,
            self.mag_limit,
        )
    }
}

/// Build the instance buffer for a frame.
pub fn build_instances<M: Fn(Elementary, Double, Double) -> Double>(
    maths: &M,
    frame: &FrameInput<'_>,
    observer: GalacticCoord,
    observer_view_proj: &Projection,
) -> (raw: Vec<InstanceRaw>)
    requires
        reliable(*maths),
        frame.measurable_by(observer),
    ensures
        raw@ == frame.instances(*maths, observer, *observer_view_proj),
{
    let stars: &[VisibleStar] = frame.stars;
    let eye: GalacticCoord = frame.camera.position;
    let mut raw: Vec<InstanceRaw> = Vec::with_capacity(stars.len());
    let mut i: usize = 0;
    assert(stars@.take(0) =~= Seq::empty());
    while i < stars.len()
        invariant
            i <= stars.len(),
            reliable(*maths),
            stars@ == frame.stars@,
            eye == frame.camera.position,
            frame.measurable_by(observer),
            raw@ == instances_of(
                *maths,
                stars@.take(i as int),
                eye,
                observer,
                *observer_view_proj,
                frame.mag_limit,
            ),
        decreases stars.len() - i,
    {
        assert(stars@.take(i + 1).drop_last() =~= stars@.take(i as int));
        assert(stars@[i as int].star.pos.measurable_from(observer));
        if let Some(instance) = build_instance(
            maths,
            &stars[i],
            eye,
            observer,
            observer_view_proj,
            frame.mag_limit,
        ) {
            raw.push(instance);
        }
        i = i + 1;
    }
    assert(stars@.take(stars@.len() as int) =~= stars@);
    raw
}

/// What a frame hands to the pass that draws the star billboards.
pub struct StarCallback {
    pub view_proj: Projection,
    pub viewport: [Single; 2],
    pub px_scale: Single,
    pub instances: Vec<InstanceRaw>,
}

impl StarCallback {
    /// Prepare per-frame star data. `viewport` is the widget size in physical pixels.
    pub fn new<M: Fn(Elementary, Double, Double) -> Double>(
        maths: &M,
        frame: &FrameInput<'_>,
        view_proj: Projection,
        observer: GalacticCoord,
        observer_view_proj: Projection,
        viewport: [Single; 2],
        px_scale: Single,
    ) -> (r: StarCallback)
        requires
            reliable(*maths),
            frame.measurable_by(observer),
        ensures
            r.view_proj == view_proj,
            r.viewport == viewport,
            r.px_scale == px_scale,
            r.instances@ == frame.instances(*maths, observer, observer_view_proj),
    {
        let instances: Vec<InstanceRaw> = build_instances(
            maths,
            frame,
            observer,
            &observer_view_proj,
        );
        StarCallback { view_proj, viewport, px_scale, instances }
    }

    /// Number of star instances that will be drawn.
    pub fn instance_count(&self) -> (r: u32)
        ensures
            r == self.instances@.len() as u32,
    {
        self.instances.len() as u32
    }
}

} // verus!
