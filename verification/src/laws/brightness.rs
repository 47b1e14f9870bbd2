//! Laws of brightness: from a star's distance to how it is drawn.
use vstd::arithmetic::power2::*;
use vstd::prelude::*;

use crate::coord::METERS_PER_PARSEC;
use crate::ieee::accuracy::{
    lemma_double_literal, lemma_quotient_relative, lemma_single_product_relative, near, size,
};
use crate::ieee::{Double, Single};
use crate::laws::photometry::law_photometric_magnitude_follows_the_distance;
use crate::laws::stellar::{
    law_flux_follows_the_magnitude, law_intensity_is_a_fiftieth_of_the_flux,
};
use crate::maths::{value_of, Elementary};
use crate::octree::VisibleStar;
use crate::params::ZERO;
use crate::render::stars::{brightness, flux_power, intensity_at, photometric_at};

verus! {

/// The steps from a distance to a brightness: the distance in parsecs, its logarithm, the apparent
/// magnitude, the power of ten that is the flux, the flux, and the intensity.
pub ghost struct Steps {
    pub parsecs: Double,
    pub log: Double,
    pub magnitude: Single,
    pub power: Single,
    pub flux: Single,
    pub intensity: Single,
}

/// How a star is drawn follows from its distance, step by step: the distance in parsecs, the
/// distance modulus, two fifths of what it is brighter than the limit, that power of ten, a
/// fiftieth of it up to four, and all that times its fade weight.
pub proof fn law_brightness_follows_the_distance<M: Fn(Elementary, Double, Double) -> Double>(
    maths: M,
    v: VisibleStar,
    distance_m: Double,
    mag_limit: Single,
) -> (r: Steps)
    requires
        distance_m.finite(),
        0 <= distance_m.units() <= pow2(1300),
        v.star.abs_mag.finite(),
        size(v.star.abs_mag.units()) <= 400 * pow2(149),
        mag_limit.finite(),
        size(mag_limit.units()) <= 1000 * pow2(149),
        v.fade.finite(),
        0 <= v.fade.units() <= pow2(149),
    ensures
        ({
            let (one, u, parsec) = (
                pow2(149) as int,
                pow2(1074) as int,
                (Double { bits: METERS_PER_PARSEC }).units(),
            );
            let d = 2 * (mag_limit.units() - r.magnitude.units());
            let shown = brightness(maths, v, distance_m, mag_limit);
            &&& r.parsecs.finite()
            &&& size(r.parsecs.units() * parsec - distance_m.units() * u) * pow2(53)
                <= distance_m.units() * u + pow2(53) * parsec
            &&& r.log == value_of(maths, Elementary::Log10, r.parsecs, Double { bits: ZERO })
            &&& r.flux == value_of(
                maths,
                Elementary::PowSingle,
                (Single { bits: 0x4120_0000 /* 10.0 */ }).widened(),
                r.power.widened(),
            ).narrowed()
            &&& r.log.finite() && size(r.log.units()) <= 100 * u ==> {
                &&& r.magnitude.finite()
                &&& near(
                    r.magnitude.units() * pow2(925),
                    v.star.abs_mag.units() * pow2(925) + 5 * (r.log.units() - u),
                    (pow2(139) * pow2(925)) as int,
                )
                &&& r.power.finite()
                &&& size(
                    5 * r.power.units() - (if d > 20 * one {
                        20 * one
                    } else if d < -(20 * one) {
                        -(20 * one)
                    } else {
                        d
                    }),
                ) <= 5 * pow2(136)
            }
            &&& r.flux.finite() && 0 <= r.flux.units() <= pow2(170) ==> {
                &&& r.intensity.finite()
                &&& size(
                    50 * r.intensity.units() - (if r.flux.units() > 200 * one {
                        200 * one
                    } else {
                        r.flux.units()
                    }),
                ) * pow2(20) <= r.flux.units() + pow2(30)
                &&& shown.finite()
                &&& size(shown.units() * one - r.intensity.units() * v.fade.units()) * pow2(24)
                    <= size(r.intensity.units() * v.fade.units()) + pow2(24) * one
            }
        }),
{
    let (one, u, parsec) = (pow2(149) as int, pow2(1074) as int, Double { bits: METERS_PER_PARSEC });
    lemma2_to64();
    lemma2_to64_rest();
    lemma_pow2_pos(149);
    lemma_pow2_pos(1074);
    lemma_pow2_pos(925);
    lemma_double_literal(parsec, 0x1b_6804_be57_27a2, 1076);
    lemma_pow2_strictly_increases(1074, 1076);
    assert(parsec.units() >= u) by (nonlinear_arith)
        requires
            parsec.units() == 0x1b_6804_be57_27a2 * pow2(1076),
            u <= pow2(1076),
            u > 0,
    ;
    lemma_pow2_strictly_increases(1300, 2000);
    assert(distance_m.units() * pow2(1074) <= pow2(2000) * parsec.units()) by (nonlinear_arith)
        requires
            0 <= distance_m.units() <= pow2(2000),
            0 < pow2(1074) <= parsec.units(),
    ;
    lemma_quotient_relative(distance_m, parsec);
    let parsecs = distance_m.quotient(parsec);
    let log = value_of(maths, Elementary::Log10, parsecs, Double { bits: ZERO });
    let magnitude = photometric_at(v.star.abs_mag, log);
    let power = flux_power(magnitude, mag_limit);
    let flux = value_of(
        maths,
        Elementary::PowSingle,
        (Single { bits: 0x4120_0000 /* 10.0 */ }).widened(),
        power.widened(),
    ).narrowed();
    let intensity = intensity_at(flux);
    if log.finite() && size(log.units()) <= 100 * u {
        law_photometric_magnitude_follows_the_distance(v.star.abs_mag, log);
        lemma_pow2_adds(10, 139);
        lemma_pow2_adds(149, 925);
        let m = magnitude.units();
        let w = pow2(925) as int;
        let a = v.star.abs_mag.units();
        assert(size(m) <= 1000 * one) by (nonlinear_arith)
            requires
                near(m * w, a * w + 5 * (log.units() - u), (pow2(139) * pow2(925)) as int),
                w == pow2(925),
                w > 0,
                size(a) <= 400 * one,
                size(log.units()) <= 100 * u,
                one * w == u,
                pow2(139) <= one,
                one == pow2(149),
        ;
        law_flux_follows_the_magnitude(magnitude, mag_limit);
    }
    if flux.finite() && 0 <= flux.units() <= pow2(170) {
        law_intensity_is_a_fiftieth_of_the_flux(flux);
        let (i, f) = (intensity.units(), v.fade.units());
        lemma_pow2_adds(1, 170);
        lemma_pow2_adds(171, 149);
        lemma_pow2_strictly_increases(171, 270);
        lemma_pow2_strictly_increases(30, 149);
        lemma_pow2_strictly_increases(149, 170);
        assert(size(i) <= pow2(171));
        assert(size(i * f) <= pow2(270) * pow2(149)) by (nonlinear_arith)
            requires
                size(i) <= pow2(270),
                0 <= f <= pow2(149),
        ;
        lemma_single_product_relative(intensity, v.fade);
    }
    Steps { parsecs, log, magnitude, power, flux, intensity }
}

} // verus!
