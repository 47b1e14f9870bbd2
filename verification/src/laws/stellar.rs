//! Laws of stars: magnitudes, temperatures and intensities, as numbers.
use vstd::arithmetic::power2::*;
use vstd::prelude::*;

use crate::generate::{
    band_part, color_of, lemma_unit_double, luminosity_power, magnitude_between, radius_of,
    sampling_band, star_at, temperature_at,
};
use crate::ieee::accuracy::{
    lemma_difference_error, lemma_double_literal, lemma_narrowed_error, lemma_product_error,
    lemma_quotient_error, lemma_single_difference_error, lemma_single_literal,
    lemma_single_product_error, lemma_single_product_relative, lemma_single_sum_error,
    lemma_sum_error, lemma_widened_exact, size,
};
use crate::ieee::{Double, Single};
use crate::laws::bands::{law_magnitude_limits_increase, lemma_limit, lemma_single_code};
use crate::params::{GalaxyParams, HALF_SINGLE, MINUS_INFINITY_SINGLE, ROOT_BAND_MID};
use crate::render::stars::{flux_power, intensity_at};
use crate::draws::{double_at, unit_single};
use crate::ieee::convert::single_of_int;
use crate::ieee::exact::lemma_nearest_of_code;
use crate::ieee::single::SINGLE_INF;
use crate::maths::{value_of, Elementary};
use crate::node::NodeKey;

verus! {

/// The magnitude limits are even steps of 21 twentieths of a magnitude, from minus nine on, up to
/// one part in `2^13` of a magnitude.
pub proof fn law_magnitude_limits_are_even_steps(depth: u8)
    ensures
        GalaxyParams::magnitude_limit(depth).finite(),
        size(
            20 * GalaxyParams::magnitude_limit(depth).units() - (21 * depth - 180) * pow2(149),
        ) <= 20 * pow2(136),
{
    lemma_limit(depth);
    lemma2_to64();
    lemma_pow2_adds(23, 126);
    lemma_pow2_adds(10, 126);
    lemma_pow2_pos(126);
    let k = pow2(126);
    let d = depth as int;
    assert(d * (8808038 * k) == 8808038 * (d * k)) by (nonlinear_arith);
    assert((21 * d - 180) * (0x80_0000 * k) == 176160768 * (d * k) - 1509949440 * k)
        by (nonlinear_arith);
    assert(0 <= d * k <= 255 * k) by (nonlinear_arith)
        requires
            0 <= d <= 255,
            k > 0,
    ;
}

/// The middle of a band lies halfway between its limits, up to one part in `2^12` of a magnitude;
/// that of the first band, which has no bright end, is at minus ten and a half.
pub proof fn law_band_middles_lie_halfway(depth: u8)
    ensures
        ({
            let mid = GalaxyParams::magnitude_mid(depth);
            &&& mid.finite()
            &&& depth > 0 ==> size(
                2 * mid.units() - GalaxyParams::magnitude_limit((depth - 1) as u8).units()
                    - GalaxyParams::magnitude_limit(depth).units(),
            ) <= pow2(137)
            &&& depth == 0 ==> 2 * mid.units() == -(21 * pow2(149))
        }),
{
    lemma2_to64();
    lemma_pow2_adds(23, 126);
    lemma_pow2_pos(126);
    if depth > 0 {
        let (a, b) = (
            GalaxyParams::magnitude_limit((depth - 1) as u8),
            GalaxyParams::magnitude_limit(depth),
        );
        let half = Single { bits: HALF_SINGLE };
        let u = pow2(149) as int;
        lemma_limit((depth - 1) as u8);
        lemma_limit(depth);
        lemma_pow2_adds(1, 158);
        lemma_pow2_adds(9, 149);
        lemma_pow2_adds(9, 126);
        lemma_pow2_adds(11, 126);
        lemma_pow2_adds(10, 126);
        lemma_single_sum_error(a, b, 137);
        let s = a.sum(b);
        lemma_single_literal(half, 0x80_0000, 125);
        lemma_pow2_adds(23, 125);
        lemma_pow2_adds(1, 148);
        let h = half.units();
        assert(2 * h == u);
        lemma_pow2_adds(2, 147);
        assert(size(s.units() * h) <= pow2(158) * pow2(149)) by (nonlinear_arith)
            requires
                size(s.units()) <= 2 * pow2(158),
                2 * h == u,
                h > 0,
                u == pow2(149),
        ;
        lemma_single_product_error(s, half, 136);
        let m = s.product(half).units();
        assert(2 * size(2 * m - s.units()) <= 2 * pow2(134)) by (nonlinear_arith)
            requires
                2 * size(m * u - s.units() * h) <= pow2(134) * u,
                2 * h == u,
                h > 0,
        ;
        lemma_pow2_adds(1, 134);
        lemma_pow2_adds(2, 134);
        lemma_pow2_adds(3, 134);
    } else {
        let mid = Single { bits: ROOT_BAND_MID };
        let pos = Single { bits: 0x4128_0000 /* 10.5 */ };
        lemma_single_literal(pos, 0xa8_0000, 129);
        assert(mid.code() == pos.code());
        lemma_pow2_adds(20, 129);
    }
}

/// The magnitude at the part `w` of the way through a band is that part of the way from its bright
/// end to its faint one, up to one part in `2^13` of the band, by which the bright end itself is
/// left, and one part in `2^11` of a magnitude.
pub proof fn law_magnitudes_are_spread_over_the_band(lo: Single, hi: Single, w: Single)
    requires
        lo.finite(),
        hi.finite(),
        w.finite(),
        size(lo.units()) <= 300 * pow2(149),
        size(hi.units()) <= 300 * pow2(149),
        lo.units() < hi.units(),
        0 <= w.units() <= pow2(149),
    ensures
        ({
            let r = magnitude_between(lo, hi, w);
            let u = pow2(149) as int;
            &&& r.finite()
            &&& size(r.units() * u - (lo.units() * u + (hi.units() - lo.units()) * w.units()))
                * pow2(13) <= (hi.units() - lo.units()) * u + 4 * (u * u)
        }),
{
    let u = pow2(149) as int;
    let d = hi.difference(lo);
    let tiny = Single { bits: 0x38d1_b717 /* 1.0e-4 */ };
    lemma2_to64();
    lemma_pow2_pos(125);
    lemma_pow2_adds(24, 125);
    lemma_pow2_adds(10, 149);
    lemma_pow2_adds(11, 125);
    lemma_pow2_adds(12, 125);
    // Of 600 magnitudes a step is one part in 2^14.
    lemma_single_difference_error(hi, lo, 137);
    lemma_pow2_adds(10, 125);
    let e = hi.units() - lo.units();
    let x = d.units();
    let v = w.units();
    assert(size(x * v) <= pow2(159) * pow2(149)) by (nonlinear_arith)
        requires
            size(x) <= pow2(159),
            0 <= v <= pow2(149),
    ;
    lemma_single_product_error(d, w, 137);
    lemma_single_literal(tiny, 0xd1_b717, 112);
    lemma_pow2_adds(13, 112);
    lemma_pow2_adds(37, 112);
    lemma_pow2_pos(112);
    let t = tiny.units();
    assert(size(x * t) <= pow2(159) * pow2(149)) by (nonlinear_arith)
        requires
            size(x) <= pow2(159),
            0 <= t <= pow2(149),
    ;
    lemma_single_product_error(d, tiny, 137);
    let p = d.product(w);
    let q = d.product(tiny);
    lemma_pow2_adds(1, 159);
    lemma_single_sum_error(lo, p, 138);
    lemma_single_sum_error(lo, q, 138);
    let (mag, out) = (lo.sum(p), lo.sum(q));
    let r = magnitude_between(lo, hi, w);
    let k = pow2(125) as int;
    // The exact product of the way and the part, against what is computed.
    let ev = e * v;
    assert(size(x * v - ev) <= 0x400 * (k * u)) by (nonlinear_arith)
        requires
            size(x - e) * 2 <= 0x400 * k,
            0 <= v <= u,
            ev == e * v,
            k > 0,
    ;
    let (pu, qu, lu) = (p.units() * u, q.units() * u, lo.units() * u);
    assert(pow2(135) * pow2(149) == 0x400 * (k * u)) by (nonlinear_arith)
        requires
            pow2(135) == 0x400 * k,
            u == pow2(149),
    ;
    assert(size(pu - ev) <= 0x600 * (k * u));
    let m1 = mag.units();
    assert(size(m1 * u - (lu + pu)) <= 0x400 * (k * u)) by (nonlinear_arith)
        requires
            2 * size(m1 - (lo.units() + p.units())) <= 0x800 * k,
            lu == lo.units() * u,
            pu == p.units() * u,
            u > 0,
    ;
    assert(size(m1 * u - (lu + ev)) <= 0xa00 * (k * u));
    assert(u * u == 0x100_0000 * (k * u)) by (nonlinear_arith)
        requires
            u == 0x100_0000 * k,
    ;
    assert(e * u >= 0) by (nonlinear_arith)
        requires
            e >= 0,
            u > 0,
    ;
    if mag.at_most(lo) {
        // The part is so small that it is lost.
        assert(m1 * u <= lu) by (nonlinear_arith)
            requires
                m1 <= lo.units(),
                lu == lo.units() * u,
                u > 0,
        ;
        assert(0 <= ev) by (nonlinear_arith)
            requires
                ev == e * v,
                e >= 0,
                v >= 0,
        ;
        assert(ev <= 0xa00 * (k * u));
        let o1 = out.units();
        assert(size(o1 * u - (lu + qu)) <= 0x400 * (k * u)) by (nonlinear_arith)
            requires
                2 * size(o1 - (lo.units() + q.units())) <= 0x800 * k,
                lu == lo.units() * u,
                qu == q.units() * u,
                u > 0,
        ;
        // What is added instead is a ten-thousandth of the band.
        let et = e * t;
        assert(size(x * t - et) <= 0x400 * (k * u)) by (nonlinear_arith)
            requires
                size(x - e) * 2 <= 0x400 * k,
                0 <= t <= u,
                et == e * t,
                k > 0,
        ;
        assert(size(qu - et) <= 0x600 * (k * u));
        assert(0 <= et && et * 0x2000 <= e * u) by (nonlinear_arith)
            requires
                et == e * t,
                0 <= t,
                t * 0x2000 <= u,
                e >= 0,
        ;
        assert(r == out);
        assert(size(o1 * u - (lu + ev)) * 0x2000 <= e * u + 0x400_0000 * (k * u));
    } else {
        assert(r == mag);
    }
}

/// The temperature at the part `w` of the way is that part of the way from 2500 to 30000 Kelvin,
/// up to one part in 256 of a Kelvin.
pub proof fn law_temperatures_are_spread_evenly(w: Double)
    requires
        w.finite(),
        0 <= w.units() <= pow2(1074),
    ensures
        ({
            let t = temperature_at(w);
            &&& t.finite()
            &&& size(
                t.units() * pow2(925) - (2500 * pow2(1074) + 27500 * w.units()),
            ) <= pow2(1066)
        }),
{
    let (a, b) = (Double { bits: 0x40a3_8800_0000_0000 /* 2500.0 */ }, Double { bits: 0x40da_db00_0000_0000 /* 27500.0 */ });
    let (u, v) = (pow2(1074), w.units());
    lemma2_to64();
    lemma2_to64_rest();
    lemma_double_literal(a, 0x13_8800_0000_0000, 1033);
    lemma_double_literal(b, 0x1a_db00_0000_0000, 1036);
    lemma_pow2_adds(41, 1033);
    lemma_pow2_adds(38, 1036);
    lemma_pow2_pos(1033);
    lemma_pow2_pos(1036);
    lemma_pow2_pos(1066);
    lemma_pow2_adds(8, 1066);
    lemma_pow2_adds(15, 1074);
    lemma_pow2_adds(30, 1036);
    assert(a.units() == 2500 * u && b.units() == 27500 * u);
    let x = 27500 * v;
    assert(b.units() * v == x * u) by (nonlinear_arith)
        requires
            b.units() == 27500 * u,
            x == 27500 * v,
    ;
    assert(size(x * u) <= pow2(1089) * pow2(1074)) by (nonlinear_arith)
        requires
            0 <= x <= pow2(1089),
            u == pow2(1074),
    ;
    lemma_product_error(b, w, 1038);
    let p = b.product(w);
    assert(2 * size(p.units() - x) <= pow2(1036)) by (nonlinear_arith)
        requires
            2 * size(p.units() * u - x * u) <= pow2(1036) * u,
            u > 0,
    ;
    lemma_sum_error(a, p, 1038);
    let s = a.sum(p);
    lemma_pow2_adds(149, 925);
    lemma_pow2_adds(15, 149);
    lemma_pow2_adds(140, 925);
    lemma_pow2_adds(1, 1065);
    assert(pow2(164) * pow2(925) == 0x8000 * u) by (nonlinear_arith)
        requires
            pow2(164) == 0x8000 * pow2(149),
            pow2(149) * pow2(925) == u,
    ;
    lemma_narrowed_error(s, 142);
}

/// The luminosity of a star is a power of ten: two and a half times that power is what its
/// magnitude is brighter than 4.83, up to one part in `2^30`.
pub proof fn law_luminosity_falls_with_the_magnitude(abs_mag: Single)
    requires
        abs_mag.finite(),
        size(abs_mag.units()) <= 1000 * pow2(149),
    ensures
        ({
            let p = luminosity_power(abs_mag);
            &&& p.finite()
            &&& size(
                250 * p.units() - (483 * pow2(1074) - 100 * (abs_mag.units() * pow2(925))),
            ) <= pow2(1044)
        }),
{
    let (a, b) = (Double { bits: 0x4013_51eb_851e_b852 /* 4.83 */ }, Double { bits: 0x4004_0000_0000_0000 /* 2.5 */ });
    let u = pow2(1074);
    let m = abs_mag.units() * pow2(925);
    lemma2_to64();
    lemma2_to64_rest();
    lemma_widened_exact(abs_mag);
    lemma_double_literal(a, 0x13_51eb_851e_b852, 1024);
    lemma_double_literal(b, 0x14_0000_0000_0000, 1023);
    lemma_pow2_adds(50, 1024);
    lemma_pow2_adds(51, 1023);
    lemma_pow2_pos(1023);
    lemma_pow2_pos(1024);
    lemma_pow2_adds(149, 925);
    lemma_pow2_adds(10, 1074);
    lemma_pow2_adds(20, 1024);
    lemma_pow2_adds(11, 1074);
    lemma_pow2_adds(8, 1024);
    lemma_pow2_adds(9, 1024);
    assert(size(m) <= 1000 * u) by (nonlinear_arith)
        requires
            m == abs_mag.units() * pow2(925),
            size(abs_mag.units()) <= 1000 * pow2(149),
            pow2(149) * pow2(925) == u,
    ;
    lemma_difference_error(a, abs_mag.widened(), 1034);
    let d = a.difference(abs_mag.widened());
    assert(2 * b.units() == 5 * u);
    assert(size(d.units()) * pow2(1074) <= pow2(1085) * b.units()) by (nonlinear_arith)
        requires
            size(d.units()) <= pow2(1085),
            2 * b.units() == 5 * u,
            u == pow2(1074),
    ;
    lemma_quotient_error(d, b, 1034);
    let p = luminosity_power(abs_mag).units();
    assert(2 * size(5 * p - 2 * d.units()) <= 5 * pow2(1032)) by (nonlinear_arith)
        requires
            2 * size(p * b.units() - d.units() * u) <= pow2(1032) * b.units(),
            2 * b.units() == 5 * u,
            u > 0,
    ;
    let k = pow2(1024);
    assert(size(100 * a.units() - 483 * u) <= 100 * k);
    assert(2 * size(d.units() - (a.units() - m)) <= 0x100 * k);
    assert(2 * size(250 * p - 100 * d.units()) <= 250 * (0x100 * k));
}

/// The flux of a star is a power of ten: two fifths of what it is brighter than the limit, within
/// four either way, up to one part in `2^13`.
pub proof fn law_flux_follows_the_magnitude(app_mag: Single, mag_limit: Single)
    requires
        app_mag.finite(),
        mag_limit.finite(),
        size(app_mag.units()) <= 1000 * pow2(149),
        size(mag_limit.units()) <= 1000 * pow2(149),
    ensures
        ({
            let p = flux_power(app_mag, mag_limit);
            let u = pow2(149) as int;
            let d = 2 * (mag_limit.units() - app_mag.units());
            let exact = if d > 20 * u {
                20 * u
            } else if d < -(20 * u) {
                -(20 * u)
            } else {
                d
            };
            p.finite() && size(5 * p.units() - exact) <= 5 * pow2(136)
        }),
{
    let c = Single { bits: 0x3ecc_cccd /* 0.4 */ };
    let (low, high) = (Single { bits: 0xc080_0000 /* -4.0 */ }, Single { bits: 0x4080_0000 /* 4.0 */ });
    let u = pow2(149) as int;
    lemma2_to64();
    lemma_single_literal(c, 0xcc_cccd, 124);
    lemma_single_literal(high, 0x80_0000, 128);
    assert(low.code() == high.code() && low.units() == -high.units());
    lemma_pow2_adds(25, 124);
    lemma_pow2_adds(23, 128);
    lemma_pow2_adds(2, 149);
    lemma_pow2_adds(12, 124);
    lemma_pow2_adds(11, 124);
    lemma_pow2_adds(11, 149);
    lemma_pow2_adds(10, 149);
    lemma_pow2_pos(124);
    assert(high.units() == 4 * u);
    lemma_single_difference_error(mag_limit, app_mag, 138);
    let d = mag_limit.difference(app_mag);
    let k = pow2(124) as int;
    let x = d.units();
    assert(x * c.units() == 0xcc_cccd * (x * k)) by (nonlinear_arith)
        requires
            c.units() == 0xcc_cccd * k,
    ;
    assert(2 * c.units() <= u) by (nonlinear_arith)
        requires
            c.units() == 0xcc_cccd * k,
            u == 0x200_0000 * k,
            k > 0,
    ;
    assert(size(x * c.units()) <= pow2(159) * pow2(149)) by (nonlinear_arith)
        requires
            size(x) <= pow2(160),
            2 * c.units() <= u,
            c.units() >= 0,
            pow2(160) == 2 * pow2(159),
            u == pow2(149),
    ;
    lemma_single_product_error(d, c, 137);
    lemma_pow2_adds(135, 149);
    let p = d.product(c).units();
    // The held factor is two fifths.
    assert(2 * size(p * 0x200_0000 - 0xcc_cccd * x) <= pow2(135) * 0x200_0000) by (nonlinear_arith)
        requires
            2 * size(p * u - 0xcc_cccd * (x * k)) <= pow2(135) * u,
            u == 0x200_0000 * k,
            k > 0,
    ;
    assert(size(x) <= 0x800 * u + 0x800 * k);
}

/// The intensity of a flux is a fiftieth of it, from none to four, up to one part in `2^20` of the
/// flux.
pub proof fn law_intensity_is_a_fiftieth_of_the_flux(flux: Single)
    requires
        flux.finite(),
        0 <= flux.units() <= pow2(170),
    ensures
        ({
            let r = intensity_at(flux);
            let u = pow2(149) as int;
            let exact = if flux.units() > 200 * u {
                200 * u
            } else {
                flux.units()
            };
            r.finite() && size(50 * r.units() - exact) * pow2(20) <= flux.units() + pow2(30)
        }),
{
    let c = Single { bits: 0x3ca3_d70a /* 0.02 */ };
    let (low, high) = (Single { bits: 0x0000_0000 /* 0.0 */ }, Single { bits: 0x4080_0000 /* 4.0 */ });
    let u = pow2(149) as int;
    let (x, k) = (flux.units(), pow2(120));
    lemma2_to64();
    lemma_single_literal(c, 0xa3_d70a, 120);
    lemma_single_literal(high, 0x80_0000, 128);
    lemma_pow2_adds(29, 120);
    lemma_pow2_adds(23, 128);
    lemma_pow2_adds(2, 149);
    lemma_pow2_pos(120);
    lemma_pow2_strictly_increases(170, 270);
    assert(low.units() == 0);
    assert(high.units() == 4 * u);
    assert(x * c.units() == 0xa3_d70a * x * k) by (nonlinear_arith)
        requires
            c.units() == 0xa3_d70a * k,
    ;
    assert(size(x * c.units()) <= pow2(270) * pow2(149) && x * c.units() >= 0) by (nonlinear_arith)
        requires
            0 <= x <= pow2(270),
            0 <= c.units() <= pow2(149),
    ;
    lemma_single_product_relative(flux, c);
    let p = flux.product(c).units();
    assert(size(p * 0x2000_0000 - 0xa3_d70a * x) * 0x100_0000 <= 0xa3_d70a * x + 0x100_0000
        * 0x2000_0000) by (nonlinear_arith)
        requires
            size(p * u - 0xa3_d70a * x * k) * 0x100_0000 <= 0xa3_d70a * x * k + 0x100_0000 * u,
            u == 0x2000_0000 * k,
            k > 0,
    ;
}

/// A number drawn from one word is that of its upper 24 bits, over `2^24`.
proof fn lemma_unit_single(word: u32)
    ensures
        unit_single(word).finite(),
        unit_single(word).units() == (word / 0x100) * pow2(125),
{
    let n = (word / 0x100) as nat;
    let tick = Single { bits: 0x3380_0000 /* 5.9604645e-8 */ };
    let v = pow2(149) as int;
    lemma2_to64();
    lemma_single_literal(tick, 0x80_0000, 102);
    lemma_pow2_adds(23, 102);
    lemma_pow2_adds(24, 125);
    lemma_pow2_pos(125);
    let whole = single_of_int(n as int);
    let c = lemma_single_code(n, 149);
    lemma_nearest_of_code(c, 1, 23, SINGLE_INF as nat);
    let m = n * pow2(149);
    assert(m * 1 == m) by (nonlinear_arith);
    assert(whole.units() == m);
    let e = lemma_single_code(n, 125);
    assert(tick.units() == pow2(125));
    assert(m * pow2(125) == (n * pow2(125)) * pow2(149)) by (nonlinear_arith)
        requires
            m == n * pow2(149),
    ;
    lemma_nearest_of_code(e, pow2(149), 23, SINGLE_INF as nat);
    lemma_pow2_pos(149);
    if n > 0 {
        assert(m > 0) by (nonlinear_arith)
            requires
                m == n * pow2(149),
                n > 0,
                pow2(149) > 0,
        ;
    } else {
        assert(m == 0 && n * pow2(125) == 0) by (nonlinear_arith)
            requires
                m == n * pow2(149),
                n == 0,
        ;
    }
}

/// A star is made of its words: of the upper 24 bits of the first, a number whose power of 1.6 is
/// how far it lies in the band of its depth; of the upper 53 bits of the last two, a number whose
/// power of 2.2 is how far its temperature lies between 2500 and 30000 Kelvin. Its color is that of
/// a black body of that temperature, and its radius follows from both. The law returns the two
/// numbers and the temperature.
pub proof fn law_stars_are_made_of_their_words<M: Fn(Elementary, Double, Double) -> Double>(
    maths: M,
    params: GalaxyParams,
    key: NodeKey,
    words: Map<nat, u32>,
    at: nat,
) -> (r: (Single, Double, Single))
    ensures
        ({
            let star = star_at(maths, params, key, words, at);
            let (u, v, t) = r;
            let hi = GalaxyParams::magnitude_limit(key.depth).units();
            let lo = if key.depth == 0 {
                -(12 * pow2(149))
            } else {
                GalaxyParams::magnitude_limit((key.depth - 1) as u8).units()
            };
            let w = value_of(
                maths,
                Elementary::PowSingle,
                u.widened(),
                (Single { bits: 0x3fcc_cccd /* 1.6 */ }).widened(),
            ).narrowed();
            let p = value_of(maths, Elementary::Pow, v, Double { bits: 0x4001_9999_9999_999a /* 2.2 */ });
            let one = pow2(149) as int;
            &&& u.finite() && u.units() == (words[at] / 0x100) * pow2(125)
            &&& v.finite() && v.units() == ((words[at + 7] + 0x1_0000_0000 * words[at + 8]) / 0x800)
                * pow2(1021)
            &&& w.finite() && 0 <= w.units() <= one ==> star.abs_mag.finite() && size(
                star.abs_mag.units() * one - (lo * one + (hi - lo) * w.units()),
            ) * pow2(13) <= (hi - lo) * one + 4 * (one * one)
            &&& p.finite() && 0 <= p.units() <= pow2(1074) ==> t.finite() && size(
                t.units() * pow2(925) - (2500 * pow2(1074) + 27500 * p.units()),
            ) <= pow2(1066)
            &&& star.color == color_of(maths, t)
            &&& star.radius == radius_of(maths, star.abs_mag, t)
        }),
{
    let u = unit_single(words[at]);
    let v = double_at(words, at + 7);
    let w = band_part(maths, u);
    let p = value_of(maths, Elementary::Pow, v, Double { bits: 0x4001_9999_9999_999a /* 2.2 */ });
    lemma_unit_single(words[at]);
    lemma_unit_double(words[at + 7], words[at + 8]);
    if w.finite() && 0 <= w.units() <= pow2(149) {
        let (lo, hi) = sampling_band(key.depth);
        lemma_sampling_band(key.depth);
        law_magnitudes_are_spread_over_the_band(lo, hi, w);
    }
    if p.finite() && 0 <= p.units() <= pow2(1074) {
        law_temperatures_are_spread_evenly(p);
    }
    (u, v, temperature_at(p))
}

/// The ends of the band of a depth.
proof fn lemma_sampling_band(depth: u8)
    ensures
        ({
            let (lo, hi) = sampling_band(depth);
            &&& lo.finite() && hi.finite()
            &&& size(lo.units()) <= 300 * pow2(149)
            &&& size(hi.units()) <= 300 * pow2(149)
            &&& lo.units() < hi.units()
            &&& hi == GalaxyParams::magnitude_limit(depth)
            &&& depth == 0 ==> lo.units() == -(12 * pow2(149))
            &&& depth > 0 ==> lo == GalaxyParams::magnitude_limit((depth - 1) as u8)
        }),
{
    law_magnitude_limits_are_even_steps(depth);
    lemma2_to64();
    lemma_pow2_adds(13, 136);
    lemma_pow2_pos(136);
    let v = pow2(149) as int;
    let d = depth as int;
    assert(-180 * v <= (21 * d - 180) * v <= 5200 * v) by (nonlinear_arith)
        requires
            0 <= d <= 255,
            v > 0,
    ;
    if depth > 0 {
        law_magnitude_limits_are_even_steps((depth - 1) as u8);
        law_magnitude_limits_increase((depth - 1) as u8, depth);
        assert(-180 * v <= (21 * (d - 1) - 180) * v <= 5200 * v) by (nonlinear_arith)
            requires
                1 <= d <= 255,
                v > 0,
        ;
    } else {
        let (low, pos) = (Single { bits: 0xc140_0000 /* -12.0 */ }, Single { bits: 0x4140_0000 /* 12.0 */ });
        lemma_single_literal(pos, 0xc0_0000, 129);
        assert(low.code() == pos.code());
        lemma_pow2_adds(20, 129);
        let none = Single { bits: MINUS_INFINITY_SINGLE };
        assert(!none.finite());
        assert((21 * 0 - 180) * v == -180 * v);
    }
}

} // verus!
