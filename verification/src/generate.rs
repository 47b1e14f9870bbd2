//! Procedural star generation.
//!
//! Content is computed on demand from a root seed and a node key; nothing is stored. The depth
//! of a node is a brightness layer: shallow nodes (huge volumes) emit only intrinsically bright
//! stars visible from far away, deeper nodes add progressively dimmer stars. Each star belongs
//! to the one depth whose magnitude band holds it, so descending the tree never produces
//! duplicates.
use rand_chacha::ChaCha8Rng;
use vstd::arithmetic::div_mod::*;
use vstd::arithmetic::mul::*;
use vstd::arithmetic::power2::*;
use vstd::prelude::*;

use crate::coord::GalacticCoord;
use crate::draws::{
    chacha8_words, double_at, draw_double, draw_single, is_at, seeded, single_at, unit_double,
};
use crate::ieee::convert::saturated;
use crate::ieee::double::{lemma_double_format, DOUBLE_INF};
use crate::ieee::encoding::{code_units, lemma_code_units_increases};
use crate::ieee::exact::{
    lemma_nearest_below, lemma_nearest_exists, lemma_nearest_of_code, lemma_small_int_exact,
    lemma_whole_number_code,
};
use crate::ieee::{Double, Single};
use crate::maths::{evaluate, reliable, value_of, Elementary};
use crate::node::NodeKey;
use crate::params::{GalaxyParams, Star, ONE, TEN, ZERO};
use crate::seed::{node_seed, seed_of};
use crate::vector::Vector;

verus! {

/// 2^-64: what the exponential does not fall below on the arguments that the count needs.
pub const EXP_FLOOR: u64 = 0x3bf0_0000_0000_0000;

/// The exponential of an argument from -30 to 0 is no less than 2^-64.
pub open spec fn exp_has_floor<M: Fn(Elementary, Double, Double) -> Double>(maths: M) -> bool {
    forall|x: Double, r: Double|
        (Double { bits: 0xc03e_0000_0000_0000 /* -30.0 */ }).at_most(x) && x.at_most(Double { bits: ZERO })
            && #[trigger] call_ensures(maths, (Elementary::Exp, x, Double { bits: ZERO }), r)
            ==> (Double { bits: EXP_FLOOR }).at_most(r)
}

/// How many more numbers in `[0, 1)` can be drawn, and multiplied into `p`, before the product
/// is no longer above `l`.
pub open spec fn draws_above(words: Map<nat, u32>, at: nat, p: Double, l: Double) -> nat
    decreases p.code(),
{
    let q = p.product(double_at(words, at));
    if q.at_most(l) {
        0
    } else if q.code() < p.code() {
        1 + draws_above(words, at + 2, q, l)
    } else {
        0
    }
}

/// The rounded normal draw around the mean `lambda`, from the logarithm of one number in
/// `(0, 1)` and the cosine of a random angle.
pub open spec fn normal_count(lambda: Double, log: Double, cos: Double) -> nat {
    let z = (Double { bits: 0xc000_0000_0000_0000 /* -2.0 */ }).product(log).root().product(cos);
    let x = lambda.sum(z.product(lambda.root()));
    if x.nan() {
        0
    } else {
        saturated(x.nearest_int(), 0, u64::MAX as int) as nat
    }
}

/// The number of stars drawn for a mean of `lambda`, and how many words that takes.
pub open spec fn poisson_draw<M: Fn(Elementary, Double, Double) -> Double>(
    maths: M,
    words: Map<nat, u32>,
    lambda: Double,
) -> (nat, nat) {
    if lambda.at_most(Double { bits: ZERO }) {
        (0, 0)
    } else if lambda.less(Double { bits: 0x403e_0000_0000_0000 /* 30.0 */ }) {
        let l = value_of(maths, Elementary::Exp, lambda.opposite(), Double { bits: ZERO });
        let k = draws_above(words, 0, Double { bits: ONE }, l);
        (k, 2 * (k + 1))
    } else {
        let zero = Double { bits: ZERO };
        let log = value_of(maths, Elementary::Ln, double_at(words, 0).larger(Double { bits: 0x3d71_9799_812d_ea11 /* 1e-12 */ }), zero);
        let angle = (Double { bits: 0x4019_21fb_5444_2d18 /* 6.283185307179586 */ }).product(double_at(words, 2));
        (normal_count(lambda, log, value_of(maths, Elementary::Cos, angle, zero)), 4)
    }
}

/// The finite bounds between which a node at `depth` draws magnitudes.
pub open spec fn sampling_band(depth: u8) -> (Single, Single) {
    let (lo, hi) = GalaxyParams::magnitude_band(depth);
    if lo.finite() {
        (lo, hi)
    } else {
        (Single { bits: 0xc140_0000 /* -12.0 */ }, hi)
    }
}

/// The absolute magnitude at the part `w` of the way from `lo` to `hi`; never the excluded
/// bright end.
pub open spec fn magnitude_between(lo: Single, hi: Single, w: Single) -> Single {
    let mag = lo.sum(hi.difference(lo).product(w));
    if mag.at_most(lo) {
        lo.sum(hi.difference(lo).product(Single { bits: 0x38d1_b717 /* 1.0e-4 */ }))
    } else {
        mag
    }
}

/// How far into its band a star lies for a number `u` in `[0, 1)`.
pub open spec fn band_part<M: Fn(Elementary, Double, Double) -> Double>(maths: M, u: Single) -> Single {
    value_of(maths, Elementary::PowSingle, u.widened(), (Single { bits: 0x3fcc_cccd /* 1.6 */ }).widened()).narrowed()
}

/// The absolute magnitude in the band of `depth` for a number `u` in `[0, 1)`.
pub open spec fn magnitude_of<M: Fn(Elementary, Double, Double) -> Double>(maths: M, depth: u8, u: Single) -> Single {
    let (lo, hi) = sampling_band(depth);
    magnitude_between(lo, hi, band_part(maths, u))
}

/// The temperature in Kelvin at the part `w` of the way from 2500 to 30000.
pub open spec fn temperature_at(w: Double) -> Single {
    (Double { bits: 0x40a3_8800_0000_0000 /* 2500.0 */ }).sum((Double { bits: 0x40da_db00_0000_0000 /* 27500.0 */ }).product(w)).narrowed()
}

/// The effective temperature for a number in `[0, 1)`, skewed towards cool stars.
pub open spec fn temperature_of<M: Fn(Elementary, Double, Double) -> Double>(maths: M, u: Double) -> Single {
    temperature_at(value_of(maths, Elementary::Pow, u, Double { bits: 0x4001_9999_9999_999a /* 2.2 */ }))
}

/// The power of ten that is the luminosity of a star, that of the Sun being one.
pub open spec fn luminosity_power(abs_mag: Single) -> Double {
    (Double { bits: 0x4013_51eb_851e_b852 /* 4.83 */ }).difference(abs_mag.widened()).quotient(Double { bits: 0x4004_0000_0000_0000 /* 2.5 */ })
}

/// The radius in meters of a star by its luminosity, that of the Sun being one, and its
/// temperature (Stefan-Boltzmann).
pub open spec fn radius_at(luminosity: Double, temp_k: Single) -> Single {
    let l_w = luminosity.clamped(Double { bits: 0x3f1a_36e2_eb1c_432d /* 1e-4 */ }, Double { bits: 0x4197_d784_0000_0000 /* 1e8 */ }).product(
        Double { bits: 0x4573_ca50_d94d_4d4f /* 3.828e26 */ },
    );
    let t = temp_k.widened();
    let t4 = t.product(t).product(t.product(t));
    let area = (Double { bits: 0x4010_0000_0000_0000 /* 4.0 */ }).product(Double { bits: 0x4009_21fb_5444_2d18 /* 3.141592653589793 */ }).product(
        Double { bits: 0x3e6e_714d_a268_c0cc /* 5.670374419e-8 */ },
    ).product(t4);
    l_w.quotient(area).root().narrowed()
}

/// The radius in meters of a star by its absolute magnitude and temperature.
pub open spec fn radius_of<M: Fn(Elementary, Double, Double) -> Double>(
    maths: M,
    abs_mag: Single,
    temp_k: Single,
) -> Single {
    radius_at(
        value_of(maths, Elementary::Pow, Double { bits: TEN }, luminosity_power(abs_mag)),
        temp_k,
    )
}

/// A color channel brought between 0 and 1.
pub open spec fn channel(v: Double) -> Double {
    v.clamped(Double { bits: ZERO }, Double { bits: ONE })
}

/// A temperature in hundreds of Kelvin.
pub open spec fn hundreds(temp_k: Single) -> Double {
    temp_k.quotient(Single { bits: 0x42c8_0000 /* 100.0 */ }).widened()
}

/// The red and green of a black body at `t` hundreds of Kelvin, from the values of the
/// elementary functions there: the logarithm of `t` up to 66, two powers of `t - 60` above.
pub open spec fn red_green(t: Double, log: Double, red_power: Double, green_power: Double) -> (Double, Double) {
    if t.at_most(Double { bits: 0x4050_8000_0000_0000 /* 66.0 */ }) {
        (
            Double { bits: ONE },
            channel((Double { bits: 0x3fd8_f718_b07b_0788 /* 0.39008157 */ }).product(log).difference(Double { bits: 0x3fe4_380b_8a21_d76b /* 0.63184144 */ })),
        )
    } else {
        (
            channel((Double { bits: 0x3ff4_afdd_a8bd_230c /* 1.292936 */ }).product(red_power)),
            channel((Double { bits: 0x3ff2_1407_8961_3d32 /* 1.129890 */ }).product(green_power)),
        )
    }
}

/// The blue of a black body at `t` hundreds of Kelvin, from the logarithm of `t - 10`.
pub open spec fn blue(t: Double, log: Double) -> Double {
    if (Double { bits: 0x4050_8000_0000_0000 /* 66.0 */ }).at_most(t) {
        Double { bits: ONE }
    } else if t.at_most(Double { bits: 0x4033_0000_0000_0000 /* 19.0 */ }) {
        Double { bits: ZERO }
    } else {
        channel((Double { bits: 0x3fe1_61f3_046e_fa8a /* 0.5432067 */ }).product(log).difference(Double { bits: 0x3ff3_23db_3bfb_58d1 /* 1.196254 */ }))
    }
}

/// The red, green and blue of a black body at a temperature.
pub open spec fn color_of<M: Fn(Elementary, Double, Double) -> Double>(maths: M, temp_k: Single) -> [Single; 3] {
    let zero = Double { bits: ZERO };
    let t = hundreds(temp_k);
    let above = t.difference(Double { bits: 0x404e_0000_0000_0000 /* 60.0 */ });
    let (r, g) = red_green(
        t,
        value_of(maths, Elementary::Ln, t, zero),
        value_of(maths, Elementary::Pow, above, Double { bits: 0xbfc1_0cda_0316_34f6 /* -0.1332047 */ }),
        value_of(maths, Elementary::Pow, above, Double { bits: 0xbfb3_54f0_1c5d_2dd9 /* -0.0755148 */ }),
    );
    let b = blue(t, value_of(maths, Elementary::Ln, t.difference(Double { bits: 0x4024_0000_0000_0000 /* 10.0 */ }), zero));
    [r.narrowed(), g.narrowed(), b.narrowed()]
}

/// The position of a star in the node `key` for three numbers in `[0, 1)`.
pub open spec fn place_of(params: GalaxyParams, key: NodeKey, u: Vector) -> Vector {
    let size = params.node_size(key.depth);
    params.corner(key).sum(
        Vector { x: u.x.product(size), y: u.y.product(size), z: u.z.product(size) },
    )
}

/// The star of the node `key` that the nine words at `at` give.
pub open spec fn star_at<M: Fn(Elementary, Double, Double) -> Double>(
    maths: M,
    params: GalaxyParams,
    key: NodeKey,
    words: Map<nat, u32>,
    at: nat,
) -> Star {
    let abs_mag = magnitude_of(maths, key.depth, single_at(words, at));
    let u = Vector {
        x: double_at(words, at + 1),
        y: double_at(words, at + 3),
        z: double_at(words, at + 5),
    };
    let temp_k = temperature_of(maths, double_at(words, at + 7));
    Star {
        pos: GalacticCoord::nearest_to(place_of(params, key, u)),
        abs_mag,
        color: color_of(maths, temp_k),
        radius: radius_of(maths, abs_mag, temp_k),
    }
}

/// The stars that a stream of words gives the node `key`: first the count is drawn, then each
/// star from the nine words that follow.
pub open spec fn stars_from<M: Fn(Elementary, Double, Double) -> Double>(
    maths: M,
    params: GalaxyParams,
    key: NodeKey,
    words: Map<nat, u32>,
) -> Seq<Star> {
    let (count, used) = poisson_draw(maths, words, params.expected(maths, key.depth));
    Seq::new(count, |i: int| star_at(maths, params, key, words, (used + 9 * i) as nat))
}

/// The stars of the node `key`.
#[verifier::opaque]
pub open spec fn stars_of<M: Fn(Elementary, Double, Double) -> Double>(
    maths: M,
    params: GalaxyParams,
    key: NodeKey,
) -> Seq<Star> {
    stars_from(maths, params, key, chacha8_words(seed_of(params.root_seed, key)))
}

/// Numbers drawn from the unit interval are multiples of 2^-53 below one.
pub proof fn lemma_unit_double(low: u32, high: u32)
    ensures
        ({
            let v = ((low + 0x1_0000_0000 * high) / 0x800) as nat;
            &&& v < 0x20_0000_0000_0000
            &&& !unit_double(low, high).negative()
            &&& unit_double(low, high).finite()
            &&& code_units(unit_double(low, high).code(), 52) == v * pow2(1021)
        }),
{
    let v = ((low + 0x1_0000_0000 * high) / 0x800) as nat;
    let tick = Double { bits: 0x3ca0_0000_0000_0000 /* 1.1102230246251565e-16 */ };
    lemma_double_format();
    lemma_small_int_exact(v as int);
    let c = lemma_whole_number_code(v, 1021);
    lemma_nearest_exists(v * pow2(1074), 1, 52, DOUBLE_INF as nat);
    // The factor is 2^-53, in units 2^1021.
    assert(tick.code() / pow2(52) == 970 && tick.code() % pow2(52) == 0);
    lemma_pow2_adds(52, 969);
    assert(code_units(tick.code(), 52) == pow2(1021));
    lemma_pow2_pos(1074);
    lemma_nearest_of_code(c, pow2(1074), 52, DOUBLE_INF as nat);
    assert(v * pow2(1074) * pow2(1021) == v * pow2(1021) * pow2(1074)) by (nonlinear_arith);
}

/// Multiplying a number by one drawn from the unit interval makes it smaller.
pub proof fn lemma_draw_shrinks(p: Double, low: u32, high: u32)
    requires
        !p.negative(),
        0x20_0000_0000_0000 <= p.code() < DOUBLE_INF,
    ensures
        !p.product(unit_double(low, high)).negative(),
        p.product(unit_double(low, high)).code() < p.code(),
{
    lemma_double_format();
    lemma_unit_double(low, high);
    let v = ((low + 0x1_0000_0000 * high) / 0x800) as nat;
    let c = p.code();
    let q = pow2(52);
    let (e, f) = (c / q, c % q);
    assert(e >= 2);
    let m = f + q;
    let (pe, half) = (pow2((e - 1) as nat), pow2((e - 2) as nat));
    lemma_pow2_unfold((e - 1) as nat);
    lemma_pow2_pos((e - 2) as nat);
    let u = code_units(c, 52);
    assert(u == m * pe);
    let below = code_units((c - 1) as nat, 52);
    if f > 0 {
        assert((c - 1) / q as int == e && (c - 1) % q as int == f - 1);
        assert(below == u - pe) by (nonlinear_arith)
            requires
                below == (f - 1 + q) * pe,
                u == (f + q) * pe,
        ;
    } else {
        assert((c - 1) / q as int == e - 1 && (c - 1) % q as int == q - 1);
        assert(below == u - half) by (nonlinear_arith)
            requires
                below == (q - 1 + q) * half,
                u == q * pe,
                pe == 2 * half,
        ;
    }
    let (a, b, k) = (pow2(1021), pow2(1074), pow2(53));
    lemma_pow2_adds(1021, 53);
    lemma_pow2_pos(1021);
    lemma_pow2_pos(1074);
    let n = u * (v * a);
    // n / b = u * v / 2^53 <= u - u / 2^53.
    assert(u * v <= u * k - u) by (nonlinear_arith)
        requires
            v <= k - 1,
            u >= 0,
    ;
    let mid = below + u;
    // The midpoint under p is p less half a step, and u / 2^53 is at least as much.
    if f > 0 {
        assert(2 * u > k * pe) by (nonlinear_arith)
            requires
                u == m * pe,
                2 * m > k,
                pe > 0,
        ;
        assert(2 * (u * v) < mid * k) by (nonlinear_arith)
            requires
                u * v <= u * k - u,
                2 * u > k * pe,
                mid == 2 * u - pe,
        ;
    } else {
        assert(2 * u == k * pe) by (nonlinear_arith)
            requires
                u == m * pe,
                2 * m == k,
        ;
        assert(2 * (u * v) < mid * k) by (nonlinear_arith)
            requires
                u * v <= u * k - u,
                2 * u == k * pe,
                pe == 2 * half,
                half > 0,
                k > 0,
                mid == 2 * u - half,
        ;
    }
    assert(2 * n < mid * b) by (nonlinear_arith)
        requires
            2 * (u * v) < mid * k,
            n == u * (v * a),
            b == a * k,
            a > 0,
    ;
    lemma_nearest_below(n, b, 52, DOUBLE_INF as nat, c);
}

/// Counts the draws that stay above `l` (Knuth's method).
fn count_draws(rng: &mut ChaCha8Rng, words: Ghost<Map<nat, u32>>, l: Double) -> (k: u64)
    requires
        is_at(*old(rng), words@, 0),
        (Double { bits: EXP_FLOOR }).at_most(l),
    ensures
        k == draws_above(words@, 0, Double { bits: ONE }, l),
        is_at(*final(rng), words@, (2 * (k + 1)) as nat),
{
    let mut k: u64 = 0;
    let mut p: Double = Double { bits: ONE };
    let ghost mut at: nat = 0;
    loop
        invariant
            is_at(*rng, words@, at),
            at == 2 * k,
            (Double { bits: EXP_FLOOR }).at_most(l),
            !p.negative(),
            EXP_FLOOR <= p.code() <= ONE,
            k + p.code() <= ONE,
            draws_above(words@, 0, Double { bits: ONE }, l) == k + draws_above(words@, at, p, l),
        decreases p.code(),
    {
        let u: Double = draw_double(rng, words, Ghost(at));
        let q: Double = p.times(u);
        proof {
            lemma_draw_shrinks(p, words@[at], words@[at + 1]);
        }
        if q.le(l) {
            assert((2 * (k + 1)) as nat == at + 2);
            return k;
        }
        proof {
            // What is above l is above the floor.
            let floor = Double { bits: EXP_FLOOR };
            if q.code() < EXP_FLOOR {
                lemma_code_units_increases(q.code(), EXP_FLOOR as nat, 52);
            }
            at = at + 2;
        }
        p = q;
        k = k + 1;
    }
}

/// Approximate Poisson draw good enough for content generation.
fn poisson_ish<M: Fn(Elementary, Double, Double) -> Double>(
    maths: &M,
    rng: &mut ChaCha8Rng,
    words: Ghost<Map<nat, u32>>,
    lambda: Double,
) -> (count: u64)
    requires
        reliable(*maths),
        exp_has_floor(*maths),
        is_at(*old(rng), words@, 0),
    ensures
        count == poisson_draw(*maths, words@, lambda).0,
        is_at(*final(rng), words@, poisson_draw(*maths, words@, lambda).1),
{
    let zero: Double = Double { bits: ZERO };
    if lambda.le(zero) {
        return 0;
    }
    if lambda.lt(Double { bits: 0x403e_0000_0000_0000 /* 30.0 */ }) {
        let l: Double = evaluate(maths, Elementary::Exp, lambda.negated(), zero);
        return count_draws(rng, words, l);
    }
    // Normal approximation for large means.
    let u1: Double = draw_double(rng, words, Ghost(0nat));
    let u2: Double = draw_double(rng, words, Ghost(2nat));
    let log: Double = evaluate(maths, Elementary::Ln, u1.max(Double { bits: 0x3d71_9799_812d_ea11 /* 1e-12 */ }), zero);
    let cos: Double = evaluate(maths, Elementary::Cos, Double { bits: 0x4019_21fb_5444_2d18 /* 6.283185307179586 */ }.times(u2), zero);
    normal_draw(lambda, log, cos)
}

/// The rounded normal draw around the mean `lambda`, from the logarithm of one number in
/// `(0, 1)` and the cosine of a random angle.
pub fn normal_draw(lambda: Double, log: Double, cos: Double) -> (count: u64)
    ensures
        count == normal_count(lambda, log, cos),
{
    let z: Double = Double { bits: 0xc000_0000_0000_0000 /* -2.0 */ }.times(log).sqrt().times(cos);
    let x: Double = lambda.plus(z.times(lambda.sqrt()));
    let n: i128 = x.round_to_i128();
    if n < 0 {
        0
    } else if n > 0xffff_ffff_ffff_ffff {
        u64::MAX
    } else {
        n as u64
    }
}

/// The absolute magnitude at the part `w` of the way from `lo` to `hi`.
pub fn magnitude_in_band(lo: Single, hi: Single, w: Single) -> (r: Single)
    ensures
        r == magnitude_between(lo, hi, w),
{
    let mag: Single = lo.plus(hi.minus(lo).times(w));
    // The band is half-open: never land on its bright edge, which belongs to another depth.
    if mag.le(lo) {
        lo.plus(hi.minus(lo).times(Single { bits: 0x38d1_b717 /* 1.0e-4 */ }))
    } else {
        mag
    }
}

/// The temperature in Kelvin at the part `w` of the way from 2500 to 30000.
pub fn temperature_on_scale(w: Double) -> (r: Single)
    ensures
        r == temperature_at(w),
{
    Double { bits: 0x40a3_8800_0000_0000 /* 2500.0 */ }.plus(Double { bits: 0x40da_db00_0000_0000 /* 27500.0 */ }.times(w)).to_single()
}

/// Sample an effective temperature (Kelvin), from 2500 to 30000 and skewed cool.
pub fn spectral_temperature<M: Fn(Elementary, Double, Double) -> Double>(maths: &M, u: Double) -> (r: Single)
    requires
        reliable(*maths),
    ensures
        r == temperature_of(*maths, u),
{
    temperature_on_scale(evaluate(maths, Elementary::Pow, u, Double { bits: 0x4001_9999_9999_999a /* 2.2 */ }))
}

/// The power of ten that is the luminosity of a star, that of the Sun being one.
pub fn luminosity_exponent(abs_mag: Single) -> (r: Double)
    ensures
        r == luminosity_power(abs_mag),
{
    Double { bits: 0x4013_51eb_851e_b852 /* 4.83 */ }.minus(abs_mag.to_double()).over(Double { bits: 0x4004_0000_0000_0000 /* 2.5 */ })
}

/// The radius in meters of a star by its luminosity and temperature (Stefan-Boltzmann).
pub fn radius_from_luminosity(luminosity: Double, temp_k: Single) -> (r: Single)
    ensures
        r == radius_at(luminosity, temp_k),
{
    let l_w: Double = luminosity.clamp(Double { bits: 0x3f1a_36e2_eb1c_432d /* 1e-4 */ }, Double { bits: 0x4197_d784_0000_0000 /* 1e8 */ }).times(
        Double { bits: 0x4573_ca50_d94d_4d4f /* 3.828e26 */ },
    );
    let t: Double = temp_k.to_double();
    let t2: Double = t.times(t);
    let area: Double = Double { bits: 0x4010_0000_0000_0000 /* 4.0 */ }.times(Double { bits: 0x4009_21fb_5444_2d18 /* 3.141592653589793 */ }).times(
        Double { bits: 0x3e6e_714d_a268_c0cc /* 5.670374419e-8 */ },
    ).times(t2.times(t2));
    l_w.over(area).sqrt().to_single()
}

/// Very rough stellar radius in meters from magnitude and temperature.
pub fn stellar_radius_m<M: Fn(Elementary, Double, Double) -> Double>(maths: &M, abs_mag: Single, temp_k: Single) -> (r: Single)
    requires
        reliable(*maths),
    ensures
        r == radius_of(*maths, abs_mag, temp_k),
{
    let l_rel: Double = evaluate(
        maths,
        Elementary::Pow,
        Double { bits: TEN },
        luminosity_exponent(abs_mag),
    );
    radius_from_luminosity(l_rel, temp_k)
}

/// The red and green of a black body at `t` hundreds of Kelvin, from the values of the
/// elementary functions there.
pub fn red_green_channels(t: Double, log: Double, red_power: Double, green_power: Double) -> (r: (Double, Double))
    ensures
        r == red_green(t, log, red_power, green_power),
{
    let zero: Double = Double { bits: ZERO };
    let one: Double = Double { bits: ONE };
    if t.le(Double { bits: 0x4050_8000_0000_0000 /* 66.0 */ }) {
        (
            one,
            Double { bits: 0x3fd8_f718_b07b_0788 /* 0.39008157 */ }.times(log).minus(Double { bits: 0x3fe4_380b_8a21_d76b /* 0.63184144 */ }).clamp(zero, one),
        )
    } else {
        (
            Double { bits: 0x3ff4_afdd_a8bd_230c /* 1.292936 */ }.times(red_power).clamp(zero, one),
            Double { bits: 0x3ff2_1407_8961_3d32 /* 1.129890 */ }.times(green_power).clamp(zero, one),
        )
    }
}

/// The blue of a black body at `t` hundreds of Kelvin, from the logarithm of `t - 10`.
pub fn blue_channel(t: Double, log: Double) -> (r: Double)
    ensures
        r == blue(t, log),
{
    let zero: Double = Double { bits: ZERO };
    let one: Double = Double { bits: ONE };
    if (Double { bits: 0x4050_8000_0000_0000 /* 66.0 */ }).le(t) {
        one
    } else if t.le(Double { bits: 0x4033_0000_0000_0000 /* 19.0 */ }) {
        zero
    } else {
        Double { bits: 0x3fe1_61f3_046e_fa8a /* 0.5432067 */ }.times(log).minus(Double { bits: 0x3ff3_23db_3bfb_58d1 /* 1.196254 */ }).clamp(zero, one)
    }
}

/// Approximate blackbody color as normalized linear RGB.
pub fn blackbody_srgb<M: Fn(Elementary, Double, Double) -> Double>(maths: &M, temp_k: Single) -> (r: [Single; 3])
    requires
        reliable(*maths),
    ensures
        r == color_of(*maths, temp_k),
{
    let zero: Double = Double { bits: ZERO };
    let t: Double = temp_k.over(Single { bits: 0x42c8_0000 /* 100.0 */ }).to_double();
    let above: Double = t.minus(Double { bits: 0x404e_0000_0000_0000 /* 60.0 */ });
    let (r, g): (Double, Double) = if t.le(Double { bits: 0x4050_8000_0000_0000 /* 66.0 */ }) {
        red_green_channels(t, evaluate(maths, Elementary::Ln, t, zero), zero, zero)
    } else {
        red_green_channels(
            t,
            zero,
            evaluate(maths, Elementary::Pow, above, Double { bits: 0xbfc1_0cda_0316_34f6 /* -0.1332047 */ }),
            evaluate(maths, Elementary::Pow, above, Double { bits: 0xbfb3_54f0_1c5d_2dd9 /* -0.0755148 */ }),
        )
    };
    let b: Double = if t.le(Double { bits: 0x4033_0000_0000_0000 /* 19.0 */ }) || (Double { bits: 0x4050_8000_0000_0000 /* 66.0 */ }).le(t) {
        blue_channel(t, zero)
    } else {
        blue_channel(t, evaluate(maths, Elementary::Ln, t.minus(Double { bits: 0x4024_0000_0000_0000 /* 10.0 */ }), zero))
    };
    [r.to_single(), g.to_single(), b.to_single()]
}

/// Generate the stars owned by `key`: those whose absolute magnitude falls in this depth's
/// exclusive band and whose position lies inside the node cube.
pub fn generate_stars<M: Fn(Elementary, Double, Double) -> Double>(
    maths: &M,
    params: &GalaxyParams,
    key: NodeKey,
) -> (stars: Vec<Star>)
    requires
        reliable(*maths),
        exp_has_floor(*maths),
        key.depth < 64,
    ensures
        stars@ == stars_of(*maths, *params, key),
{
    reveal(stars_of);
    let seed: u64 = node_seed(params.root_seed, key);
    let mut rng: ChaCha8Rng = seeded(seed);
    let ghost words = chacha8_words(seed);
    assert(is_at(rng, words, 0));
    let node_size: Double = params.node_size_m(key.depth);
    let origin: Vector = params.node_min_m(key);
    let lambda: Double = params.expected_stars(maths, key.depth);
    let count: u64 = poisson_ish(maths, &mut rng, Ghost(words), lambda);
    let ghost used = poisson_draw(*maths, words, lambda).1;
    let (band_lo, hi): (Single, Single) = params.mag_band(key.depth);
    let lo: Single = if band_lo.is_finite() {
        band_lo
    } else {
        Single { bits: 0xc140_0000 /* -12.0 */ }
    };
    let mut stars: Vec<Star> = Vec::with_capacity(if count < 8192 {
        count as usize
    } else {
        8192
    });
    let mut i: u64 = 0;
    let ghost mut at: nat = used;
    while i < count
        invariant
            i <= count,
            reliable(*maths),
            key.depth < 64,
            node_size == params.node_size(key.depth),
            origin == params.corner(key),
            (lo, hi) == sampling_band(key.depth),
            at == used + 9 * i,
            is_at(rng, words, at),
            stars@ == Seq::new(
                i as nat,
                |j: int| star_at(*maths, *params, key, words, (used + 9 * j) as nat),
            ),
        decreases count - i,
    {
        let u: Single = draw_single(&mut rng, Ghost(words), Ghost(at));
        let w: Single = evaluate(
            maths,
            Elementary::PowSingle,
            u.to_double(),
            Single { bits: 0x3fcc_cccd /* 1.6 */ }.to_double(),
        ).to_single();
        let abs_mag: Single = magnitude_in_band(lo, hi, w);
        let x: Double = draw_double(&mut rng, Ghost(words), Ghost(at + 1));
        let y: Double = draw_double(&mut rng, Ghost(words), Ghost(at + 3));
        let z: Double = draw_double(&mut rng, Ghost(words), Ghost(at + 5));
        let world: Vector = origin.plus(
            Vector::new(x.times(node_size), y.times(node_size), z.times(node_size)),
        );
        let t: Double = draw_double(&mut rng, Ghost(words), Ghost(at + 7));
        let temp_k: Single = spectral_temperature(maths, t);
        let star: Star = Star {
            pos: GalacticCoord::from_meters_f64(world),
            abs_mag,
            color: blackbody_srgb(maths, temp_k),
            radius: stellar_radius_m(maths, abs_mag, temp_k),
        };
        assert(star == star_at(*maths, *params, key, words, at));
        stars.push(star);
        proof {
            at = at + 9;
        }
        i = i + 1;
    }
    stars
}

} // verus!
