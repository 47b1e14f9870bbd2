//! Laws of the magnitude bands: each depth owns one, they do not overlap, and every star lies in
//! the band of its depth.
use vstd::arithmetic::div_mod::*;
use vstd::arithmetic::mul::*;
use vstd::arithmetic::power2::*;
use vstd::prelude::*;

use crate::draws::{chacha8_words, unit_single};
use crate::generate::{band_part, magnitude_between, poisson_draw, sampling_band, star_at, stars_of};
use crate::ieee::convert::single_of_int;
use crate::ieee::Double;
use crate::maths::{answers, value_of, Elementary};
use crate::node::NodeKey;
use crate::seed::seed_of;
use crate::ieee::encoding::{code_units, lemma_code_split, lemma_code_units_increases, Single};
use crate::ieee::error::{lemma_single_product, lemma_single_sum, lemma_single_sum_order};
use crate::ieee::exact::{
    lemma_has_digits, lemma_nearest_at_least, lemma_nearest_at_most, lemma_nearest_exists,
    lemma_nearest_of_code,
};
use crate::ieee::rounding::{lemma_code_units_ordered, nearest_code};
use crate::ieee::single::{lemma_single_format, SINGLE_INF};
use crate::params::{GalaxyParams, MAGNITUDE_STEP, MINUS_INFINITY_SINGLE, ROOT_MAGNITUDE};

verus! {

/// Powers of two that the proofs here speak of, in units of the format.
proof fn lemma_scales()
    ensures
        pow2(126) > 0,
        pow2(112) > 0,
        pow2(126) == 0x4000 * pow2(112),
        pow2(127) == 2 * pow2(126),
        pow2(133) == 128 * pow2(126),
        pow2(134) == 256 * pow2(126),
        pow2(136) == 1024 * pow2(126),
        pow2(138) == 4096 * pow2(126),
        pow2(149) == 0x80_0000 * pow2(126),
        pow2(150) == 0x100_0000 * pow2(126),
        pow2(151) == 0x200_0000 * pow2(126),
        pow2(158) == 0x1_0000_0000 * pow2(126),
{
    lemma2_to64();
    lemma_pow2_pos(126);
    lemma_pow2_pos(112);
    lemma_pow2_adds(14, 112);
    lemma_pow2_adds(1, 126);
    lemma_pow2_adds(7, 126);
    lemma_pow2_adds(8, 126);
    lemma_pow2_adds(10, 126);
    lemma_pow2_adds(12, 126);
    lemma_pow2_adds(23, 126);
    lemma_pow2_adds(24, 126);
    lemma_pow2_adds(25, 126);
    lemma_pow2_adds(32, 126);
}

/// A code stands for every number of up to twenty-four digits times a power of two in range.
pub proof fn lemma_single_code(x: nat, k: nat) -> (c: nat)
    requires
        x < 0x100_0000,
        24 <= k <= 150,
    ensures
        c < SINGLE_INF,
        code_units(c, 23) == x * pow2(k),
{
    lemma_single_format();
    let q = pow2(23);
    if x == 0 {
        assert(0 * pow2(k) == 0) by (nonlinear_arith);
        0
    } else {
        let n = lemma_has_digits(x);
        lemma2_to64();
        if n > 24 {
            if n > 25 {
                lemma_pow2_strictly_increases(24, (n - 1) as nat);
            }
        }
        let g = (24 - n) as nat;
        let (pg, a, b) = (pow2(g), pow2((n - 1) as nat), pow2(n));
        lemma_pow2_adds((n - 1) as nat, g);
        lemma_pow2_adds(n, g);
        lemma_pow2_pos(g);
        let m = x * pg;
        assert(a * pg <= m < b * pg) by (nonlinear_arith)
            requires
                m == x * pg,
                a <= x < b,
                pg > 0,
        ;
        let e = (k - g) as nat;
        lemma_pow2_adds(g, e);
        assert(m * pow2(e) == x * pow2(k)) by (nonlinear_arith)
            requires
                m == x * pg,
                pow2(k) == pg * pow2(e),
        ;
        lemma_code_split(e, m, 23);
        let c = e * q + m;
        assert(c < 0x7f80_0000) by (nonlinear_arith)
            requires
                c == e * q + m,
                e <= 150,
                q == 0x80_0000,
                m < 2 * q,
        ;
        c
    }
}

/// Small whole numbers are held exactly.
pub proof fn lemma_small_single(x: nat)
    requires
        x <= 255,
    ensures
        single_of_int(x as int).finite(),
        !single_of_int(x as int).negative(),
        single_of_int(x as int).units() == x * pow2(149),
{
    let c = lemma_single_code(x, 149);
    lemma_nearest_of_code(c, 1, 23, SINGLE_INF as nat);
    let u = x * pow2(149);
    assert(u * 1 == u) by (nonlinear_arith);
}

/// Rounding keeps multiples of the step between the numbers from one to two.
proof fn lemma_multiples_stay(q: nat, d: nat) -> (r: nat)
    requires
        d > 0,
    ensures
        code_units(nearest_code(q * pow2(126) * d, d, 23, SINGLE_INF as nat), 23) == r * pow2(126),
{
    let inf = SINGLE_INF as nat;
    let k = pow2(126);
    let n = q * k * d;
    lemma_single_format();
    lemma_scales();
    if q < 0x100_0000 {
        let c = lemma_single_code(q, 126);
        lemma_nearest_of_code(c, d, 23, inf);
        q
    } else {
        // At least two: every number there is such a multiple.
        let two = 0x4000_0000nat;
        assert(two / pow2(23) == 128 && two % pow2(23) == 0);
        lemma_pow2_adds(23, 127);
        assert(code_units(two, 23) == pow2(150));
        assert(n >= pow2(150) * d) by (nonlinear_arith)
            requires
                n == q * k * d,
                q >= 0x100_0000,
                pow2(150) == 0x100_0000 * k,
                k > 0,
                d > 0,
        ;
        lemma_nearest_at_least(n, d, 23, inf, two);
        let c = nearest_code(n, d, 23, inf);
        let (e, f) = (c / pow2(23), c % pow2(23));
        assert(e >= 128);
        lemma_pow2_adds((e - 127) as nat, 126);
        let (m, h) = (f + pow2(23), pow2((e - 127) as nat));
        assert(m * (h * k) == (m * h) * k) by (nonlinear_arith);
        m * h
    }
}

/// The values of the constants behind the limits.
proof fn lemma_constants()
    ensures
        (Single { bits: ROOT_MAGNITUDE }).units() == -9 * pow2(149),
        (Single { bits: MAGNITUDE_STEP }).units() == 8808038 * pow2(126),
{
    lemma_single_format();
    lemma_scales();
    let root = Single { bits: ROOT_MAGNITUDE };
    assert(root.code() / pow2(23) == 130 && root.code() % pow2(23) == 0x10_0000);
    lemma_pow2_adds(3, 126);
    lemma2_to64();
    let z = pow2(129);
    assert((0x10_0000 + pow2(23)) * z == 0x90_0000 * z) by (nonlinear_arith)
        requires
            pow2(23) == 0x80_0000,
    ;
    assert(root.units() == -(0x90_0000 * z));
    let step = Single { bits: MAGNITUDE_STEP };
    assert(step.code() / pow2(23) == 127 && step.code() % pow2(23) == 419430);
}

/// `x` is `q` times the step between the numbers from one to two.
pub open spec fn is_multiple(x: int, q: int) -> bool {
    x == q * pow2(126)
}

/// The limit at a depth is its exact value but for rounding.
pub proof fn lemma_limit(depth: u8)
    ensures
        ({
            let limit = GalaxyParams::magnitude_limit(depth);
            let exact = depth * (8808038 * pow2(126)) - 9 * pow2(149);
            &&& limit.finite()
            &&& -256 * pow2(126) <= limit.units() - exact <= 256 * pow2(126)
            &&& -(pow2(158) as int) < limit.units() < pow2(158)
            &&& exists|q: int| #[trigger] is_multiple(limit.units(), q)
        }),
{
    lemma_scales();
    lemma_constants();
    lemma_small_single(depth as nat);
    let k = pow2(126) as int;
    let t = pow2(149) as int;
    let a = single_of_int(depth as int);
    let step = Single { bits: MAGNITUDE_STEP };
    let c = 8808038 * k;
    let n = depth as int;
    assert(a.units() * step.units() == (n * c) * t) by (nonlinear_arith)
        requires
            a.units() == n * t,
            step.units() == c,
    ;
    assert(0 <= n * c <= 255 * c) by (nonlinear_arith)
        requires
            0 <= n <= 255,
            c >= 0,
    ;
    assert((n * c) * t <= pow2(158) * t) by (nonlinear_arith)
        requires
            n * c <= pow2(158),
            t > 0,
    ;
    lemma_single_product(a, step, 136);
    let p = a.product(step);
    let u = p.units();
    assert(2 * (u - n * c) <= 256 * k && 2 * (n * c - u) <= 256 * k) by (nonlinear_arith)
        requires
            2 * (u * t - (n * c) * t) <= (256 * k) * t,
            2 * ((n * c) * t - u * t) <= (256 * k) * t,
            t > 0,
    ;
    let root = Single { bits: ROOT_MAGNITUDE };
    lemma_single_sum(root, p, 136);
    // Both roundings keep multiples.
    let inf = SINGLE_INF as nat;
    let steps = (depth * 8808038) as nat;
    let whole = steps * pow2(126) * pow2(149);
    let r = lemma_multiples_stay(steps, pow2(149));
    assert(whole == (n * c) * t) by (nonlinear_arith)
        requires
            whole == steps * pow2(126) * pow2(149),
            steps == n * 8808038,
            c == 8808038 * k,
            k == pow2(126),
            t == pow2(149),
    ;
    lemma_nearest_exists(whole, pow2(149), 23, inf);
    assert(u == r * pow2(126));
    let s = root.units() + u;
    let v = r - 9 * 0x80_0000;
    assert(s == v * k) by (nonlinear_arith)
        requires
            s == -9 * (0x80_0000 * k) + r * k,
            v == r - 9 * 0x80_0000,
    ;
    let m = if v < 0 {
        (-v) as nat
    } else {
        v as nat
    };
    let w = lemma_multiples_stay(m, 1);
    assert(m * pow2(126) * 1 == m * pow2(126)) by (nonlinear_arith);
    assert((-v) * k == -(v * k)) by (nonlinear_arith);
    lemma_nearest_exists(m * pow2(126), 1, 23, inf);
    let limit = GalaxyParams::magnitude_limit(depth);
    assert(-(w as int) * k == -(w * k)) by (nonlinear_arith);
    if s < 0 {
        assert(v < 0) by (nonlinear_arith)
            requires
                v * k < 0,
                k > 0,
        ;
        assert(is_multiple(limit.units(), -(w as int)));
    } else if s == 0 {
        assert(0 * k == 0) by (nonlinear_arith);
        lemma_pow2_pos(23);
        assert(is_multiple(limit.units(), 0));
    } else {
        assert(v > 0) by (nonlinear_arith)
            requires
                v * k > 0,
                k > 0,
        ;
        assert(is_multiple(limit.units(), w as int));
    }
}

/// Each level reveals fainter stars: the limits increase strictly.
pub proof fn law_magnitude_limits_increase(d: u8, e: u8)
    requires
        d < e,
    ensures
        GalaxyParams::magnitude_limit(d).less(GalaxyParams::magnitude_limit(e)),
{
    lemma_limit(d);
    lemma_limit(e);
    lemma_scales();
    let c = 8808038 * pow2(126);
    assert(e * c >= d * c + c) by (nonlinear_arith)
        requires
            e >= d + 1,
            c >= 0,
    ;
}

/// `mag` lies in the band that `depth` owns: above the first bound, not above the second.
pub open spec fn in_band(mag: Single, depth: u8) -> bool {
    let (lo, hi) = GalaxyParams::magnitude_band(depth);
    lo.less(mag) && mag.at_most(hi)
}

/// No magnitude belongs to two depths.
pub proof fn law_bands_do_not_overlap(mag: Single, d: u8, e: u8)
    requires
        in_band(mag, d),
        in_band(mag, e),
    ensures
        d == e,
{
    if d < e {
        if d < e - 1 {
            law_magnitude_limits_increase(d, (e - 1) as u8);
        }
    } else if e < d {
        if e < d - 1 {
            law_magnitude_limits_increase(e, (d - 1) as u8);
        }
    }
}

/// Every magnitude up to the limit of a depth belongs to that depth or to a shallower one.
pub proof fn law_every_magnitude_has_a_depth(mag: Single, depth: u8)
    requires
        (Single { bits: MINUS_INFINITY_SINGLE }).less(mag),
        mag.at_most(GalaxyParams::magnitude_limit(depth)),
    ensures
        exists|d: u8| d <= depth && in_band(mag, d),
    decreases depth,
{
    if in_band(mag, depth) {
    } else {
        lemma_limit((depth - 1) as u8);
        law_every_magnitude_has_a_depth(mag, (depth - 1) as u8);
        let d = choose|d: u8| d <= depth - 1 && in_band(mag, d);
        assert(d <= depth && in_band(mag, d));
    }
}

/// The magnitude at a part of the way through a band whose width is the number with code `c`
/// lies in the band.
proof fn lemma_sample(lo: Single, hi: Single, w: Single, c: nat)
    requires
        lo.finite(),
        hi.finite(),
        -(pow2(158) as int) < lo.units() < pow2(158),
        -(pow2(158) as int) < hi.units() < pow2(158),
        c < SINGLE_INF,
        hi.units() - lo.units() == code_units(c, 23),
        pow2(149) <= code_units(c, 23) < 25200000 * pow2(126),
        w.finite(),
        !w.negative(),
        w.units() <= pow2(149),
    ensures
        lo.less(magnitude_between(lo, hi, w)),
        magnitude_between(lo, hi, w).at_most(hi),
        magnitude_between(lo, hi, w).finite(),
{
    lemma_scales();
    lemma_single_format();
    let inf = SINGLE_INF as nat;
    let (k, t, j) = (pow2(126) as int, pow2(149) as int, pow2(112) as int);
    let h = code_units(c, 23);
    let minus = lo.opposite();
    assert(minus.finite() && minus.units() == -lo.units());
    lemma_nearest_of_code(c, 1, 23, inf);
    assert(h * 1 == h) by (nonlinear_arith);
    let delta = hi.difference(lo);
    assert(delta.code() == c && !delta.negative());
    // The way into the band is at most the width.
    let wu = code_units(w.code(), 23);
    assert(h * wu <= h * pow2(149)) by (nonlinear_arith)
        requires
            0 <= wu <= pow2(149),
            h >= 0,
    ;
    lemma_nearest_at_most(h * wu, pow2(149), 23, inf, c);
    let x = delta.product(w);
    lemma_code_units_ordered(nearest_code(h * wu, pow2(149), 23, inf), c, 23);
    assert(x.finite() && 0 <= x.units() <= h);
    lemma_single_sum_order(lo, x, hi);
    lemma_single_sum(lo, x, 136);
    // The small step away from the bright edge.
    let tiny = Single { bits: 0x38d1_b717 };
    assert(tiny.code() / pow2(23) == 113 && tiny.code() % pow2(23) == 0x51_b717);
    assert(tiny.units() == 13743895 * j);
    let (tu, du) = (tiny.units(), h as int);
    let top = pow2(138) as int;
    assert(du * tu <= top * t) by (nonlinear_arith)
        requires
            0 <= du < 25200000 * k,
            tu == 13743895 * j,
            t == 0x80_0000 * k,
            k == 0x4000 * j,
            j > 0,
            top == 4096 * k,
    ;
    lemma_single_product(delta, tiny, 116);
    let y = delta.product(tiny);
    let yu = y.units();
    lemma_pow2_adds(2, 112);
    lemma2_to64();
    let g = pow2(114) as int;
    assert(yu >= 13000000 * j) by (nonlinear_arith)
        requires
            2 * (du * tu - yu * t) <= g * t,
            tu == 13743895 * j,
            t > 0,
            du >= t,
            g == 4 * j,
            j > 0,
    {
        assert(du * tu >= t * tu) by (nonlinear_arith)
            requires
                du >= t,
                tu == 13743895 * j,
                j > 0,
        ;
        assert(2 * (yu * t) >= 2 * (t * tu) - g * t);
        assert(2 * yu >= 2 * tu - g) by (nonlinear_arith)
            requires
                2 * (yu * t) >= 2 * (t * tu) - g * t,
                t > 0,
        ;
    }
    lemma_single_sum_order(lo, y, hi);
    lemma_single_sum(lo, y, 136);
}

/// Every star lies in the band of its depth: every part of the way into the band, from none to
/// all of it, gives a magnitude in the band, and never its excluded bright edge.
pub proof fn law_stars_respect_their_depth_magnitude_band(depth: u8, w: Single)
    requires
        !w.negative(),
        w.at_most(Single { bits: 0x3f80_0000 /* 1.0 */ }),
    ensures
        ({
            let (lo, hi) = sampling_band(depth);
            in_band(magnitude_between(lo, hi, w), depth)
        }),
{
    lemma_scales();
    lemma_single_format();
    let k = pow2(126) as int;
    let one = Single { bits: 0x3f80_0000 };
    assert(one.code() / pow2(23) == 127 && one.code() % pow2(23) == 0);
    lemma_pow2_adds(23, 126);
    assert(one.units() == pow2(149));
    assert(w.finite()) by {
        if !w.finite() {
            lemma_code_units_increases(one.code(), w.code(), 23);
        }
    }
    let (lo, hi) = sampling_band(depth);
    lemma_limit(depth);
    if depth == 0 {
        let edge = Single { bits: MINUS_INFINITY_SINGLE };
        assert(!edge.finite());
        assert(lo.code() / pow2(23) == 130 && lo.code() % pow2(23) == 0x40_0000);
        lemma_pow2_adds(3, 126);
        lemma2_to64();
        let z = pow2(129);
        assert((0x40_0000 + pow2(23)) * z == 0xc0_0000 * z) by (nonlinear_arith)
            requires
                pow2(23) == 0x80_0000,
        ;
        assert(lo.units() == -(0xc0_0000 * z));
        lemma_root_limit();
        let c = lemma_single_code(3, 149);
        lemma_sample(lo, hi, w, c);
        // Minus infinity is below every finite number.
        lemma_minus_infinity_is_below(magnitude_between(lo, hi, w));
    } else {
        lemma_limit((depth - 1) as u8);
        let step = 8808038 * pow2(126);
        assert(depth * step == (depth - 1) * step + step) by (nonlinear_arith);
        let q1 = choose|q: int| #[trigger] is_multiple(hi.units(), q);
        let q0 = choose|q: int| #[trigger] is_multiple(lo.units(), q);
        let q = q1 - q0;
        let h = hi.units() - lo.units();
        assert(h == q * k) by (nonlinear_arith)
            requires
                h == q1 * k - q0 * k,
                q == q1 - q0,
        ;
        assert(0x80_0000 <= q < 0x100_0000) by (nonlinear_arith)
            requires
                q * k >= 8807526 * k,
                q * k <= 8808550 * k,
                k > 0,
        ;
        let c = lemma_single_code(q as nat, 126);
        lemma_sample(lo, hi, w, c);
    }
}

/// The limit at the root is minus nine.
proof fn lemma_root_limit()
    ensures
        GalaxyParams::magnitude_limit(0).units() == -9 * pow2(149),
{
    lemma_small_single(0);
    lemma_constants();
    lemma_single_format();
    lemma_pow2_pos(149);
    lemma_pow2_pos(23);
    let inf = SINGLE_INF as nat;
    let zero = single_of_int(0);
    let step = Single { bits: MAGNITUDE_STEP };
    let u = code_units(step.code(), 23);
    assert(0 * pow2(149) == 0) by (nonlinear_arith);
    if zero.code() > 0 {
        lemma_code_units_increases(0, zero.code(), 23);
    }
    lemma_nearest_of_code(0, pow2(149), 23, inf);
    assert(code_units(0, 23) * u == 0 && code_units(0, 23) * pow2(149) == 0) by (nonlinear_arith)
        requires
            code_units(0, 23) == 0,
    ;
    assert(zero.product(step).code() == 0);
    let root = Single { bits: ROOT_MAGNITUDE };
    let n = code_units(root.code(), 23);
    lemma_nearest_of_code(root.code(), 1, 23, inf);
    assert(n * 1 == n) by (nonlinear_arith);
}

proof fn lemma_minus_infinity_is_below(x: Single)
    requires
        x.finite(),
    ensures
        (Single { bits: MINUS_INFINITY_SINGLE }).less(x),
{
    lemma_code_units_increases(x.code(), SINGLE_INF as nat, 23);
}

/// The supplied power keeps numbers drawn from the unit interval between zero and one.
pub open spec fn powers_stay_in_unit<M: Fn(Elementary, Double, Double) -> Double>(maths: M) -> bool {
    forall|word: u32, r: Double| #[trigger]
        call_ensures(
            maths,
            (Elementary::PowSingle, unit_single(word).widened(), (Single { bits: 0x3fcc_cccd /* 1.6 */ }).widened()),
            r,
        ) ==> !r.narrowed().negative() && r.narrowed().at_most(Single { bits: 0x3f80_0000 /* 1.0 */ })
}

proof fn lemma_band_part<M: Fn(Elementary, Double, Double) -> Double>(maths: M, word: u32)
    requires
        powers_stay_in_unit(maths),
    ensures
        !band_part(maths, unit_single(word)).negative(),
        band_part(maths, unit_single(word)).at_most(Single { bits: 0x3f80_0000 /* 1.0 */ }),
{
    let (f, x, y) = (Elementary::PowSingle, unit_single(word).widened(), (Single { bits: 0x3fcc_cccd /* 1.6 */ }).widened());
    if exists|r: Double| answers(maths, f, x, y, r) {
        assert(answers(maths, f, x, y, value_of(maths, f, x, y)));
    } else {
        let zero = Double { bits: 0 };
        lemma_pow2_pos(23);
        lemma_pow2_pos(52);
        lemma_pow2_pos(925);
        assert(code_units(0, 23) * pow2(925) == 0) by (nonlinear_arith)
            requires
                code_units(0, 23) == 0,
        ;
        lemma_nearest_of_code(0, pow2(925), 23, SINGLE_INF as nat);
        assert(code_units(0, 52) == 0);
        assert(zero.narrowed() == Single { bits: 0 });
    }
}

/// The stars that a node owns have magnitudes in the band of its depth.
pub proof fn law_generated_stars_lie_in_their_band<M: Fn(Elementary, Double, Double) -> Double>(
    maths: M,
    params: GalaxyParams,
    key: NodeKey,
    i: int,
)
    requires
        powers_stay_in_unit(maths),
        0 <= i < stars_of(maths, params, key).len(),
    ensures
        in_band(stars_of(maths, params, key)[i].abs_mag, key.depth),
{
    reveal(stars_of);
    let words = chacha8_words(seed_of(params.root_seed, key));
    let (count, used) = poisson_draw(maths, words, params.expected(maths, key.depth));
    let at = (used + 9 * i) as nat;
    assert(stars_of(maths, params, key)[i] == star_at(maths, params, key, words, at));
    let w = band_part(maths, unit_single(words[at]));
    lemma_band_part(maths, words[at]);
    law_stars_respect_their_depth_magnitude_band(key.depth, w);
}

/// No star belongs to two depths: stars that nodes of different depths own have different
/// magnitudes.
pub proof fn law_depths_do_not_share_stars<M: Fn(Elementary, Double, Double) -> Double>(
    maths: M,
    params: GalaxyParams,
    a: NodeKey,
    i: int,
    b: NodeKey,
    j: int,
)
    requires
        powers_stay_in_unit(maths),
        a.depth != b.depth,
        0 <= i < stars_of(maths, params, a).len(),
        0 <= j < stars_of(maths, params, b).len(),
    ensures
        stars_of(maths, params, a)[i].abs_mag != stars_of(maths, params, b)[j].abs_mag,
{
    law_generated_stars_lie_in_their_band(maths, params, a, i);
    law_generated_stars_lie_in_their_band(maths, params, b, j);
    if stars_of(maths, params, a)[i].abs_mag == stars_of(maths, params, b)[j].abs_mag {
        law_bands_do_not_overlap(stars_of(maths, params, a)[i].abs_mag, a.depth, b.depth);
    }
}

} // verus!
