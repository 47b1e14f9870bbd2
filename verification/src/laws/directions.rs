//! Laws of drawn stars: their directions have length one, and their intensities are positive and
//! bounded.
use vstd::arithmetic::power2::*;
use vstd::prelude::*;

use crate::coord::{GalacticCoord, METERS_PER_PARSEC};
use crate::ieee::accuracy::size;
use crate::ieee::bounds::{lemma_power_code, power_code};
use crate::ieee::convert::double_of_int;
use crate::ieee::double::DOUBLE_INF;
use crate::ieee::encoding::{
    code_units, lemma_code_split, lemma_code_units_increases, Double, Single,
};
use crate::ieee::error::{lemma_relative_error, lemma_rounding_error, lemma_single_product_order};
use crate::ieee::exact::{lemma_int_stays_below, lemma_nearest_at_most, lemma_nearest_exists};
use crate::ieee::rounding::nearest_code;
use crate::ieee::single::{lemma_single_format, SINGLE_INF};
use crate::laws::colors::in_unit;
use crate::laws::lengths::{
    close, is_extent, lemma_close_cancels, lemma_close_chain, lemma_close_doubles,
    lemma_close_scales, lemma_close_squares, lemma_close_sum, lemma_close_turns,
    lemma_close_weakens, lemma_extent_of_int, lemma_norm, lemma_quotient_rounds,
};
use crate::laws::photometry::{lemma_single_power_code, single_power_code};
use crate::laws::render::law_intensity_stays_in_range;
use crate::laws::space::lemma_range;
use crate::maths::{value_of, Elementary};
use crate::octree::VisibleStar;
use crate::params::{ONE, ZERO};
use crate::render::projection::Projection;
use crate::render::stars::{direction, flux_power, instance_of, intensity_at, photometric_at};
use crate::vector::Vector;

verus! {

/// The sum of the squares of the components of a vector over its length is close to one.
proof fn lemma_length_of_quotient(v: Vector)
    requires
        v.x.finite(),
        v.y.finite(),
        v.z.finite(),
        is_extent(code_units(v.x.code(), 52)),
        is_extent(code_units(v.y.code(), 52)),
        is_extent(code_units(v.z.code(), 52)),
        code_units(v.x.code(), 52) > 0 || code_units(v.y.code(), 52) > 0 || code_units(
            v.z.code(),
            52,
        ) > 0,
    ensures
        ({
            let d = v.quotient(v.norm());
            let (p, q, r) = (
                code_units(d.x.code(), 52) as int,
                code_units(d.y.code(), 52) as int,
                code_units(d.z.code(), 52) as int,
            );
            &&& d.x.finite() && d.y.finite() && d.z.finite()
            &&& close(p * p + q * q + r * r, pow2(1074) as int * pow2(1074), 46)
        }),
{
    let u = pow2(1074) as int;
    let (a, b, c) = (
        code_units(v.x.code(), 52) as int,
        code_units(v.y.code(), 52) as int,
        code_units(v.z.code(), 52) as int,
    );
    lemma_norm(v);
    let norm = v.norm();
    let n = norm.units();
    let nn = n * n;
    let s3 = a * a + b * b + c * c;
    lemma_pow2_pos(1074);
    lemma_pow2_pos(1073);
    lemma_pow2_unfold(1074);
    // So the squares of the quotients add up to one.
    let d = v.quotient(norm);
    lemma_quotient_rounds(v.x, norm);
    lemma_quotient_rounds(v.y, norm);
    lemma_quotient_rounds(v.z, norm);
    let (e, f, g) = (
        code_units(d.x.code(), 52) as int,
        code_units(d.y.code(), 52) as int,
        code_units(d.z.code(), 52) as int,
    );
    lemma_close_squares(e * n, a * u, 51);
    lemma_close_squares(f * n, b * u, 51);
    lemma_close_squares(g * n, c * u, 51);
    let uu = u * u;
    lemma_scaled_square(e, n);
    lemma_scaled_square(f, n);
    lemma_scaled_square(g, n);
    lemma_scaled_square(a, u);
    lemma_scaled_square(b, u);
    lemma_scaled_square(c, u);
    lemma_close_sum((e * e) * nn, (a * a) * uu, (f * f) * nn, (b * b) * uu, 51);
    lemma_close_sum(
        (e * e) * nn + (f * f) * nn,
        (a * a) * uu + (b * b) * uu,
        (g * g) * nn,
        (c * c) * uu,
        51,
    );
    let w = e * e + f * f + g * g;
    assert(w * nn == (e * e) * nn + (f * f) * nn + (g * g) * nn && s3 * uu == (a * a) * uu + (b * b)
        * uu + (c * c) * uu && uu >= 0) by (nonlinear_arith)
        requires
            w == e * e + f * f + g * g,
            s3 == a * a + b * b + c * c,
            uu == u * u,
    ;
    lemma_close_scales(nn, s3, uu, 48);
    lemma_close_turns(nn * uu, s3 * uu, 47);
    lemma_close_weakens(w * nn, s3 * uu, 51, 48);
    lemma_close_chain(w * nn, s3 * uu, nn * uu, 46);
    lemma_pow2_pos(1073);
    assert(nn > 0 && nn * uu == uu * nn) by (nonlinear_arith)
        requires
            nn == n * n,
            n > 0,
    ;
    lemma_close_cancels(w, uu, nn, 46);
}

/// Narrowing changes something up to two by little.
proof fn lemma_narrowing_error(d: Double)
    requires
        d.finite(),
        code_units(d.code(), 52) <= pow2(1075),
    ensures
        d.narrowed().finite(),
        ({
            let z = code_units(d.narrowed().code(), 23) * pow2(925);
            let y = code_units(d.code(), 52);
            z - y <= pow2(1050) && y - z <= pow2(1050)
        }),
{
    let y = code_units(d.code(), 52);
    let w = pow2(925);
    lemma_single_format();
    lemma_pow2_pos(925);
    lemma_pow2_adds(150, 925);
    lemma_pow2_adds(126, 925);
    lemma_pow2_unfold(1051);
    lemma_rounding_error(y, w, 23, SINGLE_INF as nat, 128);
    lemma_nearest_exists(y, w, 23, SINGLE_INF as nat);
    let c = nearest_code(y, w, 23, SINGLE_INF as nat);
    lemma_code_split(149, pow2(23), 23);
    lemma_pow2_adds(23, 149);
    lemma_pow2_strictly_increases(150, 172);
    let top = 150 * pow2(23);
    assert(149 * pow2(23) + pow2(23) == top);
    if c >= SINGLE_INF {
        lemma_code_units_increases(top, c, 23);
    }
    assert(d.narrowed().code() == c);
}

/// A drawn direction has length one: the squares of its components add up to one, up to one part
/// in `2^20`.
pub proof fn law_directions_have_length_one(pos: GalacticCoord, eye: GalacticCoord)
    requires
        pos.measurable_from(eye),
        pos != eye,
    ensures
        ({
            let dir = direction(pos, eye)@;
            let (x, y, z) = (dir[0].units(), dir[1].units(), dir[2].units());
            let length = x * x + y * y + z * z;
            let one = pow2(149) * pow2(149);
            &&& dir[0].finite() && dir[1].finite() && dir[2].finite()
            &&& (length - one) * pow2(20) <= one
            &&& (one - length) * pow2(20) <= one
        }),
{
    lemma_range();
    if pos.x.value() == eye.x.value() && pos.y.value() == eye.y.value() && pos.z.value()
        == eye.z.value() {
        pos.x.lemma_same_value(eye.x);
        pos.y.lemma_same_value(eye.y);
        pos.z.lemma_same_value(eye.z);
    }
    let v = pos.relative(eye);
    lemma_extent_of_int(pos.x.value() - eye.x.value());
    lemma_extent_of_int(pos.y.value() - eye.y.value());
    lemma_extent_of_int(pos.z.value() - eye.z.value());
    lemma_length_of_quotient(v);
    let d = v.quotient(v.norm());
    let (e, f, g) = (
        code_units(d.x.code(), 52) as int,
        code_units(d.y.code(), 52) as int,
        code_units(d.z.code(), 52) as int,
    );
    let u = pow2(1074) as int;
    let s = e * e + f * f + g * g;
    lemma_close_doubles(s, u * u, 46);
    lemma_pow2_pos(1074);
    lemma_pow2_unfold(1075);
    lemma_below_double(e, s, u);
    lemma_below_double(f, s, u);
    lemma_below_double(g, s, u);
    lemma_narrowing_error(d.x);
    lemma_narrowing_error(d.y);
    lemma_narrowing_error(d.z);
    let dir = direction(pos, eye)@;
    assert(dir[0] == d.x.narrowed() && dir[1] == d.y.narrowed() && dir[2] == d.z.narrowed());
    let w = pow2(925) as int;
    let (x, y, z) = (
        code_units(dir[0].code(), 23) as int,
        code_units(dir[1].code(), 23) as int,
        code_units(dir[2].code(), 23) as int,
    );
    let t = pow2(1050) as int;
    lemma_square_error(x * w, e, t, u);
    lemma_square_error(y * w, f, t, u);
    lemma_square_error(z * w, g, t, u);
    let length = x * x + y * y + z * z;
    let ww = w * w;
    lemma_scaled_square(x, w);
    lemma_scaled_square(y, w);
    lemma_scaled_square(z, w);
    assert(length * ww == (x * x) * ww + (y * y) * ww + (z * z) * ww) by (nonlinear_arith)
        requires
            length == x * x + y * y + z * z,
    ;
    lemma2_to64();
    lemma2_to64_rest();
    lemma_pow2_adds(24, 1050);
    let tu = t * u;
    let tt = t * t;
    let uu = u * u;
    assert(uu == 0x100_0000 * tu && tu == 0x100_0000 * tt && tt >= 0) by (nonlinear_arith)
        requires
            u == 0x100_0000 * t,
            tu == t * u,
            tt == t * t,
            uu == u * u,
    ;
    assert(pow2(46) == 0x4000_0000_0000);
    assert((s - uu) * 0x4000_0000_0000 <= uu && (uu - s) * 0x4000_0000_0000 <= uu);
    assert((length * ww - uu) * 0x10_0000 <= uu && (uu - length * ww) * 0x10_0000 <= uu);
    // In units of the narrower format.
    lemma_pow2_adds(149, 925);
    lemma_pow2_pos(925);
    let one = pow2(149) as int * pow2(149);
    assert(uu == one * ww) by (nonlinear_arith)
        requires
            u == pow2(149) * w,
            uu == u * u,
            ww == w * w,
            one == pow2(149) * pow2(149),
    ;
    assert(ww > 0) by (nonlinear_arith)
        requires
            ww == w * w,
            w > 0,
    ;
    assert((length - one) * 0x10_0000 <= one && (one - length) * 0x10_0000 <= one)
        by (nonlinear_arith)
        requires
            (length * ww - one * ww) * 0x10_0000 <= one * ww,
            (one * ww - length * ww) * 0x10_0000 <= one * ww,
            ww > 0,
    ;
    lemma_squares_of_units(dir[0]);
    lemma_squares_of_units(dir[1]);
    lemma_squares_of_units(dir[2]);
}

proof fn lemma_scaled_square(x: int, w: int)
    ensures
        (x * w) * (x * w) == (x * x) * (w * w),
{
    assert((x * w) * (x * w) == (x * x) * (w * w)) by (nonlinear_arith);
}

proof fn lemma_squares_of_units(x: Single)
    ensures
        x.units() * x.units() == code_units(x.code(), 23) as int * code_units(x.code(), 23),
{
    let n = code_units(x.code(), 23) as int;
    assert((-n) * (-n) == n * n) by (nonlinear_arith);
}

proof fn lemma_below_double(e: int, s: int, u: int)
    requires
        0 <= e,
        e * e <= s,
        s <= 2 * (u * u),
        u > 0,
    ensures
        e <= 2 * u,
{
    assert(e <= 2 * u) by (nonlinear_arith)
        requires
            0 <= e,
            e * e <= 2 * (u * u),
            u > 0,
    {
        if e > 2 * u {
            assert(e * e > (2 * u) * (2 * u));
        }
    }
}

/// Where two numbers differ by little, so do their squares.
proof fn lemma_square_error(z: int, e: int, t: int, u: int)
    requires
        0 <= e <= 2 * u,
        -t <= z - e <= t,
        0 <= z,
        t >= 0,
    ensures
        z * z - e * e <= 4 * (t * u) + t * t,
        e * e - z * z <= 4 * (t * u) + t * t,
{
    let (d, s) = (z - e, z + e);
    assert(z * z - e * e == d * s) by (nonlinear_arith)
        requires
            d == z - e,
            s == z + e,
    ;
    assert(d * s <= t * s && -(d * s) <= t * s) by (nonlinear_arith)
        requires
            -t <= d <= t,
            s >= 0,
    ;
    assert(t * s <= 4 * (t * u) + t * t) by (nonlinear_arith)
        requires
            0 <= s <= 4 * u + t,
            t >= 0,
    ;
}

/// The flux of a star seen from `distance_m` meters, that of a star at the limit being one.
pub open spec fn flux_of<M: Fn(Elementary, Double, Double) -> Double>(
    maths: M,
    v: VisibleStar,
    distance_m: Double,
    mag_limit: Single,
) -> Single {
    let d_pc = distance_m.quotient(Double { bits: METERS_PER_PARSEC });
    let log = value_of(maths, Elementary::Log10, d_pc, Double { bits: ZERO });
    value_of(
        maths,
        Elementary::PowSingle,
        (Single { bits: 0x4120_0000 /* 10.0 */ }).widened(),
        flux_power(photometric_at(v.star.abs_mag, log), mag_limit).widened(),
    ).narrowed()
}

/// A product with a number that is neither zero nor infinite is a number.
proof fn lemma_product_is_number(x: Single, f: Single)
    requires
        !x.nan(),
        f.finite(),
        f.code() > 0,
    ensures
        !x.product(f).nan(),
{
    lemma_nearest_exists(
        code_units(x.code(), 23) * code_units(f.code(), 23),
        pow2(149),
        23,
        SINGLE_INF as nat,
    );
}

/// A drawn star has a positive intensity of at most four.
pub proof fn law_drawn_stars_have_bounded_intensity<M: Fn(Elementary, Double, Double) -> Double>(
    maths: M,
    v: VisibleStar,
    eye: GalacticCoord,
    observer: GalacticCoord,
    observer_view: Projection,
    mag_limit: Single,
)
    requires
        in_unit(v.fade),
        !flux_of(maths, v, v.star.pos.distance(observer), mag_limit).nan(),
    ensures
        instance_of(maths, v, eye, observer, observer_view, mag_limit) matches Some(i)
            ==> i.intensity.finite() && (Single { bits: 0x0000_0000 /* 0.0 */ }).less(i.intensity)
            && i.intensity.at_most(Single { bits: 0x4080_0000 /* 4.0 */ }),
{
    let flux = flux_of(maths, v, v.star.pos.distance(observer), mag_limit);
    let (zero, four) = (Single { bits: 0x0000_0000 /* 0.0 */ }, Single { bits: 0x4080_0000 /* 4.0 */ });
    let base = intensity_at(flux);
    lemma_product_is_number(flux, Single { bits: 0x3ca3_d70a /* 0.02 */ });
    law_intensity_stays_in_range(flux);
    lemma_single_power_code(2);
    lemma_single_power_code(0);
    lemma_single_format();
    assert(four.code() == single_power_code(2));
    lemma_pow2_adds(2, 149);
    lemma2_to64();
    lemma_pow2_pos(149);
    lemma_pow2_pos(23);
    assert(code_units(0, 23) == 0);
    assert(zero.units() == 0);
    if !base.finite() {
        lemma_code_units_increases(four.code(), base.code(), 23);
        lemma_code_units_increases(0, base.code(), 23);
    }
    let drawn = base.product(v.fade);
    let (m, n) = (code_units(base.code(), 23), code_units(v.fade.code(), 23));
    if base.negative() {
        assert(m == 0);
        assert(m * n == 0 && 0 * pow2(149) == 0) by (nonlinear_arith)
            requires
                m == 0,
        ;
        lemma_nearest_at_most(m * n, pow2(149), 23, SINGLE_INF as nat, 0);
        assert(drawn.units() == 0);
        assert(drawn.at_most(zero));
    } else {
        let (f, g) = (base.units(), v.fade.units());
        assert(f * g <= four.units() * pow2(149)) by (nonlinear_arith)
            requires
                0 <= f <= four.units(),
                0 <= g <= pow2(149),
        ;
        lemma_single_product_order(base, v.fade, four);
    }
}

/// A star less than a meter from the observer or from the camera is not drawn, and so none that
/// is where one of them is.
pub proof fn law_stars_at_hand_are_not_drawn<M: Fn(Elementary, Double, Double) -> Double>(
    maths: M,
    v: VisibleStar,
    eye: GalacticCoord,
    observer: GalacticCoord,
    observer_view: Projection,
    mag_limit: Single,
)
    ensures
        v.star.pos.distance(observer).less(Double { bits: ONE }) || v.star.pos.distance(eye).less(
            Double { bits: ONE },
        ) ==> instance_of(maths, v, eye, observer, observer_view, mag_limit) is None,
        v.star.pos == observer || v.star.pos == eye ==> instance_of(
            maths,
            v,
            eye,
            observer,
            observer_view,
            mag_limit,
        ) is None,
{
    let p = v.star.pos;
    let zero = Double { bits: ZERO };
    let one = Double { bits: ONE };
    lemma_pow2_pos(52);
    lemma_pow2_pos(1074);
    assert(code_units(0, 52) == 0);
    lemma_power_code(0);
    assert(one.code() == power_code(0));
    assert(0nat * pow2(1074) == 0 && code_units(0, 52) * code_units(0, 52) == 0 && code_units(0, 52)
        * pow2(1074) == 0 && code_units(0, 52) * 1 == 0) by (nonlinear_arith)
        requires
            code_units(0, 52) == 0,
    ;
    lemma_nearest_at_most(0, 1, 52, DOUBLE_INF as nat, 0);
    lemma_nearest_at_most(0, pow2(1074), 52, DOUBLE_INF as nat, 0);
    assert(double_of_int(0) == zero);
    assert(zero.product(zero) == zero);
    assert(zero.sum(zero) == zero);
    assert(zero.root() == zero);
    assert(p.relative(p).norm() == zero);
    assert(zero.less(one));
}

/// A component of a direction goes where the difference `d` on its axis goes, and takes as large a
/// part of the direction as that does of the whole difference, whose square is `all`.
pub open spec fn follows_axis(x: Single, d: int, all: int) -> bool {
    &&& x.finite()
    &&& d > 0 ==> x.units() >= 0
    &&& d < 0 ==> x.units() <= 0
    &&& d == 0 ==> x.units() == 0
    &&& size(x.units() * x.units() * all - d * d * (pow2(149) * pow2(149))) * pow2(20) <= all * (
    pow2(149) * pow2(149))
}

/// A direction is that from `eye` to `pos`: on each axis it goes where the difference of the
/// coordinates does, and the squares of its components are the parts that the differences have in
/// the square of the distance, up to one in `2^20`.
pub open spec fn points_from(dir: Seq<Single>, eye: GalacticCoord, pos: GalacticCoord) -> bool {
    let (x, y, z) = (
        pos.x.value() - eye.x.value(),
        pos.y.value() - eye.y.value(),
        pos.z.value() - eye.z.value(),
    );
    let all = x * x + y * y + z * z;
    &&& follows_axis(dir[0], x, all)
    &&& follows_axis(dir[1], y, all)
    &&& follows_axis(dir[2], z, all)
}

/// A whole number is off by at most one part in `2^53`, and has its sign.
pub proof fn lemma_int_is_close(x: int)
    requires
        -(pow2(127) as int) <= x <= pow2(127),
    ensures
        ({
            let a = code_units(double_of_int(x).code(), 52) as int;
            &&& close(a, (size(x) * pow2(1074)) as int, 53)
            &&& double_of_int(x).negative() == (x < 0)
            &&& x == 0 ==> double_of_int(x).code() == 0
        }),
{
    lemma_extent_of_int(x);
    lemma_int_stays_below(x, 127);
    let n = size(x) * pow2(1074);
    lemma_pow2_pos(1074);
    lemma_pow2_pos(53);
    lemma_pow2_strictly_increases(52, 1074);
    lemma_pow2_adds(127, 1074);
    lemma_pow2_strictly_increases(1201, 2000);
    assert(size(x) * pow2(1074) <= pow2(1201) && (x != 0 ==> n >= pow2(1074)) && (x == 0 ==> n == 0))
        by (nonlinear_arith)
        requires
            size(x) <= pow2(127),
            n == size(x) * pow2(1074),
            pow2(1201) == pow2(127) * pow2(1074),
            x != 0 ==> size(x) >= 1,
            x == 0 ==> size(x) == 0,
    ;
    assert(n * 1 == n);
    lemma_nearest_exists(n, 1, 52, DOUBLE_INF as nat);
    let c = nearest_code(n, 1, 52, DOUBLE_INF as nat);
    assert(double_of_int(x).code() == c);
    if x != 0 {
        lemma_relative_error(n, 1);
        let r = code_units(c, 52);
        assert(r * 1 == r);
    } else {
        lemma_pow2_pos(52);
        assert(code_units(0, 52) * 1 == 0);
        lemma_nearest_at_most(n, 1, 52, DOUBLE_INF as nat, 0);
        assert(0 * pow2(53) == 0) by (nonlinear_arith);
    }
}

/// The square of a component of a quotient, against the part of the difference: `e` the component,
/// `a` the rounded difference `m`, `n` the length, `s` its square, `all` that of the differences.
proof fn lemma_part_of_square(e: int, a: int, m: int, n: int, s: int, all: int, u: int)
    requires
        u > 0,
        n > 0,
        m >= 0,
        all >= 0,
        close(e * n, a * u, 53),
        close(a, m * u, 53),
        close(n * n, s, 48),
        close(s, all * (u * u), 51),
    ensures
        close(all * (e * e), (m * m) * (u * u), 42),
{
    let (ee, nn, uu) = (e * e, n * n, u * u);
    lemma_close_squares(e * n, a * u, 51);
    lemma_scaled_square(e, n);
    lemma_scaled_square(a, u);
    assert(uu > 0 && ee >= 0) by (nonlinear_arith)
        requires
            uu == u * u,
            ee == e * e,
            u > 0,
    ;
    // In place of the square of the length, that of the rounded differences.
    lemma_close_scales(nn, s, ee, 48);
    lemma_close_turns(nn * ee, s * ee, 47);
    assert(nn * ee == ee * nn) by (nonlinear_arith);
    lemma_close_weakens(ee * nn, (a * a) * uu, 51, 46);
    lemma_close_chain(s * ee, ee * nn, (a * a) * uu, 45);
    // In place of the rounded difference, the exact one.
    lemma_close_squares(a, m * u, 51);
    lemma_scaled_square(m, u);
    lemma_close_scales(a * a, (m * m) * uu, uu, 51);
    lemma_close_weakens((a * a) * uu, ((m * m) * uu) * uu, 51, 44);
    lemma_close_chain(s * ee, (a * a) * uu, ((m * m) * uu) * uu, 43);
    // In place of the rounded square, the exact one.
    lemma_close_scales(s, all * uu, ee, 51);
    lemma_close_turns(s * ee, (all * uu) * ee, 50);
    lemma_close_weakens((all * uu) * ee, s * ee, 50, 44);
    lemma_close_chain((all * uu) * ee, s * ee, ((m * m) * uu) * uu, 42);
    assert((all * uu) * ee == (all * ee) * uu) by (nonlinear_arith);
    lemma_close_cancels(all * ee, (m * m) * uu, uu, 42);
}

/// A component of a direction, from the arithmetic on it: `x` its magnitude in units, `e` that
/// before narrowing, `m` the difference, `all` the square of the differences.
proof fn lemma_component(x: int, e: int, m: int, all: int, u: int, w: int, t: int)
    requires
        0 <= x,
        0 <= e <= 2 * u,
        0 <= m,
        m * m <= all,
        w > 0,
        u == pow2(149) * w,
        u == 0x100_0000 * t,
        t > 0,
        -t <= x * w - e <= t,
        close(all * (e * e), (m * m) * (u * u), 42),
    ensures
        size(x * x * all - m * m * (pow2(149) * pow2(149))) * pow2(20) <= all * (pow2(149) * pow2(
            149,
        )),
{
    lemma2_to64();
    lemma2_to64_rest();
    let z = x * w;
    assert(z >= 0) by (nonlinear_arith)
        requires
            z == x * w,
            x >= 0,
            w > 0,
    ;
    lemma_square_error(z, e, t, u);
    let (zz, ee, uu, ww, mm) = (z * z, e * e, u * u, w * w, m * m);
    let (tu, tt) = (t * u, t * t);
    assert(uu == 0x100_0000 * tu && tu == 0x100_0000 * tt && tt > 0 && ww > 0) by (nonlinear_arith)
        requires
            u == 0x100_0000 * t,
            tu == t * u,
            tt == t * t,
            uu == u * u,
            ww == w * w,
            t > 0,
            w > 0,
    ;
    let d = 4 * tu + tt;
    assert(0x20_0000 * d <= uu - 0x800 * tt);
    let au = all * uu;
    assert(all >= 0) by (nonlinear_arith)
        requires
            m * m <= all,
    ;
    // What narrowing changes.
    assert(0x20_0000 * size(all * zz - all * ee) <= au) by (nonlinear_arith)
        requires
            -d <= zz - ee <= d,
            0x20_0000 * d <= uu,
            au == all * uu,
            all >= 0,
    {
        assert(all * zz - all * ee == all * (zz - ee));
        assert(all * (zz - ee) <= all * d);
        assert(-(all * d) <= all * (zz - ee));
        assert(0x20_0000 * (all * d) <= all * uu);
    }
    // What the other operations change.
    assert(mm * uu <= au) by (nonlinear_arith)
        requires
            mm <= all,
            au == all * uu,
            uu > 0,
    ;
    let k = 0x400_0000_0000int;
    assert(pow2(42) == k);
    assert(size(all * ee - mm * uu) * k <= au);
    assert(0x10_0000 * size(all * zz - mm * uu) <= au);
    // In units of the narrower format.
    let one = pow2(149) as int * pow2(149);
    assert(uu == one * ww) by (nonlinear_arith)
        requires
            u == pow2(149) * w,
            uu == u * u,
            ww == w * w,
            one == pow2(149) * pow2(149),
    ;
    lemma_scaled_square(x, w);
    let xx = x * x;
    assert(0x10_0000 * size(xx * all - mm * one) <= all * one) by (nonlinear_arith)
        requires
            0x10_0000 * size(all * zz - mm * uu) <= all * uu,
            zz == xx * ww,
            uu == one * ww,
            ww > 0,
    {
        assert(all * zz == (xx * all) * ww);
        assert(mm * uu == (mm * one) * ww);
        assert(all * uu == (all * one) * ww);
        let v = xx * all - mm * one;
        assert(all * zz - mm * uu == v * ww);
        assert(size(v * ww) == size(v) * ww);
        assert((0x10_0000 * size(v)) * ww <= (all * one) * ww);
    }
}

/// The direction from one position to another points from the one to the other.
pub proof fn law_directions_point_at_their_stars(pos: GalacticCoord, eye: GalacticCoord)
    requires
        pos.measurable_from(eye),
        pos != eye,
    ensures
        points_from(direction(pos, eye)@, eye, pos),
{
    lemma_range();
    let (x, y, z) = (
        pos.x.value() - eye.x.value(),
        pos.y.value() - eye.y.value(),
        pos.z.value() - eye.z.value(),
    );
    if x == 0 && y == 0 && z == 0 {
        pos.x.lemma_same_value(eye.x);
        pos.y.lemma_same_value(eye.y);
        pos.z.lemma_same_value(eye.z);
    }
    let v = pos.relative(eye);
    let u = pow2(1074) as int;
    lemma_pow2_pos(1074);
    lemma_extent_of_int(x);
    lemma_extent_of_int(y);
    lemma_extent_of_int(z);
    lemma_int_is_close(x);
    lemma_int_is_close(y);
    lemma_int_is_close(z);
    lemma_norm(v);
    let norm = v.norm();
    let n = norm.units();
    lemma_pow2_pos(1073);
    lemma_pow2_unfold(1074);
    lemma_quotient_rounds(v.x, norm);
    lemma_quotient_rounds(v.y, norm);
    lemma_quotient_rounds(v.z, norm);
    let (a, b, c) = (
        code_units(v.x.code(), 52) as int,
        code_units(v.y.code(), 52) as int,
        code_units(v.z.code(), 52) as int,
    );
    let (k, l, m) = (size(x) as int, size(y) as int, size(z) as int);
    lemma_close_squares(a, k * u, 51);
    lemma_close_squares(b, l * u, 51);
    lemma_close_squares(c, m * u, 51);
    lemma_scaled_square(k, u);
    lemma_scaled_square(l, u);
    lemma_scaled_square(m, u);
    lemma_close_sum(a * a, (k * k) * (u * u), b * b, (l * l) * (u * u), 51);
    lemma_close_sum(
        a * a + b * b,
        (k * k) * (u * u) + (l * l) * (u * u),
        c * c,
        (m * m) * (u * u),
        51,
    );
    let all = k * k + l * l + m * m;
    let s = a * a + b * b + c * c;
    assert(all * (u * u) == (k * k) * (u * u) + (l * l) * (u * u) + (m * m) * (u * u) && all >= 0
        && k * k >= 0 && l * l >= 0 && m * m >= 0) by (nonlinear_arith)
        requires
            all == k * k + l * l + m * m,
    ;
    assert(k * k == x * x && l * l == y * y && m * m == z * z) by (nonlinear_arith)
        requires
            k == x || k == -x,
            l == y || l == -y,
            m == z || m == -z,
    ;
    let d = v.quotient(norm);
    lemma_axis(v.x, norm, x, s, all);
    lemma_axis(v.y, norm, y, s, all);
    lemma_axis(v.z, norm, z, s, all);
    let dir = direction(pos, eye)@;
    assert(dir[0] == d.x.narrowed() && dir[1] == d.y.narrowed() && dir[2] == d.z.narrowed());
}

/// One component of a direction.
proof fn lemma_axis(v: Double, norm: Double, x: int, s: int, all: int)
    requires
        v == double_of_int(x),
        -(pow2(127) as int) <= x <= pow2(127),
        norm.finite(),
        !norm.negative(),
        pow2(1074) <= norm.units() <= pow2(1300),
        close(norm.units() * norm.units(), s, 48),
        close(s, all * (pow2(1074) as int * pow2(1074)), 51),
        all >= 0,
        x * x <= all,
    ensures
        follows_axis(v.quotient(norm).narrowed(), x, all),
{
    let u = pow2(1074) as int;
    let n = norm.units();
    lemma_pow2_pos(1074);
    lemma_pow2_pos(1073);
    lemma_pow2_unfold(1074);
    lemma_extent_of_int(x);
    lemma_int_is_close(x);
    lemma_quotient_rounds(v, norm);
    let d = v.quotient(norm);
    let e = code_units(d.code(), 52) as int;
    let a = code_units(v.code(), 52) as int;
    let m = size(x) as int;
    lemma_pow2_pos(23);
    lemma_pow2_pos(52);
    assert(code_units(0, 52) == 0);
    assert(norm.code() > 0);
    if x == 0 {
        assert(d.code() == 0);
    }
    lemma_nearest_exists(
        code_units(v.code(), 52) * pow2(1074),
        code_units(norm.code(), 52),
        52,
        DOUBLE_INF as nat,
    );
    assert(d.negative() == v.negative());
    lemma_part_of_square(e, a, m, n, s, all, u);
    assert(m * m == x * x) by (nonlinear_arith)
        requires
            m == x || m == -x,
    ;
    // The component is at most two.
    lemma_close_doubles(all * (e * e), (m * m) * (u * u), 42);
    assert(e <= 2 * u) by (nonlinear_arith)
        requires
            all * (e * e) <= 2 * ((m * m) * (u * u)),
            m * m <= all,
            m == 0 ==> e == 0,
            m >= 0,
            e >= 0,
            u > 0,
    {
        if e > 2 * u {
            assert(e * e > (2 * u) * (2 * u));
            assert((2 * u) * (2 * u) == 4 * (u * u));
            assert(m >= 1 && m * m >= 1);
            assert(all * (e * e) >= (m * m) * (e * e));
            assert((m * m) * (e * e) > (m * m) * (4 * (u * u)));
            assert((m * m) * (4 * (u * u)) == 4 * ((m * m) * (u * u)));
            assert((m * m) * (u * u) > 0);
        }
    }
    lemma_pow2_unfold(1075);
    lemma_narrowing_error(d);
    lemma_pow2_adds(149, 925);
    lemma_pow2_adds(24, 1050);
    lemma_pow2_pos(925);
    lemma_pow2_pos(1050);
    lemma2_to64();
    let r = d.narrowed();
    let c = code_units(r.code(), 23) as int;
    lemma_component(c, e, m, all, u, pow2(925) as int, pow2(1050) as int);
    lemma_squares_of_units(r);
    lemma_nearest_exists(code_units(d.code(), 52), pow2(925), 23, SINGLE_INF as nat);
    assert(r.negative() == d.negative());
    if x == 0 {
        assert(code_units(0, 23) * pow2(925) == 0) by (nonlinear_arith)
            requires
                code_units(0, 23) == 0,
        ;
        lemma_nearest_at_most(0, pow2(925), 23, SINGLE_INF as nat, 0);
    }
    let one = pow2(149) as int * pow2(149);
    assert(r.units() * r.units() * all == c * c * all);
    assert(x * x * one == m * m * one);
}

} // verus!
