//! Laws of motion: how far and where the camera goes, and how fast.
use vstd::arithmetic::power2::*;
use vstd::prelude::*;

use crate::coord::{whole_meters, Fixed, METERS_PER_LIGHT_YEAR};
use crate::ieee::accuracy::{
    lemma_double_literal, lemma_product_relative, lemma_quotient_relative, lemma_widened_exact,
    size,
};
use crate::ieee::bounds::lemma_whole_within;
use crate::ieee::encoding::code_units;
use crate::ieee::{Double, Single};
use crate::laws::coord::law_rounding_is_within_half_a_meter;
use crate::laws::lengths::{
    close, is_extent, lemma_close_cancels, lemma_close_chain, lemma_close_scales,
    lemma_close_squares, lemma_close_turns, lemma_close_weakens, lemma_norm,
};
use crate::laws::space::lemma_range;
use crate::maths::{value_of, Elementary};
use crate::params::{ONE, ZERO};
use crate::render::camera::Camera;
use crate::vector::Vector;
use crate::viewer::{axis, scaled_speed, Controls, Viewer};
use crate::laws::viewer::lemma_twentieth;
use crate::laws::steering::lemma_single_range;

verus! {

/// What one of two opposite keys asks for: minus one, plus one, or none where neither or both are
/// pressed.
pub open spec fn asked(minus: bool, plus: bool) -> int {
    if minus == plus {
        0
    } else if plus {
        1
    } else {
        -1
    }
}

/// A vector points where the keys ask for, with length one: each component is the same number,
/// with the sign that is asked for, and the square of that number times how many axes are asked
/// for is one, up to rounding.
pub open spec fn is_heading(x: int, y: int, z: int, local: Vector, part: int) -> bool {
    let n = x * x + y * y + z * z;
    let u = pow2(1074) as int;
    &&& local.x.finite() && local.y.finite() && local.z.finite()
    &&& part > 0
    &&& close(n * (part * part), u * u, 43)
    &&& size(local.x.units() - x * part) * pow2(52) <= part
    &&& size(local.y.units() - y * part) * pow2(52) <= part
    &&& size(local.z.units() - z * part) * pow2(52) <= part
}

/// The three numbers that a key can ask for.
proof fn lemma_axis(minus: bool, plus: bool)
    ensures
        ({
            let a = axis(minus, plus);
            let u = pow2(1074) as int;
            &&& a.finite()
            &&& a.units() == asked(minus, plus) * u
            &&& is_extent(code_units(a.code(), 52))
            &&& code_units(a.code(), 52) == asked(minus, plus) * asked(minus, plus) * u
        }),
{
    let one = Double { bits: ONE };
    lemma2_to64();
    lemma2_to64_rest();
    lemma_double_literal(one, 0x10_0000_0000_0000, 1022);
    lemma_pow2_adds(52, 1022);
    lemma_pow2_strictly_increases(1074, 1201);
    lemma_pow2_pos(1074);
    let u = pow2(1074) as int;
    assert((Double { bits: ZERO }).units() == 0);
    assert(one.units() == u);
    assert(Double { bits: 0xbff0_0000_0000_0000 /* -1.0 */ }.code() == one.code());
    assert(0 * u == 0 && 1 * u == u && (-1) * u == -u && 0 * 0 * u == 0 && 1 * 1 * u == u && (-1) * (
    -1) * u == u) by (nonlinear_arith);
}

/// A component of the heading.
proof fn lemma_part(a: Double, k: int, f: Double)
    requires
        a.finite(),
        f.finite(),
        k == 0 || k == 1 || k == -1,
        a.units() == k * pow2(1074),
        pow2(1000) <= f.units() <= pow2(1100),
    ensures
        a.product(f).finite(),
        size(a.product(f).units() - k * f.units()) * pow2(52) <= f.units(),
{
    let (u, g) = (pow2(1074) as int, f.units());
    lemma2_to64();
    lemma2_to64_rest();
    lemma_pow2_pos(1074);
    lemma_pow2_strictly_increases(1100, 2000);
    lemma_pow2_strictly_increases(53, 1000);
    assert(a.units() * g == (k * g) * u) by (nonlinear_arith)
        requires
            a.units() == k * u,
    ;
    assert(size(k * g) <= g) by (nonlinear_arith)
        requires
            k == 0 || k == 1 || k == -1,
            g > 0,
    ;
    assert(size((k * g) * u) == size(k * g) * u && size(k * g) * u <= pow2(2000) * u)
        by (nonlinear_arith)
        requires
            u > 0,
            size(k * g) <= pow2(2000),
    ;
    lemma_product_relative(a, f);
    let p = a.product(f).units();
    assert(size(p - k * g) * pow2(53) <= size(k * g) + pow2(53)) by (nonlinear_arith)
        requires
            size(p * u - (k * g) * u) * pow2(53) <= size(k * g) * u + pow2(53) * u,
            u > 0,
    ;
}

/// The heading of the keys, brought to length one.
proof fn lemma_heading(c: Controls) -> (part: int)
    requires
        c.left != c.right || c.sink != c.rise || c.forward != c.back,
    ensures
        is_heading(
            asked(c.left, c.right),
            asked(c.sink, c.rise),
            asked(c.forward, c.back),
            c.heading().unit(),
            part,
        ),
{
    let (x, y, z) = (
        asked(c.left, c.right),
        asked(c.sink, c.rise),
        asked(c.forward, c.back),
    );
    let h = c.heading();
    let u = pow2(1074) as int;
    lemma_axis(c.left, c.right);
    lemma_axis(c.sink, c.rise);
    lemma_axis(c.forward, c.back);
    lemma2_to64();
    lemma2_to64_rest();
    lemma_pow2_pos(1074);
    let n = x * x + y * y + z * z;
    assert(1 <= n <= 3 && (x * x == 0 || x * x == 1) && (y * y == 0 || y * y == 1) && (z * z == 0
        || z * z == 1)) by (nonlinear_arith)
        requires
            n == x * x + y * y + z * z,
            x == 0 || x == 1 || x == -1,
            y == 0 || y == 1 || y == -1,
            z == 0 || z == 1 || z == -1,
            x != 0 || y != 0 || z != 0,
    ;
    let (a, b, d) = (x * x * u, y * y * u, z * z * u);
    assert(a * a + b * b + d * d == n * (u * u) && a + b + d == n * u) by (nonlinear_arith)
        requires
            a == x * x * u,
            b == y * y * u,
            d == z * z * u,
            n == x * x + y * y + z * z,
            x * x == 0 || x * x == 1,
            y * y == 0 || y * y == 1,
            z * z == 0 || z * z == 1,
    ;
    assert(n * u >= u) by (nonlinear_arith)
        requires
            n >= 1,
            u > 0,
    ;
    lemma_norm(h);
    lemma_reciprocal(h.norm(), n);
    let f = (Double { bits: ONE }).quotient(h.norm());
    lemma_part(h.x, x, f);
    lemma_part(h.y, y, f);
    lemma_part(h.z, z, f);
    lemma_pow2_pos(1000);
    f.units()
}

/// One over a length that is the root of `n`.
proof fn lemma_reciprocal(norm: Double, n: int)
    requires
        norm.finite(),
        pow2(1074) <= norm.units() <= pow2(1300),
        1 <= n <= 3,
        close(norm.units() * norm.units(), n * (pow2(1074) * pow2(1074)), 48),
    ensures
        ({
            let f = (Double { bits: ONE }).quotient(norm);
            let u = pow2(1074) as int;
            &&& f.finite()
            &&& pow2(1000) <= f.units() <= pow2(1100)
            &&& close(n * (f.units() * f.units()), u * u, 43)
        }),
{
    let u = pow2(1074) as int;
    let m = norm.units();
    lemma2_to64();
    lemma2_to64_rest();
    lemma_pow2_pos(1074);
    let one = Double { bits: ONE };
    lemma_double_literal(one, 0x10_0000_0000_0000, 1022);
    lemma_pow2_adds(52, 1022);
    assert(one.units() == u);
    lemma_pow2_strictly_increases(1074, 2000);
    assert(size(u) * pow2(1074) <= pow2(2000) * m) by (nonlinear_arith)
        requires
            u == pow2(1074),
            pow2(1074) <= m,
            pow2(1074) <= pow2(2000),
            u > 0,
    ;
    lemma_quotient_relative(one, norm);
    let g = one.quotient(norm).units();
    let (nn, uu) = (m * m, u * u);
    assert(n * uu <= 3 * uu && uu > 0 && nn >= 0) by (nonlinear_arith)
        requires
            uu == u * u,
            nn == m * m,
            n <= 3,
            u > 0,
    ;
    assert(nn <= 4 * uu);
    assert(m <= 2 * u) by (nonlinear_arith)
        requires
            m * m <= 4 * (u * u),
            u > 0,
    ;
    lemma_pow2_adds(1, 53);
    lemma_pow2_strictly_increases(54, 1074);
    assert(pow2(53) * m <= uu) by (nonlinear_arith)
        requires
            m <= 2 * u,
            2 * pow2(53) <= u,
            uu == u * u,
            pow2(53) > 0,
            u > 0,
    ;
    let gm = g * m;
    assert(size(gm - uu) * pow2(53) <= 2 * uu);
    assert(gm >= 0) by (nonlinear_arith)
        requires
            gm == g * m,
            g >= 0,
            m > 0,
    ;
    assert(close(gm, uu, 52));
    lemma_reciprocal_square(g, m, n, u);
    // The part lies between a quarter and two.
    assert(2 * gm >= uu && gm <= 2 * uu);
    assert(4 * g >= u) by (nonlinear_arith)
        requires
            2 * (g * m) >= u * u,
            m <= 2 * u,
            g >= 0,
            u > 0,
    ;
    assert(g <= 2 * u) by (nonlinear_arith)
        requires
            g * m <= 2 * (u * u),
            m >= u,
            u > 0,
            g >= 0,
    ;
    lemma_pow2_adds(2, 1072);
    lemma_pow2_adds(1, 1074);
    lemma_pow2_strictly_increases(1000, 1072);
    lemma_pow2_strictly_increases(1075, 1100);
}

/// The square of one over a length.
proof fn lemma_reciprocal_square(g: int, m: int, n: int, u: int)
    requires
        u > 0,
        close(g * m, u * u, 52),
        close(m * m, n * (u * u), 48),
    ensures
        close(n * (g * g), u * u, 43),
{
    let (gg, nn, uu) = (g * g, m * m, u * u);
    lemma_close_squares(g * m, uu, 50);
    assert((g * m) * (g * m) == gg * nn) by (nonlinear_arith)
        requires
            gg == g * g,
            nn == m * m,
    ;
    assert(gg >= 0) by (nonlinear_arith)
        requires
            gg == g * g,
    ;
    lemma_close_scales(nn, n * uu, gg, 48);
    lemma_close_turns(nn * gg, (n * uu) * gg, 47);
    assert(nn * gg == gg * nn) by (nonlinear_arith);
    lemma_close_weakens((n * uu) * gg, gg * nn, 47, 45);
    lemma_close_weakens(gg * nn, uu * uu, 50, 44);
    lemma_close_chain((n * uu) * gg, gg * nn, uu * uu, 43);
    assert((n * uu) * gg == (n * gg) * uu) by (nonlinear_arith);
    assert(uu > 0) by (nonlinear_arith)
        requires
            uu == u * u,
            u > 0,
    ;
    lemma_close_cancels(n * gg, uu, uu, 43);
}

/// A distance is that of a frame of `dt` seconds at `speed`: twenty times that with the one
/// modifier, a twentieth with the other, up to one part in `2^48`.
pub open spec fn is_way(c: Controls, speed: Double, distance: Double) -> bool {
    let (s, t, u) = (speed.units(), c.dt.units(), pow2(1074) as int);
    let (more, less) = (
        if c.boost {
            20int
        } else {
            1
        },
        if c.slow {
            20int
        } else {
            1
        },
    );
    &&& distance.finite()
    &&& size((distance.units() * u) * less - (s * t) * more) * pow2(48) <= (s * t) * more + u
        * pow2(60)
}

/// The speed after the modifiers.
proof fn lemma_pace(c: Controls, speed: Double)
    requires
        speed.finite(),
        pow2(1000) <= speed.units() <= pow2(1300),
    ensures
        ({
            let p = c.pace(speed);
            let (more, less) = (
                if c.boost {
                    20int
                } else {
                    1
                },
                if c.slow {
                    20int
                } else {
                    1
                },
            );
            let exact = speed.units() * more;
            &&& p.finite()
            &&& 0 <= p.units() <= 40 * speed.units()
            &&& size(p.units() * less - exact) * pow2(49) <= exact
        }),
{
    let s = speed.units();
    let u = pow2(1074) as int;
    lemma2_to64();
    lemma2_to64_rest();
    lemma_pow2_pos(1074);
    lemma_pow2_strictly_increases(64, 1000);
    lemma_pow2_adds(10, 1300);
    lemma_pow2_strictly_increases(1310, 2000);
    let twenty = Double { bits: 0x4034_0000_0000_0000 /* 20.0 */ };
    lemma_double_literal(twenty, 0x14_0000_0000_0000, 1026);
    lemma_pow2_adds(48, 1026);
    assert(twenty.units() == 20 * u);
    let boosted = if c.boost {
        speed.product(twenty)
    } else {
        speed
    };
    if c.boost {
        let x = 20 * s;
        assert(s * twenty.units() == x * u && size(x * u) <= pow2(2000) * u && x * u >= 0)
            by (nonlinear_arith)
            requires
                twenty.units() == 20 * u,
                x == 20 * s,
                0 <= x <= pow2(2000),
                u > 0,
        ;
        lemma_product_relative(speed, twenty);
        let b = boosted.units();
        assert(size(b - x) * pow2(53) <= x + pow2(53)) by (nonlinear_arith)
            requires
                size(b * u - x * u) * pow2(53) <= x * u + pow2(53) * u,
                u > 0,
        ;
    }
    let b = boosted.units();
    assert(b >= pow2(64) && b <= 21 * s && b <= pow2(1310));
    if c.slow {
        let held = Double { bits: 0x3fa9_9999_9999_999a /* 0.05 */ };
        let m: nat = 0x19_9999_9999_999a;
        let (k, w) = (pow2(1017), 0x200_0000_0000_0000int);
        lemma_double_literal(held, m, 1017);
        lemma_pow2_adds(57, 1017);
        lemma_pow2_pos(1017);
        lemma_pow2_adds(53, 1310);
        lemma_pow2_strictly_increases(1363, 2000);
        let x = b * m;
        assert(b * held.units() == x * k && x >= 0 && x * k >= 0 && x * k <= pow2(2000) * u)
            by (nonlinear_arith)
            requires
                held.units() == m * k,
                x == b * m,
                0 <= b <= pow2(1310),
                m <= pow2(53),
                pow2(53) * pow2(1310) <= pow2(2000),
                0 < k <= u,
        ;
        lemma_product_relative(boosted, held);
        let p = boosted.product(held).units();
        assert(size(p * w - x) * pow2(53) <= x + pow2(53) * w) by (nonlinear_arith)
            requires
                size(p * u - x * k) * pow2(53) <= x * k + pow2(53) * u,
                u == w * k,
                k > 0,
        ;
        lemma_twentieth(b, p);
    }
}

/// How far a frame goes.
proof fn lemma_way(c: Controls, speed: Double)
    requires
        speed.finite(),
        pow2(1000) <= speed.units() <= pow2(1300),
        c.dt.finite(),
        0 <= c.dt.units() <= pow2(1100),
    ensures
        is_way(c, speed, c.pace(speed).product(c.dt)),
{
    let (more, less) = (
        if c.boost {
            20int
        } else {
            1
        },
        if c.slow {
            20int
        } else {
            1
        },
    );
    let (s, t, u) = (speed.units(), c.dt.units(), pow2(1074) as int);
    let pace = c.pace(speed);
    lemma_pace(c, speed);
    let p = pace.units();
    lemma2_to64();
    lemma2_to64_rest();
    lemma_pow2_pos(1074);
    lemma_pow2_adds(6, 1300);
    lemma_pow2_adds(1306, 1100);
    lemma_pow2_adds(2000, 1074);
    lemma_pow2_strictly_increases(2406, 3074);
    assert(0 <= p * t <= pow2(2000) * u) by (nonlinear_arith)
        requires
            0 <= p <= pow2(1306),
            0 <= t <= pow2(1100),
            pow2(1306) * pow2(1100) == pow2(2406),
            pow2(2406) <= pow2(3074),
            pow2(2000) * u == pow2(3074),
    ;
    lemma_product_relative(pace, c.dt);
    let d = pace.product(c.dt).units();
    let (x, y, z) = ((s * t) * more, (p * t) * less, (d * u) * less);
    let e = p * less - s * more;
    assert(y - x == e * t) by (nonlinear_arith)
        requires
            x == (s * t) * more,
            y == (p * t) * less,
            e == p * less - s * more,
    ;
    assert(size(e * t) * pow2(49) <= (s * more) * t && (s * more) * t == x && x >= 0)
        by (nonlinear_arith)
        requires
            size(e) * pow2(49) <= s * more,
            t >= 0,
            s >= 0,
            more >= 0,
            x == (s * t) * more,
    ;
    let f = d * u - p * t;
    assert(z - y == f * less) by (nonlinear_arith)
        requires
            z == (d * u) * less,
            y == (p * t) * less,
            f == d * u - p * t,
    ;
    assert(size(f * less) * pow2(53) <= y + 20 * (pow2(53) * u)) by (nonlinear_arith)
        requires
            size(f) * pow2(53) <= p * t + pow2(53) * u,
            1 <= less <= 20,
            y == (p * t) * less,
            pow2(53) * u >= 0,
    ;
    assert(size(z - x) <= size(e * t) + size(f * less));
}

/// The keys move the camera where they ask for, in its own directions, by the way of a frame: the
/// ways to the sides, up and down, and to the front and back, of which opposite ones cancel. The
/// law returns the direction, its component, and the distance.
pub proof fn law_keys_move_the_camera<M: Fn(Elementary, Double, Double) -> Double>(
    maths: M,
    before: Viewer,
    c: Controls,
) -> (way: (Vector, int, Double))
    requires
        c.look_x.finite(),
        c.look_y.finite(),
        c.look_x.units() == 0,
        c.look_y.units() == 0,
        !c.roll_left,
        !c.roll_right,
        c.left != c.right || c.sink != c.rise || c.forward != c.back,
        before.speed_m_per_s.finite(),
        pow2(1000) <= before.speed_m_per_s.units() <= pow2(1300),
        c.dt.finite(),
        0 <= c.dt.units() <= pow2(1100),
    ensures
        is_heading(
            asked(c.left, c.right),
            asked(c.sink, c.rise),
            asked(c.forward, c.back),
            way.0,
            way.1,
        ),
        is_way(c, before.speed_m_per_s, way.2),
        before.after_input(maths, c).camera == (Camera {
            position: before.camera.destination(way.0, way.2),
            ..before.camera
        }),
{
    lemma_way(c, before.speed_m_per_s);
    let part = lemma_heading(c);
    assert((Single { bits: 0x0000_0000 /* 0.0 */ }).units() == 0) by {
        lemma2_to64();
    }
    (c.heading().unit(), part, c.pace(before.speed_m_per_s).product(c.dt))
}

/// A coordinate has moved by the product of a component of the way and the distance, to the nearest
/// meter and up to rounding.
pub open spec fn is_moved(from: int, to: int, part: Double, distance: Double) -> bool {
    let (w, d, u) = (part.units(), distance.units(), pow2(1074) as int);
    size((to - from) * u * u - w * d) * pow2(52) <= size(w * d) + (u * u) * pow2(52)
}

/// One axis of a move.
proof fn lemma_moved(part: Double, distance: Double)
    requires
        part.finite(),
        distance.finite(),
        size(part.units()) <= 4 * pow2(1074),
        size(distance.units()) <= pow2(1190),
    ensures
        is_moved(0, whole_meters(part.product(distance)), part, distance),
        -(pow2(120) as int) <= whole_meters(part.product(distance)) <= pow2(120),
{
    let (w, d, u) = (part.units(), distance.units(), pow2(1074) as int);
    lemma2_to64();
    lemma2_to64_rest();
    lemma_pow2_pos(1074);
    lemma_pow2_pos(1190);
    lemma_pow2_adds(2, 1190);
    lemma_pow2_adds(2, 1192);
    lemma_pow2_strictly_increases(1192, 2000);
    assert(size(w * d) <= pow2(1192) * u) by (nonlinear_arith)
        requires
            size(w) <= 4 * u,
            size(d) <= pow2(1190),
            pow2(1192) == 4 * pow2(1190),
            u > 0,
    ;
    assert(size(w * d) <= pow2(2000) * u) by (nonlinear_arith)
        requires
            size(w * d) <= pow2(1192) * u,
            pow2(1192) <= pow2(2000),
            u > 0,
    ;
    let product = part.product(distance);
    lemma_product_relative(part, distance);
    let p = product.units();
    let e = p * u - w * d;
    lemma_pow2_strictly_increases(53, 1074);
    assert(size(p) <= pow2(1194)) by (nonlinear_arith)
        requires
            size(p * u - w * d) * pow2(53) <= size(w * d) + pow2(53) * u,
            size(w * d) <= pow2(1192) * u,
            pow2(1194) == 4 * pow2(1192),
            pow2(1192) >= 1,
            pow2(53) >= 1,
            u > 0,
    ;
    lemma_whole_within(product, 120);
    lemma_range();
    lemma_pow2_strictly_increases(120, 127);
    law_rounding_is_within_half_a_meter(product);
    let m = whole_meters(product);
    let (mu, uu) = (m * u, u * u);
    let f = 2 * mu - 2 * p;
    assert(size(f * u) <= uu) by (nonlinear_arith)
        requires
            -u <= f <= u,
            u > 0,
            uu == u * u,
    ;
    assert(2 * (mu * u) == 2 * (p * u) + f * u) by (nonlinear_arith)
        requires
            f == 2 * mu - 2 * p,
    ;
    assert((m - 0) * u * u == mu * u) by (nonlinear_arith)
        requires
            mu == m * u,
    ;
    assert(pow2(53) * u <= uu) by (nonlinear_arith)
        requires
            pow2(53) <= u,
            uu == u * u,
            u > 0,
    ;
    let x = mu * u - w * d;
    assert(2 * x == 2 * e + f * u);
    assert(2 * size(x) <= 2 * size(e) + uu);
}

/// A camera goes by its own direction, turned as it is, times the distance: on each axis, in whole
/// meters.
pub proof fn law_camera_goes_the_turned_way(camera: Camera, local: Vector, distance: Double)
    requires
        camera.can_move(local, distance),
        distance.finite(),
        size(distance.units()) <= pow2(1190),
        ({
            let w = camera.orientation.turned(local);
            &&& w.x.finite() && w.y.finite() && w.z.finite()
            &&& size(w.x.units()) <= 4 * pow2(1074)
            &&& size(w.y.units()) <= 4 * pow2(1074)
            &&& size(w.z.units()) <= 4 * pow2(1074)
        }),
    ensures
        ({
            let (w, from, to) = (
                camera.orientation.turned(local),
                camera.position,
                camera.destination(local, distance),
            );
            &&& is_moved(from.x.value(), to.x.value(), w.x, distance)
            &&& is_moved(from.y.value(), to.y.value(), w.y, distance)
            &&& is_moved(from.z.value(), to.z.value(), w.z, distance)
        }),
{
    reveal(Camera::destination);
    reveal(Camera::can_move);
    let w = camera.orientation.turned(local);
    let world = w.multiple(distance);
    lemma_moved(w.x, distance);
    lemma_moved(w.y, distance);
    lemma_moved(w.z, distance);
    Fixed::lemma_of(camera.position.x.value() + whole_meters(world.x));
    Fixed::lemma_of(camera.position.y.value() + whole_meters(world.y));
    Fixed::lemma_of(camera.position.z.value() + whole_meters(world.z));
}

/// The wheel scales the speed by a power of 1.15: the exponent is a fortieth of how far it is
/// turned, either way, and a wheel that is not turned leaves the speed as it is. The law returns
/// the exponent.
pub proof fn law_wheel_scales_the_speed<M: Fn(Elementary, Double, Double) -> Double>(
    maths: M,
    before: Viewer,
    c: Controls,
) -> (exponent: Double)
    requires
        c.scroll.finite(),
    ensures
        ({
            let after = before.after_input(maths, c).speed_m_per_s;
            let turned = c.scroll.units() * pow2(925);
            &&& c.scroll.units() == 0 ==> after == before.speed_m_per_s
            &&& c.scroll.units() != 0 ==> after == scaled_speed(
                before.speed_m_per_s,
                value_of(maths, Elementary::Pow, Double { bits: 0x3ff2_6666_6666_6666 /* 1.15 */ }, exponent),
            ) && exponent.finite() && size(40 * exponent.units() - turned) * pow2(50) <= size(turned)
        }),
{
    let forty = Double { bits: 0x4044_0000_0000_0000 /* 40.0 */ };
    let a = c.scroll.widened();
    let u = pow2(1074) as int;
    let t = c.scroll.units() * pow2(925);
    lemma2_to64();
    lemma2_to64_rest();
    assert((Single { bits: 0x0000_0000 /* 0.0 */ }).units() == 0);
    lemma_widened_exact(c.scroll);
    lemma_double_literal(forty, 0x14_0000_0000_0000, 1027);
    lemma_pow2_adds(47, 1027);
    lemma_pow2_pos(1074);
    lemma_pow2_pos(925);
    assert(forty.units() == 40 * u);
    if c.scroll.units() != 0 {
        lemma_single_range(c.scroll);
        lemma_pow2_adds(277, 925);
        lemma_pow2_strictly_increases(1202, 2000);
        let x = c.scroll.units();
        assert(size(t) <= pow2(1202) && size(t) >= pow2(925)) by (nonlinear_arith)
            requires
                t == x * pow2(925),
                size(x) <= pow2(277),
                size(x) >= 1,
                pow2(277) * pow2(925) == pow2(1202),
                pow2(925) > 0,
        ;
        assert(size(t) * pow2(1074) <= pow2(2000) * (40 * u)) by (nonlinear_arith)
            requires
                size(t) <= pow2(2000),
                u == pow2(1074),
                u > 0,
        ;
        lemma_quotient_relative(a, forty);
        let e = a.quotient(forty).units();
        assert(size(40 * e - t) * pow2(53) <= size(t) + 40 * pow2(53)) by (nonlinear_arith)
            requires
                size(e * (40 * u) - t * u) * pow2(53) <= size(t) * u + pow2(53) * (40 * u),
                u > 0,
        ;
        lemma_pow2_adds(7, 53);
        lemma_pow2_strictly_increases(60, 925);
    }
    c.wheel()
}

/// Between its bounds, a tenth of a meter and a hundred thousand light-years per second, a scaled
/// speed is the product of the speed and the factor, up to one part in `2^52`; a product that is
/// half the lower bound or twice the upper one gives the bound.
pub proof fn law_scaled_speed_is_a_product(speed: Double, factor: Double)
    requires
        speed.finite(),
        factor.finite(),
        0 <= speed.units() <= pow2(1500),
        0 <= factor.units() <= pow2(1500),
    ensures
        ({
            let r = scaled_speed(speed, factor);
            let (low, high) = (
                Double { bits: 0x3fb9_9999_9999_999a /* 0.1 */ },
                (Double { bits: 0x40f8_6a00_0000_0000 /* 1.0e5 */ }).product(Double { bits: METERS_PER_LIGHT_YEAR }),
            );
            let (x, u) = (speed.units() * factor.units(), pow2(1074) as int);
            &&& 2 * (low.units() * u) <= x && 2 * x <= high.units() * u ==> r.finite() && size(
                r.units() * u - x,
            ) * pow2(52) <= x
            &&& 2 * x <= low.units() * u ==> r == low
            &&& 2 * (high.units() * u) <= x ==> r == high
        }),
{
    let (low, high) = (Double { bits: 0x3fb9_9999_9999_999a /* 0.1 */ }, (Double { bits: 0x40f8_6a00_0000_0000 /* 1.0e5 */ }).product(Double { bits: METERS_PER_LIGHT_YEAR }));
    let (x, u) = (speed.units() * factor.units(), pow2(1074) as int);
    lemma2_to64();
    lemma2_to64_rest();
    lemma_pow2_pos(1074);
    lemma_double_literal(low, 0x19_9999_9999_999a, 1018);
    lemma_pow2_strictly_increases(60, 1018);
    let l = low.units();
    assert(l >= pow2(60));
    lemma_pow2_adds(2000, 1074);
    lemma_pow2_adds(1500, 1500);
    lemma_pow2_strictly_increases(3000, 3074);
    assert(0 <= x <= pow2(2000) * u) by (nonlinear_arith)
        requires
            x == speed.units() * factor.units(),
            0 <= speed.units() <= pow2(1500),
            0 <= factor.units() <= pow2(1500),
            pow2(1500) * pow2(1500) == pow2(3000),
            pow2(3000) <= pow2(3074),
            pow2(2000) * u == pow2(3074),
    ;
    lemma_product_relative(speed, factor);
    let p = speed.product(factor).units();
    let h = high.units();
    lemma_fastest_speed();
    lemma_pow2_strictly_increases(60, 1074);
    lemma_pow2_strictly_increases(1071, 1074);
    lemma_pow2_adds(53, 1018);
    lemma_pow2_pos(1018);
    assert(l < pow2(1071)) by (nonlinear_arith)
        requires
            l == 0x19_9999_9999_999a * pow2(1018),
            pow2(1071) == pow2(53) * pow2(1018),
            pow2(53) == 0x20_0000_0000_0000,
            pow2(1018) > 0,
    ;
    let t = pow2(53) * u;
    assert(t <= l * u) by (nonlinear_arith)
        requires
            pow2(53) <= l,
            t == pow2(53) * u,
            u > 0,
    ;
    assert(2 * x <= l * u ==> p < l) by (nonlinear_arith)
        requires
            size(p * u - x) * pow2(53) <= x + pow2(53) * u,
            pow2(53) >= 100,
            l >= 100,
            u > 0,
            x >= 0,
    ;
    assert(2 * (h * u) <= x ==> p > h) by (nonlinear_arith)
        requires
            size(p * u - x) * pow2(53) <= x + pow2(53) * u,
            pow2(53) >= 100,
            h >= 100,
            u > 0,
    ;
    assert(2 * (l * u) <= x ==> p >= l) by (nonlinear_arith)
        requires
            size(p * u - x) * pow2(53) <= x + pow2(53) * u,
            pow2(53) >= 100,
            l >= 100,
            u > 0,
    ;
    assert(2 * x <= h * u && x >= 2 * (l * u) ==> p <= h) by (nonlinear_arith)
        requires
            size(p * u - x) * pow2(53) <= x + pow2(53) * u,
            pow2(53) >= 100,
            h >= 100,
            u > 0,
    ;
}

/// A hundred thousand light-years are a finite number of meters, and more than one.
proof fn lemma_fastest_speed()
    ensures
        ({
            let high = (Double { bits: 0x40f8_6a00_0000_0000 /* 1.0e5 */ }).product(Double { bits: METERS_PER_LIGHT_YEAR });
            high.finite() && high.units() > pow2(1074)
        }),
{
    let five = Double { bits: 0x40f8_6a00_0000_0000 /* 1.0e5 */ };
    let year = Double { bits: METERS_PER_LIGHT_YEAR };
    let u = pow2(1074) as int;
    let high = five.product(year);
    lemma2_to64();
    lemma2_to64_rest();
    lemma_double_literal(five, 0x18_6a00_0000_0000, 1038);
    lemma_double_literal(year, 0x10_ce3d_fb91_2360, 1075);
    lemma_pow2_pos(1038);
    lemma_pow2_adds(36, 1038);
    lemma_pow2_adds(37, 1038);
    lemma_pow2_adds(2000, 1074);
    let k = pow2(1038) as int;
    let (a, b) = (five.units(), year.units());
    assert(u == 0x10_0000_0000 * k && pow2(1075) == 0x20_0000_0000 * k);
    lemma_pow2_adds(1, 1074);
    assert(a == 0x18_6a00_0000_0000 * k);
    assert(b == 0x10_ce3d_fb91_2360 * (2 * u));
    assert(a >= 2 * u && a <= 0x10_0000_0000_0000 * u) by (nonlinear_arith)
        requires
            a == 0x18_6a00_0000_0000 * k,
            u == 0x10_0000_0000 * k,
            k > 0,
    ;
    assert(b >= 2 * u && b <= 0x40_0000_0000_0000 * u) by (nonlinear_arith)
        requires
            b == 0x10_ce3d_fb91_2360 * (2 * u),
            u > 0,
    ;
    lemma_pow2_adds(54, 52);
    lemma_pow2_adds(106, 1074);
    lemma_pow2_strictly_increases(1180, 2000);
    assert(0 <= a * b <= pow2(2000) * u) by (nonlinear_arith)
        requires
            0 <= a <= 0x10_0000_0000_0000 * u,
            0 <= b <= 0x40_0000_0000_0000 * u,
            pow2(106) == 0x40_0000_0000_0000 * 0x10_0000_0000_0000,
            pow2(106) * u <= pow2(2000),
            u > 0,
    ;
    lemma_product_relative(five, year);
    lemma_fastest(a, b, high.units(), u, u);
}

/// A hundred thousand light-years are more than a tenth of a meter.
proof fn lemma_fastest(a: int, b: int, h: int, l: int, u: int)
    requires
        u > 0,
        a >= 2 * u,
        b >= 2 * u,
        l <= u,
        size(h * u - a * b) * 0x20_0000_0000_0000 <= a * b + 0x20_0000_0000_0000 * u,
        a * b >= 0,
        u >= 100,
    ensures
        h > l,
{
    assert(a * b >= 4 * (u * u)) by (nonlinear_arith)
        requires
            a >= 2 * u,
            b >= 2 * u,
            u > 0,
    ;
    assert(2 * (h * u) >= a * b - 2 * u);
    assert(h > l) by (nonlinear_arith)
        requires
            2 * (h * u) >= 4 * (u * u) - 2 * u,
            u >= 100,
            l <= u,
    ;
}

} // verus!
