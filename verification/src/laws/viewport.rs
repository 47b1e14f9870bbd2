//! Laws of the viewport: which directions it holds.
use vstd::arithmetic::power2::*;
use vstd::prelude::*;

use crate::ieee::accuracy::{
    lemma_double_literal, lemma_quotient_relative, lemma_single_literal,
    lemma_single_product_relative, lemma_single_quotient_relative, lemma_single_sum_error,
    lemma_widened_exact, size,
};
use crate::ieee::{Double, Single};
use crate::render::projection::{Matrix, Projection};
use crate::params::{ONE, ZERO};
use crate::viewer::aspect_of;

verus! {

/// A coordinate over the distance, as the viewport sees it.
proof fn lemma_quotient(c: Single, w: Single)
    requires
        c.finite(),
        w.finite(),
        pow2(129) <= w.units() <= pow2(165),
        size(c.units()) <= pow2(165),
    ensures
        ({
            let n = c.product((Single { bits: 0x3f80_0000 /* 1.0 */ }).quotient(w));
            let v = pow2(149) as int;
            &&& n.finite()
            &&& size(n.units() * w.units() - c.units() * v) * pow2(22) <= size(c.units()) * v
                + pow2(22) * w.units()
        }),
{
    let one = Single { bits: 0x3f80_0000 /* 1.0 */ };
    let (v, x, y) = (pow2(149) as int, w.units(), c.units());
    lemma2_to64();
    lemma_single_literal(one, 0x80_0000, 126);
    lemma_pow2_adds(23, 126);
    assert(one.units() == v);
    lemma_pow2_pos(129);
    lemma_pow2_pos(149);
    lemma_pow2_adds(149, 149);
    lemma_pow2_adds(270, 129);
    lemma_pow2_strictly_increases(298, 399);
    assert(v * pow2(149) <= pow2(270) * x) by (nonlinear_arith)
        requires
            v == pow2(149),
            pow2(149) * pow2(149) == pow2(298),
            pow2(298) < pow2(399),
            pow2(270) * pow2(129) == pow2(399),
            pow2(129) <= x,
    ;
    lemma_single_quotient_relative(one, w);
    let inv = one.quotient(w);
    let a = inv.units();
    let (ax, vv) = (a * x, v * v);
    lemma_pow2_adds(24, 165);
    lemma_pow2_strictly_increases(189, 298);
    assert(pow2(24) * x <= vv) by (nonlinear_arith)
        requires
            x <= pow2(165),
            pow2(24) * pow2(165) == pow2(189),
            pow2(189) < pow2(298),
            vv == pow2(298),
    ;
    assert(size(ax - vv) * 0x80_0000 <= vv);
    // The reciprocal is not too large.
    assert(0 <= a <= pow2(170)) by {
        lemma_pow2_adds(41, 129);
        lemma_pow2_adds(20, 129);
        lemma_pow2_adds(21, 149);
        assert(a <= pow2(170)) by (nonlinear_arith)
            requires
                a * x <= 2 * (v * v),
                x >= pow2(129),
                pow2(129) > 0,
                v == 0x10_0000 * pow2(129),
                pow2(170) == 0x20_0000 * v,
                a >= 0,
        ;
    }
    lemma_pow2_adds(165, 170);
    lemma_pow2_adds(270, 149);
    lemma_pow2_strictly_increases(335, 419);
    assert(size(y * a) <= pow2(270) * pow2(149)) by (nonlinear_arith)
        requires
            size(y) <= pow2(165),
            0 <= a <= pow2(170),
            pow2(165) * pow2(170) == pow2(335),
            pow2(335) < pow2(419),
            pow2(270) * pow2(149) == pow2(419),
    ;
    lemma_single_product_relative(c, inv);
    let n = c.product(inv).units();
    let s = size(y) as int;
    let (e, f) = (n * v - y * a, ax - vv);
    assert(size(y * a) == s * a) by (nonlinear_arith)
        requires
            s == size(y),
            a >= 0,
    ;
    assert(size(e * x) * 0x100_0000 <= s * ax + 0x100_0000 * (v * x)) by (nonlinear_arith)
        requires
            size(e) * 0x100_0000 <= s * a + 0x100_0000 * v,
            x > 0,
            ax == a * x,
    ;
    assert(s * ax <= 2 * (s * vv) && s * vv >= 0) by (nonlinear_arith)
        requires
            ax <= 2 * vv,
            s >= 0,
            vv >= 0,
    ;
    assert(size(y * f) * 0x80_0000 <= s * vv) by (nonlinear_arith)
        requires
            size(f) * 0x80_0000 <= vv,
            s == size(y),
    ;
    assert((n * x - y * v) * v == e * x + y * f) by (nonlinear_arith)
        requires
            e == n * v - y * a,
            f == ax - vv,
            ax == a * x,
            vv == v * v,
    ;
    let d = n * x - y * v;
    assert(size(d * v) <= size(e * x) + size(y * f));
    assert(size(d * v) * 0x80_0000 <= 2 * (s * vv) + 0x80_0000 * (v * x));
    assert(size(d) * 0x80_0000 <= 2 * (s * v) + 0x80_0000 * x) by (nonlinear_arith)
        requires
            size(d * v) * 0x80_0000 <= 2 * (s * vv) + 0x80_0000 * (v * x),
            vv == v * v,
            v > 0,
    ;
}

/// The edge of the viewport, with its margin.
proof fn lemma_edge()
    ensures
        ({
            let edge = (Single { bits: 0x3f80_0000 /* 1.0 */ }).sum(Single { bits: 0x3d4c_cccd /* 0.05 */ });
            edge.finite() && size(20 * edge.units() - 21 * pow2(149)) * 0x40_0000 <= 20 * pow2(149)
        }),
{
    let (one, more) = (Single { bits: 0x3f80_0000 /* 1.0 */ }, Single { bits: 0x3d4c_cccd /* 0.05 */ });
    lemma2_to64();
    lemma_single_literal(one, 0x80_0000, 126);
    lemma_single_literal(more, 0xcc_cccd, 121);
    lemma_pow2_adds(23, 126);
    lemma_pow2_adds(28, 121);
    lemma_pow2_adds(4, 121);
    lemma_pow2_adds(5, 121);
    lemma_pow2_adds(1, 149);
    lemma_pow2_pos(121);
    lemma_single_sum_error(one, more, 128);
}

/// A coordinate lies inside the edge by a clear margin, counted in the distance `w`.
pub open spec fn is_well_inside(c: Single, w: Single) -> bool {
    20 * size(c.units()) * 0x8_0000 <= 21 * w.units() * 0x7_ffff
}

/// A coordinate lies outside the edge by a clear margin.
pub open spec fn is_well_outside(c: Single, w: Single) -> bool {
    20 * size(c.units()) * 0x8_0000 >= 21 * w.units() * 0x8_0001
}

/// What lies well inside stays inside.
proof fn lemma_inside(mx: int, sv: int, xv: int, ex: int, x: int)
    requires
        (mx - sv) * 0x40_0000 <= sv + 0x40_0000 * x,
        0x1_0000_0000 * x <= xv,
        (21 * xv - 20 * ex) * 0x40_0000 <= 20 * xv,
        20 * sv * 0x8_0000 <= 21 * xv * 0x7_ffff,
        xv > 0,
    ensures
        mx <= ex,
{
    assert(20 * mx * 0x40_0000 <= 20 * sv * 0x40_0001 + 0x500_0000 * x);
    assert(20 * sv * 0x40_0001 * 0x8_0000 <= 21 * xv * 0x7_ffff * 0x40_0001);
    assert(20 * ex * 0x40_0000 >= 21 * xv * 0x40_0000 - 20 * xv);
    assert(20 * mx * 0x40_0000 * 0x8_0000 <= 20 * ex * 0x40_0000 * 0x8_0000);
}

/// What lies well outside stays outside.
proof fn lemma_outside(mx: int, sv: int, xv: int, ex: int, x: int)
    requires
        (sv - mx) * 0x40_0000 <= sv + 0x40_0000 * x,
        0x1_0000_0000 * x <= xv,
        (20 * ex - 21 * xv) * 0x40_0000 <= 20 * xv,
        20 * sv * 0x8_0000 >= 21 * xv * 0x8_0001,
        xv > 0,
    ensures
        mx > ex,
{
    assert(20 * mx * 0x40_0000 >= 20 * sv * 0x3f_ffff - 0x500_0000 * x);
    assert(20 * sv * 0x3f_ffff * 0x8_0000 >= 21 * xv * 0x8_0001 * 0x3f_ffff);
    assert(20 * ex * 0x40_0000 <= 21 * xv * 0x40_0000 + 20 * xv);
    assert(20 * mx * 0x40_0000 * 0x8_0000 > 20 * ex * 0x40_0000 * 0x8_0000);
}

/// One coordinate against the edge.
proof fn lemma_against_the_edge(c: Single, w: Single)
    requires
        c.finite(),
        w.finite(),
        pow2(129) <= w.units() <= pow2(165),
        size(c.units()) <= pow2(165),
    ensures
        ({
            let edge = (Single { bits: 0x3f80_0000 /* 1.0 */ }).sum(Single { bits: 0x3d4c_cccd /* 0.05 */ });
            let n = c.product((Single { bits: 0x3f80_0000 /* 1.0 */ }).quotient(w)).magnitude();
            &&& is_well_inside(c, w) ==> !edge.less(n)
            &&& is_well_outside(c, w) ==> edge.less(n)
        }),
{
    let n = c.product((Single { bits: 0x3f80_0000 /* 1.0 */ }).quotient(w));
    let edge = (Single { bits: 0x3f80_0000 /* 1.0 */ }).sum(Single { bits: 0x3d4c_cccd /* 0.05 */ });
    lemma_quotient(c, w);
    lemma_edge();
    lemma2_to64();
    lemma_pow2_pos(129);
    lemma_pow2_strictly_increases(32, 149);
    let (v, x, y, s, m, e) = (
        pow2(149) as int,
        w.units(),
        c.units(),
        size(c.units()) as int,
        size(n.units()) as int,
        edge.units(),
    );
    assert(n.magnitude().units() == m && !n.magnitude().nan());
    let (mx, sv, xv) = (m * x, s * v, x * v);
    assert(size(n.units() * x) == mx && size(y * v) == sv) by (nonlinear_arith)
        requires
            m == size(n.units()),
            mx == m * x,
            s == size(y),
            sv == s * v,
            x > 0,
            v > 0,
    ;
    let (p, q) = (n.units() * x, y * v);
    assert(size(p - q) * 0x40_0000 <= sv + 0x40_0000 * x);
    assert(mx - sv <= size(p - q) && sv - mx <= size(p - q));
    assert((mx - sv) * 0x40_0000 <= sv + 0x40_0000 * x && (sv - mx) * 0x40_0000 <= sv + 0x40_0000 * x);
    assert(0x1_0000_0000 * x <= xv) by (nonlinear_arith)
        requires
            v >= 0x1_0000_0000,
            xv == x * v,
            x > 0,
    ;
    let ex = e * x;
    assert((20 * ex - 21 * xv) * 0x40_0000 <= 20 * xv && (21 * xv - 20 * ex) * 0x40_0000 <= 20 * xv)
        by (nonlinear_arith)
        requires
            size(20 * e - 21 * v) * 0x40_0000 <= 20 * v,
            ex == e * x,
            xv == x * v,
            x > 0,
    ;
    if is_well_inside(c, w) {
        assert(20 * sv * 0x8_0000 <= 21 * xv * 0x7_ffff) by (nonlinear_arith)
            requires
                20 * s * 0x8_0000 <= 21 * x * 0x7_ffff,
                sv == s * v,
                xv == x * v,
                v > 0,
        ;
        lemma_inside(mx, sv, xv, ex, x);
        assert(m <= e) by (nonlinear_arith)
            requires
                m * x <= e * x,
                x > 0,
        ;
    }
    if is_well_outside(c, w) {
        assert(20 * sv * 0x8_0000 >= 21 * xv * 0x8_0001) by (nonlinear_arith)
            requires
                20 * s * 0x8_0000 >= 21 * x * 0x8_0001,
                sv == s * v,
                xv == x * v,
                v > 0,
        ;
        lemma_outside(mx, sv, xv, ex, x);
        assert(m > e) by (nonlinear_arith)
            requires
                m * x > e * x,
                x > 0,
        ;
    }
}

/// A viewport holds the directions in front of it, up to one twentieth beyond each of its four
/// sides, and no others: what is behind is never shown, and in front neither coordinate may exceed
/// the distance by more than that.
pub proof fn law_viewport_has_a_margin(view: Projection, p: [Single; 3])
    requires
        view.clip(p, 0).finite(),
        view.clip(p, 1).finite(),
        view.clip(p, 3).finite(),
        size(view.clip(p, 0).units()) <= pow2(165),
        size(view.clip(p, 1).units()) <= pow2(165),
        view.clip(p, 3).units() <= 0 || pow2(129) <= view.clip(p, 3).units() <= pow2(165),
    ensures
        ({
            let (x, y, w) = (view.clip(p, 0), view.clip(p, 1), view.clip(p, 3));
            &&& w.units() <= 0 ==> !view.shows(p)
            &&& w.units() > 0 && is_well_inside(x, w) && is_well_inside(y, w) ==> view.shows(p)
            &&& w.units() > 0 && (is_well_outside(x, w) || is_well_outside(y, w)) ==> !view.shows(p)
        }),
{
    let (x, y, w) = (view.clip(p, 0), view.clip(p, 1), view.clip(p, 3));
    assert((Single { bits: 0x0000_0000 /* 0.0 */ }).units() == 0) by {
        lemma2_to64();
    }
    lemma_pow2_pos(129);
    if w.units() > 0 {
        lemma_against_the_edge(x, w);
        lemma_against_the_edge(y, w);
    }
}

/// The aspect of a viewport is its width over its height, which counts as at least one pixel, up
/// to rounding.
pub proof fn law_aspect_is_width_over_height(viewport: [Single; 2])
    requires
        viewport@[0].finite(),
        viewport@[1].finite(),
        0 <= viewport@[0].units() <= pow2(200),
        0 <= viewport@[1].units() <= pow2(200),
    ensures
        ({
            let (w, h, v) = (viewport@[0].units(), viewport@[1].units(), pow2(149) as int);
            let m = if h < v {
                v
            } else {
                h
            };
            let a = aspect_of(viewport);
            &&& a.finite()
            &&& size(a.units() * m - (w * v) * pow2(925)) * pow2(24) <= ((w * v) + pow2(24) * m)
                * pow2(925)
        }),
{
    let one = Single { bits: 0x3f80_0000 /* 1.0 */ };
    let (width, height) = (viewport@[0], viewport@[1]);
    let (w, v, k) = (width.units(), pow2(149) as int, pow2(925) as int);
    lemma2_to64();
    lemma_single_literal(one, 0x80_0000, 126);
    lemma_pow2_adds(23, 126);
    lemma_pow2_pos(149);
    lemma_pow2_pos(925);
    let most = height.larger(one);
    let m = most.units();
    lemma_pow2_strictly_increases(200, 270);
    assert(w * pow2(149) <= pow2(270) * m) by (nonlinear_arith)
        requires
            0 <= w <= pow2(270),
            0 < pow2(149) <= m,
    ;
    lemma_single_quotient_relative(width, most);
    let q = width.quotient(most);
    lemma_widened_exact(q);
    let (x, y) = (q.units() * m - w * v, (w * v) + pow2(24) * m);
    assert((q.units() * k) * m - (w * v) * k == x * k) by (nonlinear_arith)
        requires
            x == q.units() * m - w * v,
    ;
    assert(size(x * k) * pow2(24) <= y * k) by (nonlinear_arith)
        requires
            size(x) * pow2(24) <= y,
            k > 0,
    ;
}

/// The lens of a camera: the cotangent of half its angle scales the height, and that over the
/// aspect the width; the distance in front is kept as it is, and nothing else mixes the axes.
pub proof fn law_lens_has_the_angle(sin: Double, cos: Double, aspect: Double, near: Double, far: Double)
    requires
        sin.finite(),
        cos.finite(),
        aspect.finite(),
        pow2(1050) <= sin.units() <= pow2(1074),
        0 <= cos.units() <= pow2(1074),
        pow2(1050) <= aspect.units() <= pow2(1100),
    ensures
        ({
            let m = Matrix::lens(sin, cos, aspect, near, far);
            let (s, c, a, u) = (sin.units(), cos.units(), aspect.units(), pow2(1074) as int);
            &&& m.y.y.finite()
            &&& size(m.y.y.units() * s - c * u) * pow2(53) <= c * u + pow2(53) * s
            &&& m.x.x.finite()
            &&& size(m.x.x.units() * a - m.y.y.units() * u) * pow2(53) <= m.y.y.units() * u
                + pow2(53) * a
            &&& m.z.w.units() == -u
            &&& m.x.y.units() == 0 && m.x.z.units() == 0 && m.x.w.units() == 0
            &&& m.y.x.units() == 0 && m.y.z.units() == 0 && m.y.w.units() == 0
            &&& m.z.x.units() == 0 && m.z.y.units() == 0
            &&& m.w.x.units() == 0 && m.w.y.units() == 0 && m.w.w.units() == 0
        }),
{
    let (s, c, a, u) = (sin.units(), cos.units(), aspect.units(), pow2(1074) as int);
    lemma2_to64();
    lemma2_to64_rest();
    lemma_pow2_pos(1050);
    lemma_pow2_pos(1074);
    assert((Double { bits: ZERO }).units() == 0);
    let one = Double { bits: ONE };
    lemma_double_literal(one, 0x10_0000_0000_0000, 1022);
    lemma_pow2_adds(52, 1022);
    assert(Double { bits: 0xbff0_0000_0000_0000 /* -1.0 */ }.code() == one.code());
    lemma_pow2_adds(1074, 1074);
    lemma_pow2_adds(2000, 1050);
    lemma_pow2_strictly_increases(2148, 3050);
    assert(c * pow2(1074) <= pow2(2000) * s) by (nonlinear_arith)
        requires
            0 <= c <= pow2(1074),
            pow2(1074) * pow2(1074) == pow2(2148),
            pow2(2148) < pow2(3050),
            pow2(2000) * pow2(1050) == pow2(3050),
            pow2(1050) <= s,
    ;
    lemma_quotient_relative(cos, sin);
    let h = cos.quotient(sin);
    let y = h.units();
    lemma_pow2_adds(24, 1050);
    lemma_pow2_adds(25, 1074);
    lemma_pow2_strictly_increases(60, 1050);
    assert(y <= pow2(1099)) by (nonlinear_arith)
        requires
            size(y * s - c * u) * pow2(53) <= c * u + pow2(53) * s,
            pow2(53) >= 100,
            0 <= c <= u,
            u == 0x100_0000 * pow2(1050),
            s >= pow2(1050),
            s <= u,
            u >= 100,
            pow2(1099) == 0x200_0000 * u,
            y >= 0,
            pow2(1050) > 0,
    ;
    lemma_pow2_adds(1099, 1074);
    lemma_pow2_strictly_increases(2173, 3050);
    assert(y * pow2(1074) <= pow2(2000) * a) by (nonlinear_arith)
        requires
            0 <= y <= pow2(1099),
            pow2(1099) * pow2(1074) == pow2(2173),
            pow2(2173) < pow2(3050),
            pow2(2000) * pow2(1050) == pow2(3050),
            pow2(1050) <= a,
    ;
    lemma_quotient_relative(h, aspect);
}

} // verus!
