//! Laws of the fade weight: how faint stars ramp in.
use vstd::arithmetic::power2::*;
use vstd::prelude::*;

use crate::ieee::accuracy::{lemma_single_difference_relative, lemma_single_quotient_relative, size};
use crate::ieee::encoding::{code_units, lemma_code_units_increases, Single};
use crate::ieee::error::lemma_single_sum_order;
use crate::ieee::exact::{lemma_nearest_at_least, lemma_nearest_exists};
use crate::ieee::rounding::{lemma_code_units_ordered, nearest_code};
use crate::ieee::single::{lemma_single_format, SINGLE_INF};
use crate::laws::photometry::{lemma_single_power_code, single_power_code};
use crate::octree::{fade_at, ViewParams};

verus! {

/// The weight of a star ramps from zero, at the magnitude limit, to one, a fade width above it:
/// in between it is the part of the width by which the star is brighter than the limit, up to one
/// part in `2^22`; and nothing that is brighter than the limit is without weight.
pub proof fn law_fade_ramps_from_the_limit(view: ViewParams, m: Single)
    requires
        view.mag_limit.finite(),
        view.fade_width.finite(),
        m.finite(),
        size(view.mag_limit.units()) <= pow2(161),
        size(m.units()) <= pow2(161),
        (Single { bits: 0x3a83_126f /* 1e-3 */ }).units() <= view.fade_width.units() <= pow2(161),
    ensures
        ({
            let (w, d) = (view.fade_width.units(), view.mag_limit.units() - m.units());
            let r = fade_at(view, m);
            &&& r.finite()
            &&& 0 <= r.units() <= pow2(149)
            &&& d <= 0 ==> r.units() == 0
            &&& d >= w ==> r.units() == pow2(149)
            &&& 0 <= d <= w ==> size(r.units() * w - d * pow2(149)) * pow2(22) <= w * pow2(149)
            &&& d >= pow2(13) ==> r.units() > 0
        }),
{
    let (zero, one, least) = (Single { bits: 0x0000_0000 /* 0.0 */ }, Single { bits: 0x3f80_0000 /* 1.0 */ }, Single { bits: 0x3a83_126f /* 1e-3 */ });
    let (w, d) = (view.fade_width.units(), view.mag_limit.units() - m.units());
    let u = pow2(149) as int;
    lemma_single_format();
    lemma2_to64();
    lemma_pow2_pos(149);
    lemma_pow2_pos(23);
    lemma_single_power_code(0);
    assert(one.code() == single_power_code(0));
    assert(one.units() == u && zero.units() == 0);
    lemma_code_units_increases(0, least.code(), 23);
    assert(w > 0);
    let width = view.fade_width.larger(least);
    assert(width == view.fade_width);
    lemma_pow2_unfold(162);
    lemma_pow2_unfold(163);
    lemma_pow2_adds(44, 105);
    lemma_pow2_pos(105);
    lemma2_to64_rest();
    assert(u >= 0x1000_0000_0000) by (nonlinear_arith)
        requires
            u == 0x1000_0000_0000 * pow2(105),
            pow2(105) > 0,
    ;
    assert(w * u > 0 && 0 * w == 0 && 0 * u == 0) by (nonlinear_arith)
        requires
            w > 0,
            u > 0,
    ;
    lemma_pow2_strictly_increases(162, 270);
    lemma_single_difference_relative(view.mag_limit, m);
    let rel = view.mag_limit.difference(m);
    let x = rel.units();
    let q = rel.quotient(width);
    let r = fade_at(view, m);
    assert(r == q.clamped(zero, one));
    if d <= 0 {
        assert(x <= 0);
        lemma_not_positive_quotient(rel, width);
        assert(r.units() == 0);
        if r.code() > 0 {
            lemma_code_units_increases(0, r.code(), 23);
        }
    } else {
        lemma_pow2_adds(13, 149);
        lemma_pow2_adds(24, 138);
        assert(x <= 2 * d) by (nonlinear_arith)
            requires
                size(x - d) * pow2(24) <= d,
                pow2(24) >= 1,
                d > 0,
        ;
        lemma_width_is_wide(view.fade_width);
        assert(x * u <= pow2(270) * w) by (nonlinear_arith)
            requires
                0 <= x <= pow2(163),
                pow2(270) * w >= pow2(163) * u,
                u > 0,
        ;
        lemma_single_quotient_relative(rel, width);
        let y = q.units();
        let k = 0x100_0000int;
        // Close to the exact quotient.
        assert(size(y * w - d * u) * k <= 3 * (d * u) + k * w) by (nonlinear_arith)
            requires
                size(y * w - x * u) * k <= x * u + k * w,
                size(x - d) * k <= d,
                x <= 2 * d,
                0 <= x,
                d > 0,
                u > 0,
                k == 0x100_0000,
        {
            let (a, b) = (y * w - x * u, (x - d) * u);
            assert(y * w - d * u == a + b) by {
                assert((x - d) * u == x * u - d * u);
            }
            assert(size(b) * k <= d * u) by {
                assert(size(b) == size(x - d) * u);
                assert((size(x - d) * k) * u <= d * u);
            }
            assert(x * u <= 2 * (d * u));
            assert(size(a + b) <= size(a) + size(b));
        }
        if d >= w {
            lemma_single_sum_order(view.mag_limit, m.opposite(), view.fade_width);
            assert(m.opposite().units() == -m.units());
            assert(x >= w);
            assert(x * u >= u * w) by (nonlinear_arith)
                requires
                    x >= w,
                    u > 0,
            ;
            lemma_quotient_at_least(rel, width, one);
        }
        if d <= w {
            lemma_ramp(y, w, d, u);
        }
        if d >= pow2(13) {
            assert(x * u >= w) by (nonlinear_arith)
                requires
                    size(x - d) * k <= d,
                    k == 0x100_0000,
                    d >= 0x2000,
                    w <= 0x1000 * u,
                    u > 0,
            {
                assert(x >= 0x1000);
                assert(x * u >= 0x1000 * u);
            }
            let tiny = Single { bits: 1 };
            assert(tiny.units() == 1);
            lemma_quotient_at_least(rel, width, tiny);
        }
    }
}

/// The effective widths are not so small that quotients overflow.
proof fn lemma_width_is_wide(width: Single)
    requires
        width.finite(),
        (Single { bits: 0x3a83_126f /* 1e-3 */ }).units() <= width.units(),
    ensures
        pow2(270) * width.units() >= pow2(163) * pow2(149),
{
    let least = Single { bits: 0x3a83_126f /* 1e-3 */ };
    lemma_single_power_code(-10);
    lemma_code_units_ordered(single_power_code(-10), least.code(), 23);
    lemma_pow2_adds(270, 139);
    lemma_pow2_adds(163, 149);
    lemma_pow2_strictly_increases(312, 409);
    let w = width.units();
    assert(pow2(270) * w >= pow2(270) * pow2(139)) by (nonlinear_arith)
        requires
            w >= pow2(139),
    ;
}

proof fn lemma_not_positive_quotient(a: Single, b: Single)
    requires
        a.finite(),
        b.finite(),
        a.units() <= 0,
        b.units() > 0,
    ensures
        !a.quotient(b).nan(),
        a.quotient(b).units() <= 0,
{
    lemma_pow2_pos(23);
    assert(code_units(0, 23) == 0);
    assert(!b.negative() && b.code() > 0);
    if a.code() > 0 {
        lemma_code_units_increases(0, a.code(), 23);
        let n = code_units(a.code(), 23) * pow2(149);
        lemma_nearest_exists(n, code_units(b.code(), 23), 23, SINGLE_INF as nat);
    }
}

proof fn lemma_quotient_at_least(a: Single, b: Single, c: Single)
    requires
        a.finite(),
        b.finite(),
        c.finite(),
        !c.negative(),
        a.units() > 0 || c.units() == 0,
        b.units() > 0,
        a.units() * pow2(149) >= c.units() * b.units(),
        a.units() >= 0,
    ensures
        !a.quotient(b).nan(),
        c.units() <= a.quotient(b).units(),
{
    lemma_pow2_pos(23);
    assert(code_units(0, 23) == 0);
    if a.code() > 0 {
        lemma_code_units_increases(0, a.code(), 23);
        assert(!a.negative());
        let n = code_units(a.code(), 23) * pow2(149);
        let d = code_units(b.code(), 23);
        lemma_nearest_exists(n, d, 23, SINGLE_INF as nat);
        lemma_nearest_at_least(n, d, 23, SINGLE_INF as nat, c.code());
        lemma_code_units_ordered(c.code(), nearest_code(n, d, 23, SINGLE_INF as nat), 23);
    }
}

/// A quotient brought to at most one is as close to the exact one, where that is at most one.
proof fn lemma_ramp(y: int, w: int, d: int, u: int)
    requires
        0 < w,
        0 < d <= w,
        u >= 0x1000_0000_0000,
        y >= 0,
        size(y * w - d * u) * 0x100_0000 <= 3 * (d * u) + 0x100_0000 * w,
    ensures
        ({
            let f = if y > u {
                u
            } else {
                y
            };
            size(f * w - d * u) * 0x40_0000 <= w * u
        }),
{
    assert(d * u <= w * u && u * w == w * u && (y > u ==> u * w < y * w)) by (nonlinear_arith)
        requires
            0 < d <= w,
            u > 0,
    ;
    assert(0x1000_0000_0000 * w <= w * u) by (nonlinear_arith)
        requires
            u >= 0x1000_0000_0000,
            w > 0,
    ;
}

/// A fade width of less than a thousandth counts as a thousandth.
pub proof fn law_narrow_fades_are_widened(view: ViewParams, m: Single)
    requires
        view.fade_width.nan() || view.fade_width.units() < (Single { bits: 0x3a83_126f /* 1e-3 */ }).units(),
    ensures
        fade_at(view, m) == fade_at(ViewParams { fade_width: Single { bits: 0x3a83_126f /* 1e-3 */ }, ..view }, m),
{
}

} // verus!
