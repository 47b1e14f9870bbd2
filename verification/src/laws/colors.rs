//! Laws of the colors of the octree overlay.
use vstd::arithmetic::div_mod::*;
use vstd::arithmetic::power2::*;
use vstd::prelude::*;

use crate::ieee::convert::single_of_int;
use crate::ieee::encoding::code_units;
use crate::ieee::error::lemma_single_product_order;
use crate::ieee::exact::{lemma_nearest_at_most, lemma_nearest_of_code};
use crate::ieee::rounding::{lemma_code_units_ordered, nearest_code};
use crate::ieee::single::{lemma_single_format, SINGLE_INF};
use crate::ieee::Single;
use crate::laws::bands::lemma_small_single;
use crate::render::colors::{color_at, depth_hue, rgb_of};

verus! {

/// A number from zero to one.
pub open spec fn in_unit(x: Single) -> bool {
    x.finite() && !x.negative() && x.units() <= pow2(149)
}

/// One.
pub open spec fn one() -> Single {
    Single { bits: 0x3f80_0000 /* 1.0 */ }
}

proof fn lemma_one()
    ensures
        in_unit(one()),
        one().units() == pow2(149),
{
    lemma_single_format();
    assert(0x3f80_0000nat / 0x80_0000 == 127 && 0x3f80_0000nat % 0x80_0000 == 0);
    lemma_pow2_adds(23, 126);
    assert(0x80_0000 * pow2(126) == pow2(23) * pow2(126));
}

proof fn lemma_unit_product(a: Single, b: Single)
    requires
        in_unit(a),
        in_unit(b),
    ensures
        in_unit(a.product(b)),
{
    lemma_one();
    assert(a.units() * b.units() <= pow2(149) * pow2(149)) by (nonlinear_arith)
        requires
            0 <= a.units() <= pow2(149),
            0 <= b.units() <= pow2(149),
    ;
    lemma_single_product_order(a, b, one());
}

proof fn lemma_unit_difference(a: Single, b: Single)
    requires
        a.finite(),
        b.finite(),
        !a.negative(),
        0 <= a.units() - b.units() <= pow2(149),
    ensures
        in_unit(a.difference(b)),
{
    lemma_one();
    lemma_pow2_pos(23);
    assert(b.opposite().units() == -b.units());
    let n = (a.units() - b.units()) as nat;
    assert(n * 1 == n && code_units(one().code(), 23) * 1 == code_units(one().code(), 23))
        by (nonlinear_arith);
    lemma_nearest_at_most(n, 1, 23, SINGLE_INF as nat, one().code());
    lemma_code_units_ordered(nearest_code(n, 1, 23, SINGLE_INF as nat), one().code(), 23);
}

/// What a number from zero to 255 exceeds the whole number below it by.
proof fn lemma_fraction(x: Single)
    requires
        x.finite(),
        !x.negative(),
        x.units() <= 255 * pow2(149),
    ensures
        in_unit(x.difference(x.floored())),
        0 <= x.floor_int() <= 255,
{
    let d = pow2(149) as int;
    lemma_pow2_pos(149);
    lemma_pow2_pos(23);
    let n = x.floor_int();
    lemma_fundamental_div_mod(x.units(), d);
    lemma_mod_bound(x.units(), d);
    assert(0 <= n <= 255) by (nonlinear_arith)
        requires
            x.units() == d * n + x.units() % d,
            0 <= x.units() % d < d,
            0 <= x.units() <= 255 * d,
            d > 0,
    ;
    if x.code() == 0 {
        assert(x.floored() == x);
        lemma_unit_difference(x, x);
    } else {
        lemma_small_single(n as nat);
        assert(d * n == n * d) by (nonlinear_arith);
        lemma_unit_difference(x, x.floored());
    }
}

/// A hue, a saturation and a value from zero to one give a red, a green and a blue from zero to
/// one.
pub proof fn law_colors_stay_in_range(h: Single, s: Single, v: Single)
    requires
        in_unit(h),
        in_unit(s),
        in_unit(v),
    ensures
        in_unit(rgb_of(h, s, v).0),
        in_unit(rgb_of(h, s, v).1),
        in_unit(rgb_of(h, s, v).2),
{
    lemma_one();
    let six = Single { bits: 0x40c0_0000 /* 6.0 */ };
    let h6 = h.product(six);
    lemma_single_format();
    lemma_pow2_pos(149);
    assert(six == single_of_int(6) && six.units() == 6 * pow2(149)) by {
        lemma_six();
    }
    assert(h.units() * six.units() <= six.units() * pow2(149)) by (nonlinear_arith)
        requires
            0 <= h.units() <= pow2(149),
            six.units() >= 0,
    ;
    lemma_single_product_order(h, six, six);
    lemma_fraction(h6);
    let f = h6.difference(h6.floored());
    lemma_unit_difference(one(), s);
    lemma_unit_product(v, one().difference(s));
    lemma_unit_product(f, s);
    lemma_unit_difference(one(), f.product(s));
    lemma_unit_product(v, one().difference(f.product(s)));
    lemma_unit_difference(one(), f);
    lemma_unit_product(one().difference(f), s);
    lemma_unit_difference(one(), one().difference(f).product(s));
    lemma_unit_product(v, one().difference(one().difference(f).product(s)));
}

proof fn lemma_six()
    ensures
        (Single { bits: 0x40c0_0000 /* 6.0 */ }) == single_of_int(6),
        (Single { bits: 0x40c0_0000 /* 6.0 */ }).units() == 6 * pow2(149),
{
    lemma_single_format();
    assert(0x40c0_0000nat / 0x80_0000 == 129 && 0x40c0_0000nat % 0x80_0000 == 0x40_0000);
    lemma_pow2_adds(21, 128);
    lemma2_to64();
    let c = 0x40c0_0000nat;
    assert(code_units(c, 23) == 0xc0_0000 * pow2(128));
    assert(0xc0_0000 * pow2(128) == 6 * pow2(149)) by (nonlinear_arith)
        requires
            pow2(149) == 0x20_0000 * pow2(128),
    ;
    lemma_nearest_of_code(c, 1, 23, SINGLE_INF as nat);
    assert((6 * pow2(149)) * 1 == 6 * pow2(149)) by (nonlinear_arith);
}

/// Every depth has a color: red, green and blue from zero to one, and one weight for all.
pub proof fn law_depth_colors_are_valid(depth: u8)
    ensures
        in_unit(color_at(depth)@[0]),
        in_unit(color_at(depth)@[1]),
        in_unit(color_at(depth)@[2]),
        color_at(depth)@[3] == (Single { bits: 0x3f0c_cccd /* 0.55 */ }),
{
    lemma_one();
    lemma_single_format();
    let ratio = Single { bits: 0x3f1e_377a /* 0.618034 */ };
    let n = single_of_int(depth as int);
    lemma_small_single(depth as nat);
    let top = single_of_int(255);
    lemma_small_single(255);
    lemma_below_one(ratio);
    lemma_pow2_pos(149);
    assert(depth as nat * pow2(149) <= 255 * pow2(149)) by (nonlinear_arith)
        requires
            depth <= 255,
    ;
    assert(n.units() * ratio.units() <= top.units() * pow2(149)) by (nonlinear_arith)
        requires
            0 <= n.units() <= top.units(),
            0 <= ratio.units() <= pow2(149),
    ;
    lemma_single_product_order(n, ratio, top);
    lemma_fraction(n.product(ratio));
    let s = Single { bits: 0x3f26_6666 /* 0.65 */ };
    lemma_below_one(s);
    law_colors_stay_in_range(depth_hue(depth), s, one());
}

proof fn lemma_below_one(x: Single)
    requires
        x.bits <= 0x3f80_0000,
    ensures
        in_unit(x),
{
    lemma_one();
    lemma_code_units_ordered(x.code(), one().code(), 23);
    lemma_pow2_pos(23);
}

} // verus!
