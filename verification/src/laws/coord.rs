//! Laws of galactic coordinates.
use vstd::arithmetic::div_mod::*;
use vstd::arithmetic::power2::*;
use vstd::prelude::*;

use crate::coord::{fits, whole_meters, Fixed, GalacticCoord};
use crate::ieee::bounds::{lemma_power_code, power_code};
use crate::ieee::convert::{double_of_int, half_up};
use crate::ieee::double::DOUBLE_INF;
use crate::ieee::encoding::{code_units, Double};
use crate::ieee::exact::{lemma_nearest_exists, lemma_nearest_of_code, lemma_small_int_exact};
use crate::laws::lengths::{lemma_extent_of_int, lemma_norm};
use crate::laws::space::lemma_range;
use crate::params::ONE;
use crate::vector::Vector;

verus! {

/// `x` has at most fifty-three binary digits (or is the power of two after them).
pub open spec fn is_small(x: int) -> bool {
    -0x20_0000_0000_0000 <= x <= 0x20_0000_0000_0000
}

/// The difference of two positions on each axis is small.
pub open spec fn is_near(a: GalacticCoord, b: GalacticCoord) -> bool {
    &&& is_small(a.x.value() - b.x.value())
    &&& is_small(a.y.value() - b.y.value())
    &&& is_small(a.z.value() - b.z.value())
}

/// Floating origin: wherever two positions lie in the galaxy, the one seen from the other is
/// exact to the meter as long as they are near each other.
pub proof fn law_floating_origin_is_exact(a: GalacticCoord, b: GalacticCoord)
    requires
        is_near(a, b),
    ensures
        a.relative(b).x.units() == (a.x.value() - b.x.value()) * pow2(1074),
        a.relative(b).y.units() == (a.y.value() - b.y.value()) * pow2(1074),
        a.relative(b).z.units() == (a.z.value() - b.z.value()) * pow2(1074),
{
    lemma_small_int_exact(a.x.value() - b.x.value());
    lemma_small_int_exact(a.y.value() - b.y.value());
    lemma_small_int_exact(a.z.value() - b.z.value());
}

proof fn lemma_opposite_int(x: int)
    ensures
        double_of_int(-x).units() == -double_of_int(x).units(),
        double_of_int(-x).code() == double_of_int(x).code(),
        x != 0 ==> double_of_int(-x) == double_of_int(x).opposite(),
{
    let m = if x < 0 {
        (-x) as nat
    } else {
        x as nat
    };
    lemma_nearest_exists(m * pow2(1074), 1, 52, DOUBLE_INF as nat);
    if x == 0 {
        lemma_small_int_exact(0);
        assert(0 * pow2(1074) == 0) by (nonlinear_arith);
    }
}

/// Two positions see each other in opposite directions.
pub proof fn law_relative_is_antisymmetric(a: GalacticCoord, b: GalacticCoord)
    requires
        a.measurable_from(b),
        b.measurable_from(a),
    ensures
        a.relative(b).x.units() == -b.relative(a).x.units(),
        a.relative(b).y.units() == -b.relative(a).y.units(),
        a.relative(b).z.units() == -b.relative(a).z.units(),
{
    lemma_opposite_int(b.x.value() - a.x.value());
    lemma_opposite_int(b.y.value() - a.y.value());
    lemma_opposite_int(b.z.value() - a.z.value());
}

/// Moving by a whole number of meters and looking back gives the move: an offset of up to
/// fifty-three digits on each axis is recovered exactly, wherever the position lies.
pub proof fn law_offset_round_trip(p: GalacticCoord, i: int, j: int, k: int)
    requires
        is_small(i),
        is_small(j),
        is_small(k),
        fits(p.x.value() + i),
        fits(p.y.value() + j),
        fits(p.z.value() + k),
    ensures
        ({
            let delta = Vector { x: double_of_int(i), y: double_of_int(j), z: double_of_int(k) };
            let moved = GalacticCoord::at(
                p.x.value() + whole_meters(delta.x),
                p.y.value() + whole_meters(delta.y),
                p.z.value() + whole_meters(delta.z),
            );
            moved.relative(p) == delta
        }),
{
    lemma_small_int_exact(i);
    lemma_small_int_exact(j);
    lemma_small_int_exact(k);
    Fixed::lemma_of(p.x.value() + i);
    Fixed::lemma_of(p.y.value() + j);
    Fixed::lemma_of(p.z.value() + k);
}

/// A meter value is rounded by at most half a meter, unless it is out of range.
pub proof fn law_rounding_is_within_half_a_meter(m: Double)
    requires
        m.finite(),
        fits(m.nearest_int()),
    ensures
        2 * (whole_meters(m) * pow2(1074) - m.units()) <= pow2(1074),
        2 * (m.units() - whole_meters(m) * pow2(1074)) <= pow2(1074),
{
    let (n, b) = (code_units(m.code(), 52), pow2(1074));
    lemma_pow2_pos(1074);
    lemma_pow2_unfold(1075);
    let w = half_up(n, 1074) as int;
    let r = (2 * n + b) as int % (2 * b) as int;
    lemma_fundamental_div_mod((2 * n + b) as int, (2 * b) as int);
    assert(2 * n + b == 2 * (w * b) + r) by (nonlinear_arith)
        requires
            2 * n + b == (2 * b) * w + r,
    ;
    assert((-w) * b == -(w * b)) by (nonlinear_arith);
}

/// The distance between two positions is the same in both directions.
pub proof fn law_distance_is_symmetric(a: GalacticCoord, b: GalacticCoord)
    requires
        a.measurable_from(b),
        b.measurable_from(a),
    ensures
        a.distance(b) == b.distance(a),
{
    lemma_opposite_int(b.x.value() - a.x.value());
    lemma_opposite_int(b.y.value() - a.y.value());
    lemma_opposite_int(b.z.value() - a.z.value());
}

/// A position is at no distance from itself.
pub proof fn law_distance_to_itself_is_zero(a: GalacticCoord)
    ensures
        a.distance(a) == (Double { bits: 0 }),
{
    let zero = double_of_int(0);
    lemma_small_int_exact(0);
    lemma_int_stays_below_zero();
    assert(zero == Double { bits: 0 });
    lemma_pow2_pos(52);
    lemma_pow2_pos(1074);
    lemma_nearest_of_code(0, pow2(1074), 52, DOUBLE_INF as nat);
    assert(code_units(0, 52) * code_units(0, 52) == 0 && 0 * pow2(1074) == 0) by (nonlinear_arith)
        requires
            code_units(0, 52) == 0,
    ;
    assert(zero.product(zero) == zero);
    assert(zero.sum(zero) == zero);
}

proof fn lemma_int_stays_below_zero()
    ensures
        double_of_int(0).bits == 0,
{
    lemma_nearest_of_code(0, 1, 52, DOUBLE_INF as nat);
    lemma_pow2_pos(52);
    assert(code_units(0, 52) * 1 == 0 && 0 * pow2(1074) == 0) by (nonlinear_arith)
        requires
            code_units(0, 52) == 0,
    ;
}

/// Distances tell positions apart: a distance is a finite number, zero between a position and
/// itself, and at least one meter between any two others.
pub proof fn law_distances_tell_positions_apart(a: GalacticCoord, b: GalacticCoord)
    requires
        a.measurable_from(b),
    ensures
        a.distance(b).finite(),
        !a.distance(b).negative(),
        a.distance(b) == (Double { bits: 0 }) <==> a == b,
        a != b ==> (Double { bits: ONE }).at_most(a.distance(b)),
{
    law_distance_to_itself_is_zero(a);
    if a != b {
        lemma_range();
        if a.x.value() == b.x.value() && a.y.value() == b.y.value() && a.z.value() == b.z.value() {
            a.x.lemma_same_value(b.x);
            a.y.lemma_same_value(b.y);
            a.z.lemma_same_value(b.z);
        }
        lemma_extent_of_int(a.x.value() - b.x.value());
        lemma_extent_of_int(a.y.value() - b.y.value());
        lemma_extent_of_int(a.z.value() - b.z.value());
        lemma_norm(a.relative(b));
        lemma_power_code(0);
        assert((Double { bits: ONE }).code() == power_code(0));
        lemma_pow2_pos(1074);
        lemma_pow2_pos(52);
    }
}

/// Positions of up to 2^126 meters on each axis, which is far beyond any galaxy, can be added,
/// subtracted and negated.
pub proof fn law_galaxy_scale_never_overflows(a: Fixed, b: Fixed)
    requires
        -0x4000_0000_0000_0000_0000_0000_0000_0000 <= a.value()
            <= 0x3fff_ffff_ffff_ffff_ffff_ffff_ffff_ffff,
        -0x4000_0000_0000_0000_0000_0000_0000_0000 <= b.value()
            <= 0x3fff_ffff_ffff_ffff_ffff_ffff_ffff_ffff,
    ensures
        fits(a.value() + b.value()),
        fits(a.value() - b.value()),
        fits(-a.value()),
{
}

} // verus!
