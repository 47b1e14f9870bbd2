//! Laws of node geometry: where stars lie, how far nodes are, and which galaxies can be
//! measured.
use vstd::arithmetic::power2::*;
use vstd::prelude::*;

use crate::coord::{whole_meters, Fixed, GalacticCoord};
use crate::draws::{chacha8_words, double_at};
use crate::generate::{lemma_unit_double, place_of, poisson_draw, star_at, stars_of};
use crate::ieee::bounds::{
    lemma_int_within, lemma_opposite_within, lemma_part_of_length, lemma_power_code,
    lemma_power_of_two_int, lemma_quotient_by_power, lemma_product_within,
    lemma_rounding_keeps_order, lemma_rounds_to_itself, lemma_scaled_within, lemma_sum_is_no_less,
    lemma_sum_keeps_order, lemma_sum_units, lemma_sum_within, lemma_whole_within,
    lemma_within_grows, power_code, within,
};
use crate::ieee::convert::double_of_int;
use crate::ieee::double::{lemma_double_format, DOUBLE_INF};
use crate::ieee::encoding::{code_units, lemma_code_units_increases};
use crate::ieee::exact::{
    lemma_nearest_at_least, lemma_nearest_exists, lemma_nearest_of_code,
    lemma_nearest_root_at_least,
};
use crate::ieee::root::nearest_root_code;
use crate::ieee::rounding::{lemma_code_units_ordered, nearest_code};
use crate::ieee::Double;
use crate::maths::Elementary;
use crate::node::NodeKey;
use crate::octree::{all_measurable, tree_in_reach};
use crate::params::{GalaxyParams, HALF, ZERO};
use crate::seed::seed_of;
use crate::vector::{confined, Vector};

verus! {

/// A vector of numbers from zero to one.
pub open spec fn in_unit_cube(u: Vector) -> bool {
    &&& in_unit(u.x)
    &&& in_unit(u.y)
    &&& in_unit(u.z)
}

/// A number from zero to one.
pub open spec fn in_unit(u: Double) -> bool {
    !u.negative() && within(u, 0)
}

/// Every number drawn for a position is at least zero and below one.
pub proof fn law_draws_lie_in_the_unit_interval(words: Map<nat, u32>, at: nat)
    ensures
        in_unit(double_at(words, at)),
        double_at(words, at).less(Double { bits: 0x3ff0_0000_0000_0000 /* 1.0 */ }),
{
    lemma_unit_double(words[at], words[at + 1]);
    let v = ((words[at] + 0x1_0000_0000 * words[at + 1]) / 0x800) as nat;
    lemma_double_format();
    lemma_pow2_adds(53, 1021);
    lemma_pow2_pos(1021);
    assert(v * pow2(1021) < pow2(1074)) by (nonlinear_arith)
        requires
            v < pow2(53),
            pow2(1074) == pow2(53) * pow2(1021),
            pow2(1021) > 0,
    ;
    lemma_power_code(0);
}

/// Every star lies inside the cube of its node: on each axis its place is not below the min
/// corner and not beyond the min corner plus the edge.
pub proof fn law_stars_lie_inside_node_cube(params: GalaxyParams, key: NodeKey, u: Vector)
    requires
        in_unit_cube(u),
        params.node_size(key.depth).finite(),
        params.node_size(key.depth).units() >= 0,
        params.corner(key).x.finite(),
        params.corner(key).y.finite(),
        params.corner(key).z.finite(),
    ensures
        ({
            let place = place_of(params, key, u);
            let min = params.corner(key);
            let max = min.sum(Vector::even(params.node_size(key.depth)));
            &&& min.x.at_most(place.x) && place.x.at_most(max.x)
            &&& min.y.at_most(place.y) && place.y.at_most(max.y)
            &&& min.z.at_most(place.z) && place.z.at_most(max.z)
        }),
{
    let size = params.node_size(key.depth);
    let min = params.corner(key);
    lemma_inside_on_axis(min.x, size, u.x);
    lemma_inside_on_axis(min.y, size, u.y);
    lemma_inside_on_axis(min.z, size, u.z);
}

proof fn lemma_inside_on_axis(min: Double, size: Double, u: Double)
    requires
        in_unit(u),
        size.finite(),
        size.units() >= 0,
        min.finite(),
    ensures
        min.at_most(min.sum(u.product(size))),
        min.sum(u.product(size)).at_most(min.sum(size)),
{
    lemma_part_of_length(u, size);
    lemma_sum_is_no_less(min, u.product(size));
    lemma_sum_keeps_order(min, u.product(size), size);
}

/// The stars that a node owns lie inside its cube: the position of each is a place in the cube,
/// rounded to whole meters.
pub proof fn law_generated_stars_lie_inside_their_node<M: Fn(Elementary, Double, Double) -> Double>(
    maths: M,
    params: GalaxyParams,
    key: NodeKey,
    i: int,
) -> (place: Vector)
    requires
        0 <= i < stars_of(maths, params, key).len(),
        params.node_size(key.depth).finite(),
        params.node_size(key.depth).units() >= 0,
        params.corner(key).x.finite(),
        params.corner(key).y.finite(),
        params.corner(key).z.finite(),
    ensures
        stars_of(maths, params, key)[i].pos == GalacticCoord::nearest_to(place),
        ({
            let min = params.corner(key);
            let max = min.sum(Vector::even(params.node_size(key.depth)));
            &&& min.x.at_most(place.x) && place.x.at_most(max.x)
            &&& min.y.at_most(place.y) && place.y.at_most(max.y)
            &&& min.z.at_most(place.z) && place.z.at_most(max.z)
        }),
{
    reveal(stars_of);
    let words = chacha8_words(seed_of(params.root_seed, key));
    let (count, used) = poisson_draw(maths, words, params.expected(maths, key.depth));
    let at = (used + 9 * i) as nat;
    assert(stars_of(maths, params, key)[i] == star_at(maths, params, key, words, at));
    let u = Vector {
        x: double_at(words, at + 1),
        y: double_at(words, at + 3),
        z: double_at(words, at + 5),
    };
    law_draws_lie_in_the_unit_interval(words, at + 1);
    law_draws_lie_in_the_unit_interval(words, at + 3);
    law_draws_lie_in_the_unit_interval(words, at + 5);
    law_stars_lie_inside_node_cube(params, key, u);
    place_of(params, key, u)
}

/// Every level halves the edge exactly: the edge of a node is that of the universe over a power
/// of two, without rounding, unless it is so small that numbers lose precision.
pub proof fn law_levels_halve_the_edge(params: GalaxyParams, depth: u8)
    requires
        params.universe_size_m.finite(),
        depth < 64,
        params.universe_size_m.code() >= (depth + 1) * 0x10_0000_0000_0000,
    ensures
        params.node_size(depth).finite(),
        params.node_size(depth).negative() == params.universe_size_m.negative(),
        params.node_size(depth).units() * pow2(depth as nat) == params.universe_size_m.units(),
{
    let a = params.universe_size_m;
    let d = depth as nat;
    let b = double_of_int(pow2(d) as int);
    lemma_power_of_two_int(d);
    lemma_quotient_by_power(a, b, d);
}

/// The universe is at most 2^120 meters wide, which is beyond a hundred billion billion light
/// years.
pub open spec fn is_ordinary(params: GalaxyParams) -> bool {
    within(params.universe_size_m, 120)
}

/// A position within 2^125 meters of the origin on each axis.
pub open spec fn is_central(p: GalacticCoord) -> bool {
    &&& -(pow2(125) as int) <= p.x.value() <= pow2(125)
    &&& -(pow2(125) as int) <= p.y.value() <= pow2(125)
    &&& -(pow2(125) as int) <= p.z.value() <= pow2(125)
}

pub proof fn lemma_side_within(params: GalaxyParams, depth: u8, i: u64)
    requires
        is_ordinary(params),
        depth < 64,
        i < pow2(depth as nat),
    ensures
        within(params.node_size(depth), 120 - depth),
        within(params.side(depth, i), 121),
{
    let d = depth as nat;
    lemma_scaled_within(params.universe_size_m, 120, d);
    lemma_int_within(i as int, d);
    lemma_product_within(double_of_int(i as int), depth as int, params.node_size(depth), 120 - depth);
    lemma_power_code(-1);
    let half = Double { bits: HALF };
    assert(half.code() == power_code(-1));
    assert(within(half, -1));
    lemma_product_within(params.universe_size_m, 120, half, -1);
    lemma_within_grows(params.universe_size_m.product(half), 119, 120);
    lemma_sum_within(
        double_of_int(i as int).product(params.node_size(depth)),
        params.universe_size_m.product(half),
        120,
    );
}

pub proof fn lemma_range()
    ensures
        pow2(122) + pow2(125) < pow2(127),
        pow2(127) == 0x8000_0000_0000_0000_0000_0000_0000_0000,
{
    lemma2_to64();
    lemma2_to64_rest();
    lemma_pow2_unfold(127);
    lemma_pow2_unfold(126);
    lemma_pow2_strictly_increases(122, 125);
    lemma_pow2_pos(125);
    lemma_pow2_adds(63, 64);
    assert(0x8000_0000_0000_0000 * 0x1_0000_0000_0000_0000
        == 0x8000_0000_0000_0000_0000_0000_0000_0000int) by (nonlinear_arith);
}

pub proof fn lemma_measurable(v: Vector, camera: GalacticCoord)
    requires
        within(v.x, 122),
        within(v.y, 122),
        within(v.z, 122),
        is_central(camera),
    ensures
        camera.measurable_from(GalacticCoord::nearest_to(v)),
        GalacticCoord::nearest_to(v).measurable_from(camera),
{
    lemma_range();
    lemma_whole_within(v.x, 122);
    lemma_whole_within(v.y, 122);
    lemma_whole_within(v.z, 122);
    lemma_pow2_strictly_increases(122, 127);
    Fixed::lemma_of(whole_meters(v.x));
    Fixed::lemma_of(whole_meters(v.y));
    Fixed::lemma_of(whole_meters(v.z));
}

proof fn lemma_place_within(params: GalaxyParams, key: NodeKey, u: Vector)
    requires
        is_ordinary(params),
        key.depth < 64,
        key.is_down_to(key.depth),
        in_unit_cube(u),
    ensures
        within(place_of(params, key, u).x, 122),
        within(place_of(params, key, u).y, 122),
        within(place_of(params, key, u).z, 122),
{
    let size = params.node_size(key.depth);
    let s = 120 - key.depth;
    lemma_side_within(params, key.depth, key.ix);
    lemma_side_within(params, key.depth, key.iy);
    lemma_side_within(params, key.depth, key.iz);
    lemma_product_within(u.x, 0, size, s);
    lemma_product_within(u.y, 0, size, s);
    lemma_product_within(u.z, 0, size, s);
    lemma_within_grows(u.x.product(size), s, 121);
    lemma_within_grows(u.y.product(size), s, 121);
    lemma_within_grows(u.z.product(size), s, 121);
    let min = params.corner(key);
    lemma_sum_within(min.x, u.x.product(size), 121);
    lemma_sum_within(min.y, u.y.product(size), 121);
    lemma_sum_within(min.z, u.z.product(size), 121);
}

/// In an ordinary universe every node and every star can be measured from every central
/// position: no difference of coordinates overflows.
pub proof fn law_ordinary_galaxies_are_in_reach<M: Fn(Elementary, Double, Double) -> Double>(
    maths: M,
    params: GalaxyParams,
    camera: GalacticCoord,
    depth: u8,
)
    requires
        is_ordinary(params),
        is_central(camera),
        depth < 64,
    ensures
        tree_in_reach(maths, params, camera, depth),
{
    assert forall|key: NodeKey| #[trigger] key.is_down_to(depth) implies {
        &&& camera.measurable_from(params.corner_position(key))
        &&& all_measurable(stars_of(maths, params, key), camera)
    } by {
        lemma_side_within(params, key.depth, key.ix);
        lemma_side_within(params, key.depth, key.iy);
        lemma_side_within(params, key.depth, key.iz);
        let min = params.corner(key);
        lemma_within_grows(min.x, 121, 122);
        lemma_within_grows(min.y, 121, 122);
        lemma_within_grows(min.z, 121, 122);
        lemma_measurable(min, camera);
        lemma_stars_measurable(maths, params, camera, key);
    }
}

proof fn lemma_stars_measurable<M: Fn(Elementary, Double, Double) -> Double>(
    maths: M,
    params: GalaxyParams,
    camera: GalacticCoord,
    key: NodeKey,
)
    requires
        is_ordinary(params),
        is_central(camera),
        key.depth < 64,
        key.is_down_to(key.depth),
    ensures
        all_measurable(stars_of(maths, params, key), camera),
{
    reveal(stars_of);
    let words = chacha8_words(seed_of(params.root_seed, key));
    let (count, used) = poisson_draw(maths, words, params.expected(maths, key.depth));
    let stars = stars_of(maths, params, key);
    assert forall|i: int| 0 <= i < stars.len() implies (#[trigger] stars[i]).pos.measurable_from(camera) by {
        let at = (used + 9 * i) as nat;
        assert(stars[i] == star_at(maths, params, key, words, at));
        let u = Vector {
            x: double_at(words, at + 1),
            y: double_at(words, at + 3),
            z: double_at(words, at + 5),
        };
        law_draws_lie_in_the_unit_interval(words, at + 1);
        law_draws_lie_in_the_unit_interval(words, at + 3);
        law_draws_lie_in_the_unit_interval(words, at + 5);
        lemma_place_within(params, key, u);
        lemma_measurable(place_of(params, key, u), camera);
    }
}

/// The camera, seen from the min corner of a node, lies in the node's cube.
pub open spec fn is_inside(params: GalaxyParams, key: NodeKey, camera: GalacticCoord) -> bool {
    let min = params.corner(key);
    let extent = min.sum(Vector::even(params.node_size(key.depth))).difference(min);
    let cam = camera.relative(params.corner_position(key));
    &&& lies_between(cam.x, extent.x)
    &&& lies_between(cam.y, extent.y)
    &&& lies_between(cam.z, extent.z)
}

/// `v` is a finite number from zero to `high`.
pub open spec fn lies_between(v: Double, high: Double) -> bool {
    v.finite() && 0 <= v.units() && v.at_most(high)
}

/// A camera inside a node is at no distance from it.
pub proof fn law_near_distance_is_zero_inside(params: GalaxyParams, key: NodeKey, camera: GalacticCoord)
    requires
        is_inside(params, key, camera),
    ensures
        params.near_distance(key, camera) == (Double { bits: 0 }),
{
    let zero = Double { bits: ZERO };
    let min = params.corner(key);
    let extent = min.sum(Vector::even(params.node_size(key.depth))).difference(min);
    let cam = camera.relative(params.corner_position(key));
    let corner = params.corner_position(key);
    lemma_sign_of_int(camera.x.value() - corner.x.value());
    lemma_sign_of_int(camera.y.value() - corner.y.value());
    lemma_sign_of_int(camera.z.value() - corner.z.value());
    lemma_no_excess(cam.x, extent.x);
    lemma_no_excess(cam.y, extent.y);
    lemma_no_excess(cam.z, extent.z);
    let d = cam.difference(cam.confined(Vector::even(zero), extent));
    assert(d.x == zero && d.y == zero && d.z == zero);
    lemma_zero_norm();
}

proof fn lemma_no_excess(v: Double, high: Double)
    requires
        lies_between(v, high),
        !v.negative(),
    ensures
        v.difference(confined(v, Double { bits: ZERO }, high)) == (Double { bits: ZERO }),
{
    let zero = Double { bits: ZERO };
    let c = confined(v, zero, high);
    lemma_pow2_pos(52);
    assert(zero.units() == 0);
    // Where the bound was taken it equals the value.
    assert(c.units() == v.units());
    assert(!c.nan());
    assert(c.finite()) by {
        if !c.finite() {
            lemma_code_units_increases(v.code(), c.code(), 52);
        }
    }
    assert(c.opposite().units() == -v.units());
}

/// A converted integer that is not below zero has no minus sign.
proof fn lemma_sign_of_int(x: int)
    ensures
        double_of_int(x).units() >= 0 ==> !double_of_int(x).negative(),
{
    let inf = DOUBLE_INF as nat;
    if x < 0 {
        let m = (-x) as nat;
        let n = m * pow2(1074);
        lemma_power_code(0);
        lemma_nearest_exists(n, 1, 52, inf);
        assert(n >= pow2(1074) * 1) by (nonlinear_arith)
            requires
                n == m * pow2(1074),
                m >= 1,
        ;
        lemma_nearest_at_least(n, 1, 52, inf, power_code(0));
        lemma_pow2_pos(52);
        lemma_code_units_increases(0, nearest_code(n, 1, 52, inf), 52);
    } else {
        lemma_nearest_exists(x as nat * pow2(1074), 1, 52, inf);
    }
}

proof fn lemma_zero_norm()
    ensures
        (Vector::even(Double { bits: ZERO })).norm() == (Double { bits: 0 }),
{
    let zero = Double { bits: ZERO };
    lemma_pow2_pos(52);
    lemma_pow2_pos(1074);
    lemma_nearest_of_code(0, pow2(1074), 52, DOUBLE_INF as nat);
    assert(code_units(0, 52) * code_units(0, 52) == 0 && 0 * pow2(1074) == 0) by (nonlinear_arith)
        requires
            code_units(0, 52) == 0,
    ;
    assert(zero.product(zero) == zero);
    assert(zero.sum(zero) == zero);
}

/// `v` lies at least one meter outside the range from zero to `high`.
pub open spec fn sticks_out(v: Double, high: Double) -> bool {
    v.units() <= -(pow2(1074) as int) || v.units() - high.units() >= pow2(1074)
}

/// A camera that lies at least a meter outside a node on some axis is at least a meter away.
pub proof fn law_near_distance_is_positive_outside(params: GalaxyParams, key: NodeKey, camera: GalacticCoord)
    requires
        camera.measurable_from(params.corner_position(key)),
        ({
            let min = params.corner(key);
            let extent = min.sum(Vector::even(params.node_size(key.depth))).difference(min);
            let cam = camera.relative(params.corner_position(key));
            &&& within(extent.x, 128) && extent.x.units() >= 0
            &&& within(extent.y, 128) && extent.y.units() >= 0
            &&& within(extent.z, 128) && extent.z.units() >= 0
            &&& sticks_out(cam.x, extent.x) || sticks_out(cam.y, extent.y) || sticks_out(
                cam.z,
                extent.z,
            )
        }),
    ensures
        (Double { bits: 0x3ff0_0000_0000_0000 /* 1.0 */ }).at_most(
            params.near_distance(key, camera),
        ),
{
    let min = params.corner(key);
    let extent = min.sum(Vector::even(params.node_size(key.depth))).difference(min);
    let corner = params.corner_position(key);
    let cam = camera.relative(corner);
    lemma_range();
    lemma_pow2_unfold(128);
    lemma_int_within(camera.x.value() - corner.x.value(), 128);
    lemma_int_within(camera.y.value() - corner.y.value(), 128);
    lemma_int_within(camera.z.value() - corner.z.value(), 128);
    lemma_excess_squared(cam.x, extent.x);
    lemma_excess_squared(cam.y, extent.y);
    lemma_excess_squared(cam.z, extent.z);
    let d = cam.difference(cam.confined(Vector::even(Double { bits: ZERO }), extent));
    let (x, y, z) = (d.x.product(d.x), d.y.product(d.y), d.z.product(d.z));
    let xy = x.sum(y);
    lemma_sum_is_no_less(x, y);
    lemma_sum_is_no_less(y, x);
    lemma_sum_units(x, y);
    lemma_sum_units(y, x);
    lemma_sum_within(x, y, 258);
    lemma_within_grows(z, 258, 259);
    lemma_sum_is_no_less(xy, z);
    lemma_sum_is_no_less(z, xy);
    lemma_sum_units(xy, z);
    lemma_sum_units(z, xy);
    lemma_sum_within(xy, z, 259);
    let sq = xy.sum(z);
    assert(sq.units() >= pow2(1074));
    lemma_root_is_no_less_than_one(sq);
}

proof fn lemma_excess_squared(v: Double, high: Double)
    requires
        within(v, 128),
        within(high, 128),
        high.units() >= 0,
    ensures
        ({
            let d = v.difference(confined(v, Double { bits: ZERO }, high));
            let sq = d.product(d);
            &&& within(sq, 258)
            &&& sq.units() >= 0
            &&& sticks_out(v, high) ==> sq.units() >= pow2(1074)
        }),
{
    let zero = Double { bits: ZERO };
    let c = confined(v, zero, high);
    lemma_pow2_pos(52);
    lemma_pow2_pos(1074);
    lemma_pow2_pos(1202);
    assert(zero.units() == 0);
    assert(within(zero, 128));
    assert(within(c, 128));
    let d = v.difference(c);
    lemma_sum_within(v, c, 128);
    lemma_product_within(d, 129, d, 129);
    lemma_opposite_within(c, 128);
    lemma_sum_units(v, c.opposite());
    let inf = DOUBLE_INF as nat;
    let n = code_units(d.code(), 52);
    lemma_nearest_exists(n * n, pow2(1074), 52, inf);
    if sticks_out(v, high) {
        let one = Double { bits: 0x3ff0_0000_0000_0000 /* 1.0 */ };
        lemma_power_code(0);
        assert(one.code() == power_code(0));
        lemma_rounds_to_itself(one);
        let minus = one.opposite();
        assert(minus.code() == one.code() && minus.negative() && minus.finite());
        lemma_rounds_to_itself(minus);
        let s = v.units() - c.units();
        assert(s >= pow2(1074) || s <= -(pow2(1074) as int));
        if s >= pow2(1074) {
            lemma_rounding_keeps_order(pow2(1074) as int, s);
        } else {
            lemma_rounding_keeps_order(s, -(pow2(1074) as int));
        }
        assert(n >= pow2(1074));
        assert(n * n >= pow2(1074) * pow2(1074)) by (nonlinear_arith)
            requires
                n >= pow2(1074),
        ;
        lemma_nearest_at_least(n * n, pow2(1074), 52, inf, power_code(0));
        lemma_code_units_ordered(power_code(0), nearest_code(n * n, pow2(1074), 52, inf), 52);
    }
}

proof fn lemma_root_is_no_less_than_one(sq: Double)
    requires
        sq.finite(),
        sq.units() >= pow2(1074),
    ensures
        (Double { bits: 0x3ff0_0000_0000_0000 /* 1.0 */ }).at_most(sq.root()),
{
    let inf = DOUBLE_INF as nat;
    let s = code_units(sq.code(), 52) * pow2(1074);
    lemma_pow2_pos(52);
    lemma_pow2_pos(1074);
    lemma_power_code(0);
    assert(sq.code() > 0);
    assert(s >= pow2(1074) * pow2(1074)) by (nonlinear_arith)
        requires
            s == code_units(sq.code(), 52) * pow2(1074),
            code_units(sq.code(), 52) >= pow2(1074),
    ;
    lemma_nearest_root_at_least(s, 52, inf, power_code(0));
    lemma_code_units_ordered(power_code(0), nearest_root_code(s, 52, inf), 52);
}

} // verus!
