//! Laws of places: where nodes and stars are, as numbers.
use vstd::arithmetic::power2::*;
use vstd::prelude::*;

use crate::coord::{fits, whole_meters, Fixed, GalacticCoord};
use crate::draws::{double_at, unit_double};
use crate::generate::{lemma_unit_double, place_of, star_at};
use crate::ieee::accuracy::{
    lemma_difference_relative, lemma_double_literal, lemma_product_relative,
    lemma_quotient_relative, lemma_sum_relative, size,
};
use crate::ieee::bounds::{lemma_int_within, lemma_sum_is_no_less, lemma_whole_within};
use crate::ieee::convert::double_of_int;
use crate::ieee::encoding::code_units;
use crate::ieee::Double;
use crate::laws::coord::law_rounding_is_within_half_a_meter;
use crate::laws::directions::lemma_int_is_close;
use crate::laws::lengths::{
    close, is_extent, lemma_close_chain, lemma_close_squares, lemma_close_sum, lemma_close_weakens,
    lemma_extent_of_int, lemma_norm,
};
use crate::laws::space::{in_unit, is_central, is_ordinary, law_levels_halve_the_edge, lemma_range};
use crate::maths::Elementary;
use crate::node::NodeKey;
use crate::params::{GalaxyParams, HALF, ONE, ZERO};
use crate::vector::{confined, Vector};

verus! {

/// A universe of at least one meter and at most 2^120 meters.
pub open spec fn is_spacious(params: GalaxyParams) -> bool {
    &&& is_ordinary(params)
    &&& params.universe_size_m.units() >= pow2(1074)
}

/// The edge of a node is that of the universe over the number of nodes on an axis.
pub proof fn lemma_edge(params: GalaxyParams, depth: u8)
    requires
        is_spacious(params),
        depth < 64,
    ensures
        params.node_size(depth).finite(),
        params.node_size(depth).units() > 0,
        params.node_size(depth).units() * pow2(depth as nat) == params.universe_size_m.units(),
        params.universe_size_m.units() <= pow2(1194),
{
    let a = params.universe_size_m;
    lemma2_to64();
    lemma2_to64_rest();
    lemma_pow2_pos(1074);
    lemma_pow2_pos(depth as nat);
    assert(a.code() >= (depth + 1) * 0x10_0000_0000_0000) by {
        if a.code() < (depth + 1) * 0x10_0000_0000_0000 {
            lemma_small_code(a.code());
        }
    }
    law_levels_halve_the_edge(params, depth);
    let z = params.node_size(depth).units();
    assert(z > 0) by (nonlinear_arith)
        requires
            z * pow2(depth as nat) == a.units(),
            a.units() > 0,
            pow2(depth as nat) > 0,
    ;
}

/// Codes of few binades stand for small numbers.
proof fn lemma_small_code(c: nat)
    requires
        c < 64 * 0x10_0000_0000_0000,
    ensures
        code_units(c, 52) < pow2(1074),
{
    lemma2_to64();
    lemma2_to64_rest();
    if c < pow2(52) {
        lemma_pow2_strictly_increases(52, 1074);
    } else {
        let e = (c / pow2(52) - 1) as nat;
        let m = c % pow2(52) + pow2(52);
        assert(e <= 62);
        lemma_pow2_adds(53, e);
        lemma_pow2_strictly_increases(53 + e, 1074);
        lemma_pow2_pos(e);
        assert(m * pow2(e) <= pow2(53) * pow2(e)) by (nonlinear_arith)
            requires
                m <= pow2(53),
        ;
    }
}

/// Half of a length.
pub proof fn lemma_half(a: Double)
    requires
        a.finite(),
        pow2(1000) <= a.units() <= pow2(1500),
    ensures
        ({
            let h = a.product(Double { bits: HALF });
            &&& h.finite()
            &&& h.units() >= 0
            &&& size(2 * h.units() - a.units()) * pow2(53) <= 2 * a.units()
        }),
{
    let half = Double { bits: HALF };
    let (s, k, u) = (a.units(), pow2(1021), pow2(1074));
    lemma2_to64();
    lemma2_to64_rest();
    lemma_double_literal(half, 0x10_0000_0000_0000, 1021);
    lemma_pow2_pos(1021);
    lemma_pow2_adds(53, 1021);
    lemma_pow2_adds(52, 1021);
    lemma_pow2_strictly_increases(1500, 2000);
    lemma_pow2_strictly_increases(54, 1000);
    let p = pow2(1073);
    assert(u == 2 * p && half.units() == p && p > 0);
    assert(s * p >= 0 && s * p <= pow2(2000) * u) by (nonlinear_arith)
        requires
            0 <= s <= pow2(2000),
            u == 2 * p,
            p > 0,
    ;
    lemma_product_relative(a, half);
    let h = a.product(half).units();
    assert(size(2 * h - s) * pow2(53) <= s + 2 * pow2(53)) by (nonlinear_arith)
        requires
            size(h * u - s * p) * pow2(53) <= s * p + pow2(53) * u,
            u == 2 * p,
            p > 0,
    ;
}

/// The lower side of a cell.
pub proof fn lemma_side(params: GalaxyParams, depth: u8, i: u64)
    requires
        is_spacious(params),
        depth < 64,
        i < pow2(depth as nat),
    ensures
        ({
            let c = params.side(depth, i);
            let (s, z) = (params.universe_size_m.units(), params.node_size(depth).units());
            &&& c.finite()
            &&& size(2 * c.units() - (2 * (i * z) - s)) * pow2(49) <= s
            &&& size(c.units()) <= 2 * s
        }),
{
    let size_m = params.node_size(depth);
    let (s, z, u, n) = (
        params.universe_size_m.units(),
        size_m.units(),
        pow2(1074),
        pow2(depth as nat),
    );
    lemma_edge(params, depth);
    lemma2_to64();
    lemma2_to64_rest();
    lemma_pow2_pos(1074);
    if depth < 63 {
        lemma_pow2_strictly_increases(depth as nat, 63);
    }
    lemma_pow2_strictly_increases(63, 127);
    lemma_pow2_strictly_increases(1000, 1074);
    lemma_pow2_strictly_increases(1194, 1500);
    lemma_pow2_strictly_increases(53, 1074);
    let index = double_of_int(i as int);
    lemma_int_is_close(i as int);
    lemma_int_is_finite(i);
    let a = index.units();
    let iu = i * u;
    assert(a >= 0 && (a - iu) * pow2(53) <= iu && (iu - a) * pow2(53) <= iu);
    let iz = i * z;
    assert(0 <= iz <= s) by (nonlinear_arith)
        requires
            iz == i * z,
            i < n,
            z * n == s,
            z > 0,
    ;
    // The product.
    assert(iu * z == iz * u) by (nonlinear_arith)
        requires
            iu == i * u,
            iz == i * z,
    ;
    assert(a * z >= 0 && a * z <= 2 * (iz * u)) by (nonlinear_arith)
        requires
            0 <= a <= 2 * iu,
            iu * z == iz * u,
            z > 0,
    ;
    assert(iz * u <= s * u) by (nonlinear_arith)
        requires
            iz <= s,
    ;
    lemma_pow2_adds(1, 1194);
    lemma_pow2_strictly_increases(1195, 2000);
    assert(a * z <= pow2(2000) * u) by (nonlinear_arith)
        requires
            a * z <= 2 * (iz * u),
            iz * u <= s * u,
            2 * s <= pow2(2000),
    ;
    lemma_product_relative(index, size_m);
    let b = index.product(size_m).units();
    assert((a - iu) * z * pow2(53) <= iz * u && (iu - a) * z * pow2(53) <= iz * u)
        by (nonlinear_arith)
        requires
            (a - iu) * pow2(53) <= iu,
            (iu - a) * pow2(53) <= iu,
            iu * z == iz * u,
            z > 0,
    ;
    assert((a - iu) * z == a * z - iz * u && (iu - a) * z == iz * u - a * z) by (nonlinear_arith)
        requires
            iu * z == iz * u,
    ;
    assert((b - iz) * u == b * u - iz * u) by (nonlinear_arith);
    assert(size((b - iz) * u) * pow2(53) <= 3 * (s * u) + pow2(53) * u);
    assert(size(b - iz) * pow2(53) <= 3 * s + pow2(53)) by (nonlinear_arith)
        requires
            size((b - iz) * u) * pow2(53) <= 3 * (s * u) + pow2(53) * u,
            u > 0,
    ;
    assert(size(b - iz) * pow2(53) <= 4 * s);
    // The difference.
    lemma_half(params.universe_size_m);
    let half = params.universe_size_m.product(Double { bits: HALF });
    let h = half.units();
    assert(0 <= b <= 2 * s && 0 <= h <= s);
    lemma_difference_relative(index.product(size_m), half);
    let c = params.side(depth, i).units();
    assert(size(c - (b - h)) * pow2(53) <= 3 * s);
}

/// Indices are held as finite numbers.
proof fn lemma_int_is_finite(i: u64)
    ensures
        double_of_int(i as int).finite(),
{
    lemma2_to64();
    lemma_pow2_strictly_increases(64, 127);
    lemma_extent_of_int(i as int);
}

/// The place at the part `u` of the way through a cell.
proof fn lemma_place(params: GalaxyParams, depth: u8, i: u64, part: Double)
    requires
        is_spacious(params),
        depth < 64,
        i < pow2(depth as nat),
        in_unit(part),
    ensures
        ({
            let p = params.side(depth, i).sum(part.product(params.node_size(depth)));
            let (s, z) = (params.universe_size_m.units(), params.node_size(depth).units());
            let u = pow2(1074);
            &&& p.finite()
            &&& size(2 * (p.units() * u) - (2 * (i * z * u) + 2 * (part.units() * z) - s * u))
                * pow2(48) <= s * u
            &&& size(p.units()) <= 5 * s
        }),
{
    let size_m = params.node_size(depth);
    let (s, z, u, n) = (
        params.universe_size_m.units(),
        size_m.units(),
        pow2(1074) as int,
        pow2(depth as nat),
    );
    lemma_edge(params, depth);
    lemma_side(params, depth, i);
    lemma2_to64();
    lemma2_to64_rest();
    lemma_pow2_pos(1074);
    lemma_pow2_strictly_increases(53, 1074);
    lemma_pow2_adds(3, 1194);
    lemma_pow2_strictly_increases(1197, 2000);
    lemma_pow2_pos(depth as nat);
    let c = params.side(depth, i).units();
    let v = part.units();
    assert(z <= s) by (nonlinear_arith)
        requires
            z * n == s,
            n > 0,
            z > 0,
    ;
    assert(0 <= v * z <= z * u) by (nonlinear_arith)
        requires
            0 <= v <= u,
            z > 0,
    ;
    assert(z * u <= s * u && s * u <= pow2(2000) * u) by (nonlinear_arith)
        requires
            z <= s <= pow2(2000),
            u > 0,
    ;
    lemma_product_relative(part, size_m);
    let e = part.product(size_m).units();
    assert(size(e * u - v * z) * pow2(53) <= s * u + pow2(53) * u);
    assert(pow2(53) * u <= s * u) by (nonlinear_arith)
        requires
            pow2(53) <= s,
            u > 0,
    ;
    assert(0 <= e <= 2 * s) by {
        assert(e * u <= 2 * (s * u));
        assert(e <= 2 * s) by (nonlinear_arith)
            requires
                e * u <= 2 * (s * u),
                u > 0,
        ;
    }
    lemma_sum_relative(params.side(depth, i), part.product(size_m));
    let p = params.side(depth, i).sum(part.product(size_m)).units();
    let iz = i * z;
    let e1 = p - (c + e);
    let e2 = 2 * c - (2 * iz - s);
    let e3 = e * u - v * z;
    assert(size(e1) * pow2(53) <= 4 * s);
    let t = 2 * e1 + e2;
    assert(size(t) * pow2(53) <= 24 * s);
    assert(size(t * u) * pow2(53) <= 24 * (s * u)) by (nonlinear_arith)
        requires
            size(t) * pow2(53) <= 24 * s,
            u > 0,
    ;
    assert(i * z * u == iz * u) by (nonlinear_arith)
        requires
            iz == i * z,
    ;
    assert(2 * (p * u) - (2 * (iz * u) + 2 * (v * z) - s * u) == t * u + 2 * e3)
        by (nonlinear_arith)
        requires
            t == 2 * (p - (c + e)) + (2 * c - (2 * iz - s)),
            e3 == e * u - v * z,
    ;
}

/// A coordinate, in whole meters, is that of the place in the cell with index `i` at `depth` at
/// the part `v` over `2^53` of the way through it: the universe is centered on zero and every cell
/// has the edge of the universe over `2^depth`. It is off by at most a meter and one part in
/// `2^48` of the universe.
pub open spec fn is_placed(params: GalaxyParams, depth: u8, i: u64, v: nat, meters: int) -> bool {
    let (s, z, u) = (
        params.universe_size_m.units(),
        params.node_size(depth).units(),
        pow2(1074) as int,
    );
    &&& z * pow2(depth as nat) == s
    &&& size(
        2 * (meters * u * u) - (2 * (i * z * u) + 2 * (v * pow2(1021) * z) - s * u),
    ) * pow2(48) <= s * u + pow2(48) * (u * u)
}

/// One axis of the position of a star.
proof fn lemma_placed(params: GalaxyParams, depth: u8, i: u64, low: u32, high: u32)
    requires
        is_spacious(params),
        depth < 64,
        i < pow2(depth as nat),
    ensures
        ({
            let part = unit_double(low, high);
            let v = ((low + 0x1_0000_0000 * high) / 0x800) as nat;
            let p = params.side(depth, i).sum(part.product(params.node_size(depth)));
            is_placed(params, depth, i, v, whole_meters(p)) && fits(whole_meters(p))
        }),
{
    let part = unit_double(low, high);
    let v = ((low + 0x1_0000_0000 * high) / 0x800) as nat;
    let p = params.side(depth, i).sum(part.product(params.node_size(depth)));
    let (s, z, u) = (
        params.universe_size_m.units(),
        params.node_size(depth).units(),
        pow2(1074) as int,
    );
    lemma2_to64();
    lemma2_to64_rest();
    lemma_unit_double(low, high);
    lemma_pow2_adds(53, 1021);
    lemma_pow2_pos(1021);
    assert(v * pow2(1021) <= pow2(1074)) by (nonlinear_arith)
        requires
            v <= pow2(53),
            pow2(53) * pow2(1021) == pow2(1074),
    ;
    lemma_edge(params, depth);
    lemma_place(params, depth, i, part);
    lemma_pow2_adds(3, 1194);
    lemma_pow2_strictly_increases(123, 127);
    lemma_whole_within(p, 123);
    lemma_range();
    law_rounding_is_within_half_a_meter(p);
    let m = whole_meters(p);
    let mu = m * u;
    let e = 2 * mu - 2 * p.units();
    assert(size(e * u) <= u * u) by (nonlinear_arith)
        requires
            -u <= e <= u,
            u > 0,
    ;
    let q = p.units();
    assert(2 * (mu * u) == 2 * (q * u) + e * u) by (nonlinear_arith)
        requires
            e == 2 * mu - 2 * q,
    ;
}

/// Every star is placed by its draws: on each axis it is as far through the cell of its node as
/// the number made of the upper 53 bits of two words of its own says, where the first two are for
/// the first axis, the next two for the second and the next two for the third.
pub proof fn law_stars_are_placed_by_their_draws<M: Fn(Elementary, Double, Double) -> Double>(
    maths: M,
    params: GalaxyParams,
    key: NodeKey,
    words: Map<nat, u32>,
    at: nat,
)
    requires
        is_spacious(params),
        key.depth < 64,
        key.is_down_to(63),
    ensures
        ({
            let pos = star_at(maths, params, key, words, at).pos;
            let part = |k: nat| ((words[k] + 0x1_0000_0000 * words[k + 1]) / 0x800) as nat;
            &&& is_placed(params, key.depth, key.ix, part(at + 1), pos.x.value())
            &&& is_placed(params, key.depth, key.iy, part(at + 3), pos.y.value())
            &&& is_placed(params, key.depth, key.iz, part(at + 5), pos.z.value())
        }),
{
    lemma_placed(params, key.depth, key.ix, words[at + 1], words[at + 2]);
    lemma_placed(params, key.depth, key.iy, words[at + 3], words[at + 4]);
    lemma_placed(params, key.depth, key.iz, words[at + 5], words[at + 6]);
    let u = Vector {
        x: double_at(words, at + 1),
        y: double_at(words, at + 3),
        z: double_at(words, at + 5),
    };
    let place = place_of(params, key, u);
    Fixed::lemma_of(whole_meters(place.x));
    Fixed::lemma_of(whole_meters(place.y));
    Fixed::lemma_of(whole_meters(place.z));
    assert(star_at(maths, params, key, words, at).pos == GalacticCoord::nearest_to(place));
}

/// The min corner of a node is where its indices say: as many edges from the side of the universe,
/// which is centered on zero, as the index counts; up to one part in `2^49` of the universe.
pub proof fn law_corners_follow_the_indices(params: GalaxyParams, key: NodeKey)
    requires
        is_spacious(params),
        key.is_down_to(63),
    ensures
        ({
            let c = params.corner(key);
            let (s, z) = (params.universe_size_m.units(), params.node_size(key.depth).units());
            &&& z * pow2(key.depth as nat) == s
            &&& size(2 * c.x.units() - (2 * (key.ix * z) - s)) * pow2(49) <= s
            &&& size(2 * c.y.units() - (2 * (key.iy * z) - s)) * pow2(49) <= s
            &&& size(2 * c.z.units() - (2 * (key.iz * z) - s)) * pow2(49) <= s
        }),
{
    lemma_edge(params, key.depth);
    lemma_side(params, key.depth, key.ix);
    lemma_side(params, key.depth, key.iy);
    lemma_side(params, key.depth, key.iz);
}

/// How far a coordinate lies outside the range from zero to `top`.
pub open spec fn excess(x: int, top: int) -> int {
    if x < 0 {
        -x
    } else if x > top {
        x - top
    } else {
        0
    }
}

/// An excess that is nothing or at least two meters.
pub open spec fn is_plain(e: int) -> bool {
    e == 0 || e >= 2 * pow2(1074)
}

/// One axis of the way from the camera to a cube.
proof fn lemma_way(x: Double, top: Double)
    requires
        x.finite(),
        top.finite(),
        size(x.units()) <= pow2(1200),
        0 <= top.units() <= pow2(1200),
    ensures
        ({
            let d = x.difference(confined(x, Double { bits: ZERO }, top));
            let e = excess(x.units(), top.units());
            let a = code_units(d.code(), 52);
            &&& d.finite()
            &&& close(a as int, e, 53)
            &&& is_plain(e) ==> is_extent(a)
            &&& e > 0 && is_plain(e) ==> a > 0
        }),
{
    let zero = Double { bits: ZERO };
    let c = confined(x, zero, top);
    let d = x.difference(c);
    let e = excess(x.units(), top.units());
    lemma2_to64();
    lemma2_to64_rest();
    lemma_pow2_pos(1074);
    assert(zero.units() == 0);
    lemma_pow2_adds(1, 1200);
    lemma_pow2_strictly_increases(1201, 2000);
    lemma_pow2_strictly_increases(1074, 1200);
    assert(c.units() == if x.units() < 0 {
        0
    } else if x.units() > top.units() {
        top.units()
    } else {
        x.units()
    });
    assert(size(x.units() - c.units()) == e);
    lemma_difference_relative(x, c);
    let a = code_units(d.code(), 52) as int;
    assert(size(d.units()) == a);
    assert((a - e) * pow2(53) <= e && (e - a) * pow2(53) <= e);
}

/// The distance to a node is that to the nearest point of its cube: its square is the sum of the
/// squares of how far the camera, seen from the min corner, lies outside the edge on each axis.
/// The law returns the lengths of the edges that count, which are the edge of the node up to one
/// part in `2^48` of the universe.
pub proof fn law_near_distance_leads_to_the_cube(
    params: GalaxyParams,
    key: NodeKey,
    camera: GalacticCoord,
) -> (top: (int, int, int))
    requires
        is_spacious(params),
        key.is_down_to(63),
        is_central(camera),
    ensures
        ({
            let (s, z) = (params.universe_size_m.units(), params.node_size(key.depth).units());
            let cam = camera.relative(params.corner_position(key));
            let (a, b, c) = (
                excess(cam.x.units(), top.0),
                excess(cam.y.units(), top.1),
                excess(cam.z.units(), top.2),
            );
            let d = params.near_distance(key, camera);
            &&& z * pow2(key.depth as nat) == s
            &&& size(top.0 - z) * pow2(48) <= s
            &&& size(top.1 - z) * pow2(48) <= s
            &&& size(top.2 - z) * pow2(48) <= s
            &&& is_plain(a) && is_plain(b) && is_plain(c) && a + b + c > 0 ==> d.finite()
                && d.units() > 0 && close(d.units() * d.units(), a * a + b * b + c * c, 46)
        }),
{
    let (s, z) = (params.universe_size_m.units(), params.node_size(key.depth).units());
    let min = params.corner(key);
    let edge = params.node_size(key.depth);
    let ext = min.sum(Vector::even(edge)).difference(min);
    let cam = camera.relative(params.corner_position(key));
    lemma_edge(params, key.depth);
    lemma_top(params, key.depth, key.ix);
    lemma_top(params, key.depth, key.iy);
    lemma_top(params, key.depth, key.iz);
    lemma_side(params, key.depth, key.ix);
    lemma_side(params, key.depth, key.iy);
    lemma_side(params, key.depth, key.iz);
    lemma_seen(camera.x.value(), min.x, s);
    lemma_seen(camera.y.value(), min.y, s);
    lemma_seen(camera.z.value(), min.z, s);
    lemma_way(cam.x, ext.x);
    lemma_way(cam.y, ext.y);
    lemma_way(cam.z, ext.z);
    let way = cam.difference(cam.confined(Vector::even(Double { bits: ZERO }), ext));
    let (p, q, r) = (
        code_units(way.x.code(), 52) as int,
        code_units(way.y.code(), 52) as int,
        code_units(way.z.code(), 52) as int,
    );
    let (a, b, c) = (
        excess(cam.x.units(), ext.x.units()),
        excess(cam.y.units(), ext.y.units()),
        excess(cam.z.units(), ext.z.units()),
    );
    if is_plain(a) && is_plain(b) && is_plain(c) && a + b + c > 0 {
        lemma_norm(way);
        lemma_pow2_pos(1074);
        lemma_close_squares(p, a, 51);
        lemma_close_squares(q, b, 51);
        lemma_close_squares(r, c, 51);
        lemma_close_sum(p * p, a * a, q * q, b * b, 51);
        lemma_close_sum(p * p + q * q, a * a + b * b, r * r, c * c, 51);
        lemma_close_weakens(p * p + q * q + r * r, a * a + b * b + c * c, 51, 47);
        let n = way.norm().units();
        lemma_close_chain(n * n, p * p + q * q + r * r, a * a + b * b + c * c, 46);
    }
    (ext.x.units(), ext.y.units(), ext.z.units())
}

/// The edge of a cell, measured from its lower side to its upper one.
proof fn lemma_top(params: GalaxyParams, depth: u8, i: u64)
    requires
        is_spacious(params),
        depth < 64,
        i < pow2(depth as nat),
    ensures
        ({
            let (min, edge) = (params.side(depth, i), params.node_size(depth));
            let top = min.sum(edge).difference(min);
            &&& top.finite()
            &&& 0 <= top.units() <= pow2(1200)
            &&& size(top.units() - edge.units()) * pow2(48) <= params.universe_size_m.units()
        }),
{
    let (min, edge) = (params.side(depth, i), params.node_size(depth));
    let (s, z, n) = (params.universe_size_m.units(), edge.units(), pow2(depth as nat));
    lemma_edge(params, depth);
    lemma_side(params, depth, i);
    lemma2_to64();
    lemma2_to64_rest();
    lemma_pow2_pos(depth as nat);
    assert(z <= s) by (nonlinear_arith)
        requires
            z * n == s,
            n > 0,
            z > 0,
    ;
    lemma_pow2_adds(3, 1194);
    lemma_pow2_strictly_increases(1197, 1200);
    lemma_pow2_strictly_increases(1197, 2000);
    lemma_sum_relative(min, edge);
    let max = min.sum(edge);
    lemma_sum_is_no_less(min, edge);
    lemma_difference_relative(max, min);
}

/// A coordinate seen from the position of a corner.
proof fn lemma_seen(x: int, corner: Double, s: int)
    requires
        -(pow2(125) as int) <= x <= pow2(125),
        corner.finite(),
        size(corner.units()) <= 2 * s,
        s <= pow2(1194),
    ensures
        ({
            let rel = double_of_int(x - Fixed::of(whole_meters(corner)).value());
            rel.finite() && size(rel.units()) <= pow2(1200)
        }),
{
    lemma2_to64();
    lemma_pow2_adds(1, 1194);
    lemma_whole_within(corner, 121);
    lemma_pow2_strictly_increases(121, 125);
    lemma_pow2_adds(1, 125);
    lemma_range();
    Fixed::lemma_of(whole_meters(corner));
    lemma_int_within(x - whole_meters(corner), 126);
}

/// The angular size of a node is its edge over its distance, which counts as at least one meter:
/// their product is the edge, up to rounding.
pub proof fn law_angular_size_is_the_edge_over_the_distance(
    params: GalaxyParams,
    key: NodeKey,
    camera: GalacticCoord,
)
    requires
        is_spacious(params),
        key.is_down_to(63),
        params.near_distance(key, camera).finite(),
        params.near_distance(key, camera).units() <= pow2(1500),
    ensures
        ({
            let (z, d, u) = (
                params.node_size(key.depth).units(),
                params.near_distance(key, camera).units(),
                pow2(1074) as int,
            );
            let m = if d < u {
                u
            } else {
                d
            };
            let r = params.angular_size(key, camera);
            &&& r.finite()
            &&& size(r.units() * m - z * u) * pow2(53) <= z * u + pow2(53) * m
        }),
{
    reveal(GalaxyParams::angular_size);
    let (edge, near) = (params.node_size(key.depth), params.near_distance(key, camera));
    let one = Double { bits: ONE };
    let u = pow2(1074) as int;
    lemma_edge(params, key.depth);
    lemma2_to64();
    lemma2_to64_rest();
    lemma_double_literal(one, 0x10_0000_0000_0000, 1022);
    lemma_pow2_adds(52, 1022);
    lemma_pow2_pos(1074);
    lemma_pow2_pos(key.depth as nat);
    let m = near.larger(one);
    let (z, s, n) = (edge.units(), params.universe_size_m.units(), pow2(key.depth as nat));
    assert(z <= s) by (nonlinear_arith)
        requires
            z * n == s,
            n > 0,
            z > 0,
    ;
    lemma_pow2_strictly_increases(1194, 2000);
    assert(z * pow2(1074) <= pow2(2000) * m.units()) by (nonlinear_arith)
        requires
            0 < z <= pow2(2000),
            0 < pow2(1074) <= m.units(),
    ;
    lemma_quotient_relative(edge, m);
}

/// One axis of the center of a node.
proof fn lemma_middle(params: GalaxyParams, depth: u8, i: u64)
    requires
        is_spacious(params),
        depth < 64,
        i < pow2(depth as nat),
    ensures
        ({
            let half = params.node_size(depth).product(Double { bits: HALF });
            let m = whole_meters(params.side(depth, i).sum(half));
            let (s, z, u) = (
                params.universe_size_m.units(),
                params.node_size(depth).units(),
                pow2(1074) as int,
            );
            &&& fits(m)
            &&& size(2 * (m * u) - (2 * (i * z) + z - s)) * pow2(47) <= s + pow2(48) * u
        }),
{
    let edge = params.node_size(depth);
    let (s, z, u, n) = (
        params.universe_size_m.units(),
        edge.units(),
        pow2(1074) as int,
        pow2(depth as nat),
    );
    lemma_edge(params, depth);
    lemma_side(params, depth, i);
    lemma2_to64();
    lemma2_to64_rest();
    lemma_pow2_pos(1074);
    lemma_pow2_pos(depth as nat);
    assert(z <= s) by (nonlinear_arith)
        requires
            z * n == s,
            n > 0,
            z > 0,
    ;
    if depth < 63 {
        lemma_pow2_strictly_increases(depth as nat, 63);
    }
    lemma_pow2_adds(63, 1011);
    lemma_pow2_strictly_increases(1000, 1011);
    lemma_pow2_strictly_increases(1194, 1500);
    assert(z >= pow2(1011)) by (nonlinear_arith)
        requires
            z * n == s,
            s >= pow2(1074),
            pow2(63) * pow2(1011) == pow2(1074),
            0 < n <= pow2(63),
            z > 0,
    ;
    lemma_half(edge);
    let half = edge.product(Double { bits: HALF });
    let side = params.side(depth, i);
    lemma_pow2_adds(3, 1194);
    lemma_pow2_strictly_increases(1197, 2000);
    lemma_sum_relative(side, half);
    let p = side.sum(half);
    let (c, h, q) = (side.units(), half.units(), p.units());
    assert(size(q - (c + h)) * pow2(53) <= 4 * s);
    assert(size(q) <= 8 * s);
    lemma_whole_within(p, 123);
    lemma_range();
    lemma_pow2_strictly_increases(123, 127);
    law_rounding_is_within_half_a_meter(p);
    let iz = i * z;
    let mu = whole_meters(p) * u;
    assert(size(2 * q - (2 * iz + z - s)) * 0x8000_0000_0000 <= s);
    assert(size(2 * mu - 2 * q) <= u);
}

/// The center of a node lies half an edge from its min corner, to the nearest meter and up to one
/// part in `2^47` of the universe.
pub proof fn law_node_centers_lie_halfway(params: GalaxyParams, key: NodeKey)
    requires
        is_spacious(params),
        key.is_down_to(63),
    ensures
        ({
            let c = params.center(key);
            let (s, z, u) = (
                params.universe_size_m.units(),
                params.node_size(key.depth).units(),
                pow2(1074) as int,
            );
            &&& z * pow2(key.depth as nat) == s
            &&& size(2 * (c.x.value() * u) - (2 * (key.ix * z) + z - s)) * pow2(47) <= s + pow2(48) * u
            &&& size(2 * (c.y.value() * u) - (2 * (key.iy * z) + z - s)) * pow2(47) <= s + pow2(48) * u
            &&& size(2 * (c.z.value() * u) - (2 * (key.iz * z) + z - s)) * pow2(47) <= s + pow2(48) * u
        }),
{
    lemma_edge(params, key.depth);
    lemma_middle(params, key.depth, key.ix);
    lemma_middle(params, key.depth, key.iy);
    lemma_middle(params, key.depth, key.iz);
    let half = params.node_size(key.depth).product(Double { bits: HALF });
    let v = params.corner(key).sum(Vector::even(half));
    Fixed::lemma_of(whole_meters(v.x));
    Fixed::lemma_of(whole_meters(v.y));
    Fixed::lemma_of(whole_meters(v.z));
}

} // verus!
