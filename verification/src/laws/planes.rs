//! Laws of the near and far planes: they bracket what is drawn.
use vstd::arithmetic::power2::*;
use vstd::prelude::*;

use crate::coord::{GalacticCoord, METERS_PER_LIGHT_YEAR};
use crate::ieee::bounds::{lemma_power_code, lemma_sum_is_no_less, power_code};
use crate::ieee::convert::double_of_int;
use crate::ieee::double::DOUBLE_INF;
use crate::ieee::encoding::{code_units, Double};
use crate::ieee::exact::{
    lemma_nearest_at_least, lemma_nearest_at_most, lemma_nearest_exists,
    lemma_nearest_root_at_least,
};
use crate::ieee::rounding::{lemma_code_units_ordered, nearest_code};
use crate::node::NodeKey;
use crate::params::{GalaxyParams, ONE};
use crate::render::frustum::planes_at;
use crate::render::wire::{
    bracket, far_distance, farther, farthest_node, nearest_node, seen_from_corner,
};
use crate::vector::Vector;

verus! {

/// A number that is not below zero, maybe infinite.
pub open spec fn is_distance(x: Double) -> bool {
    !x.nan() && !x.negative()
}

proof fn lemma_against_one(f: Double)
    requires
        f.finite(),
        !f.negative(),
    ensures
        f.bits <= ONE ==> code_units(f.code(), 52) <= pow2(1074),
        f.bits >= ONE ==> code_units(f.code(), 52) >= pow2(1074),
{
    lemma_power_code(0);
    if f.bits <= ONE {
        lemma_code_units_ordered(f.code(), power_code(0), 52);
    }
    if f.bits >= ONE {
        lemma_code_units_ordered(power_code(0), f.code(), 52);
    }
}

/// A distance does not grow by a factor of at most one.
proof fn lemma_shrinks(x: Double, f: Double)
    requires
        is_distance(x),
        0 < f.bits <= ONE,
    ensures
        is_distance(x.product(f)),
        x.product(f).at_most(x),
{
    lemma_against_one(f);
    let (n, m, d) = (code_units(x.code(), 52), code_units(f.code(), 52), pow2(1074));
    lemma_pow2_pos(1074);
    if x.finite() {
        assert(n * m <= n * d) by (nonlinear_arith)
            requires
                0 <= m <= d,
                n >= 0,
        ;
        lemma_nearest_at_most(n * m, d, 52, DOUBLE_INF as nat, x.code());
        lemma_code_units_ordered(nearest_code(n * m, d, 52, DOUBLE_INF as nat), x.code(), 52);
    }
}

/// A distance does not shrink by a factor of at least one.
proof fn lemma_grows(x: Double, f: Double)
    requires
        is_distance(x),
        ONE <= f.bits < DOUBLE_INF,
    ensures
        is_distance(x.product(f)),
        x.at_most(x.product(f)),
{
    lemma_against_one(f);
    let (n, m, d) = (code_units(x.code(), 52), code_units(f.code(), 52), pow2(1074));
    lemma_pow2_pos(1074);
    if x.finite() {
        assert(n * m >= n * d) by (nonlinear_arith)
            requires
                m >= d,
                n >= 0,
        ;
        lemma_nearest_exists(n * m, d, 52, DOUBLE_INF as nat);
        lemma_nearest_at_least(n * m, d, 52, DOUBLE_INF as nat, x.code());
        lemma_code_units_ordered(x.code(), nearest_code(n * m, d, 52, DOUBLE_INF as nat), 52);
    }
}

/// A distance does not shrink by adding another.
proof fn lemma_adds(x: Double, a: Double)
    requires
        is_distance(x),
        is_distance(a),
    ensures
        is_distance(x.sum(a)),
        x.at_most(x.sum(a)),
{
    lemma_pow2_pos(52);
    if x.finite() && a.finite() {
        lemma_sum_is_no_less(x, a);
        lemma_nearest_exists((x.units() + a.units()) as nat, 1, 52, DOUBLE_INF as nat);
    } else if x.finite() {
        lemma_code_units_ordered(x.code(), a.code(), 52);
    }
}

proof fn lemma_orders(a: Double, b: Double)
    requires
        is_distance(a),
        is_distance(b),
    ensures
        is_distance(a.larger(b)),
        a.at_most(a.larger(b)),
        b.at_most(a.larger(b)),
{
}

proof fn lemma_nearest_bound(params: GalaxyParams, nodes: Seq<NodeKey>, camera: GalacticCoord, i: int)
    ensures
        is_distance(nearest_node(params, nodes, camera)),
        (Double { bits: ONE }).at_most(nearest_node(params, nodes, camera)),
        0 <= i < nodes.len() ==> nearest_node(params, nodes, camera).at_most(
            params.near_distance(nodes[i], camera).larger(Double { bits: ONE }),
        ),
    decreases nodes.len(),
{
    let one = Double { bits: ONE };
    if nodes.len() == 0 {
        lemma_code_units_ordered(one.code(), DOUBLE_INF as nat, 52);
    } else {
        lemma_nearest_bound(params, nodes.drop_last(), camera, i);
        let d = params.near_distance(nodes.last(), camera);
        assert(one.units() > 0) by {
            lemma_power_code(0);
            lemma_pow2_pos(1074);
        }
        assert(is_distance(d.larger(one)));
        if 0 <= i < nodes.len() - 1 {
            assert(nodes.drop_last()[i] == nodes[i]);
        }
    }
}

proof fn lemma_farthest_bound(params: GalaxyParams, nodes: Seq<NodeKey>, camera: GalacticCoord, i: int)
    ensures
        is_distance(farthest_node(params, nodes, camera)),
        0 <= i < nodes.len() ==> far_distance(params, nodes[i], camera).at_most(
            farthest_node(params, nodes, camera),
        ),
    decreases nodes.len(),
{
    if nodes.len() > 0 {
        lemma_farthest_bound(params, nodes.drop_last(), camera, i);
        lemma_far_is_distance(params, nodes.last(), camera);
        if 0 <= i < nodes.len() - 1 {
            assert(nodes.drop_last()[i] == nodes[i]);
        }
    }
}

proof fn lemma_far_is_distance(params: GalaxyParams, key: NodeKey, camera: GalacticCoord)
    ensures
        is_distance(far_distance(params, key, camera)),
{
    let rel = seen_from_corner(params, key, camera);
    let size = params.node_size(key.depth);
    lemma_seen_is_number(params, key, camera);
    lemma_norm_is_distance(
        Vector { x: farther(rel.x, size), y: farther(rel.y, size), z: farther(rel.z, size) },
    );
}

proof fn lemma_seen_is_number(params: GalaxyParams, key: NodeKey, camera: GalacticCoord)
    ensures
        ({
            let rel = seen_from_corner(params, key, camera);
            let size = params.node_size(key.depth);
            &&& is_distance(farther(rel.x, size))
            &&& is_distance(farther(rel.y, size))
            &&& is_distance(farther(rel.z, size))
        }),
{
    let corner = params.corner_position(key);
    lemma_int_is_number(camera.x.value() - corner.x.value());
    lemma_int_is_number(camera.y.value() - corner.y.value());
    lemma_int_is_number(camera.z.value() - corner.z.value());
}

proof fn lemma_int_is_number(x: int)
    ensures
        !double_of_int(x).nan(),
{
    let m = if x < 0 {
        (-x) as nat
    } else {
        x as nat
    };
    lemma_nearest_exists(m * pow2(1074), 1, 52, DOUBLE_INF as nat);
}

proof fn lemma_norm_is_distance(v: Vector)
    requires
        is_distance(v.x),
        is_distance(v.y),
        is_distance(v.z),
    ensures
        is_distance(v.norm()),
{
    lemma_square_is_distance(v.x);
    lemma_square_is_distance(v.y);
    lemma_square_is_distance(v.z);
    let (x, y, z) = (v.x.product(v.x), v.y.product(v.y), v.z.product(v.z));
    lemma_adds(x, y);
    lemma_adds(x.sum(y), z);
    let sq = x.sum(y).sum(z);
    let s = code_units(sq.code(), 52) * pow2(1074);
    lemma_pow2_pos(52);
    assert(code_units(0, 52) * code_units(0, 52) == 0) by (nonlinear_arith)
        requires
            code_units(0, 52) == 0,
    ;
    lemma_nearest_root_at_least(s, 52, DOUBLE_INF as nat, 0);
}

proof fn lemma_square_is_distance(x: Double)
    requires
        is_distance(x),
    ensures
        is_distance(x.product(x)),
{
    let n = code_units(x.code(), 52);
    lemma_nearest_exists(n * n, pow2(1074), 52, DOUBLE_INF as nat);
}

/// The near plane is no farther than any node, the far plane no nearer than any node's farthest
/// corner, and the near plane is not behind the far one.
pub proof fn law_planes_bracket_the_nodes(params: GalaxyParams, nodes: Seq<NodeKey>, camera: GalacticCoord, i: int)
    requires
        0 <= i < nodes.len(),
    ensures
        ({
            let (near, far) = bracket(
                nearest_node(params, nodes, camera),
                farthest_node(params, nodes, camera),
            );
            &&& near.at_most(params.near_distance(nodes[i], camera).larger(Double { bits: ONE }))
            &&& far_distance(params, nodes[i], camera).at_most(far)
            &&& near.at_most(far)
        }),
{
    let one = Double { bits: ONE };
    let (n, f) = (nearest_node(params, nodes, camera), farthest_node(params, nodes, camera));
    lemma_nearest_bound(params, nodes, camera, i);
    lemma_farthest_bound(params, nodes, camera, i);
    let (near, far) = bracket(n, f);
    let part = Double { bits: 0x3f84_7ae1_47ae_147b /* 0.01 */ };
    lemma_shrinks(n, part);
    lemma_orders(n.product(part), one);
    let (more, pad) = (Double { bits: 0x3ff0_cccc_cccc_cccd /* 1.05 */ }, Double { bits: 0x4024_0000_0000_0000 /* 10.0 */ });
    lemma_grows(f, more);
    lemma_adds(f.product(more), pad);
    let ratio = Double { bits: 0x408f_4000_0000_0000 /* 1000.0 */ };
    lemma_grows(near, ratio);
    lemma_orders(f.product(more).sum(pad), near.product(ratio));
}

proof fn lemma_light_years()
    ensures
        ({
            let ly = Double { bits: METERS_PER_LIGHT_YEAR };
            let (a, b) = ((Double { bits: 0x3fc9_9999_9999_999a /* 0.2 */ }).product(ly), (Double { bits: 0x40d3_8800_0000_0000 /* 20000.0 */ }).product(ly));
            &&& is_distance(a)
            &&& is_distance(b)
            &&& a.at_most(b)
            &&& (Double { bits: ONE }).at_most(a)
        }),
{
    let ly = Double { bits: METERS_PER_LIGHT_YEAR };
    let (s, t) = (Double { bits: 0x3fc9_9999_9999_999a /* 0.2 */ }, Double { bits: 0x40d3_8800_0000_0000 /* 20000.0 */ });
    let inf = DOUBLE_INF as nat;
    let (n, x, y, d) = (
        code_units(ly.code(), 52),
        code_units(s.code(), 52),
        code_units(t.code(), 52),
        pow2(1074),
    );
    lemma_pow2_pos(1074);
    lemma_against_one(t);
    lemma_against_one(s);
    // A light-year is more than 2^52 meters, a fifth is more than 1/8.
    lemma_power_code(52);
    lemma_power_code(-3);
    lemma_power_code(0);
    lemma_code_units_ordered(power_code(52), ly.code(), 52);
    lemma_code_units_ordered(power_code(-3), s.code(), 52);
    lemma_pow2_adds(52, 1074);
    lemma_pow2_adds(3, 1071);
    lemma2_to64();
    lemma2_to64_rest();
    assert(x * n >= d * d) by (nonlinear_arith)
        requires
            n >= pow2(1126),
            x >= pow2(1071),
            pow2(1126) == 0x10_0000_0000_0000 * d,
            d == 8 * pow2(1071),
            d > 0,
    ;
    assert(x * n <= n * d && n * d <= y * n) by (nonlinear_arith)
        requires
            0 <= x <= d,
            y >= d,
            n >= 0,
    ;
    lemma_nearest_at_least(x * n, d, 52, inf, power_code(0));
    lemma_nearest_at_most(x * n, d, 52, inf, ly.code());
    lemma_nearest_at_least(y * n, d, 52, inf, ly.code());
    lemma_nearest_exists(x * n, d, 52, inf);
    lemma_nearest_exists(y * n, d, 52, inf);
    let (a, b) = (nearest_code(x * n, d, 52, inf), nearest_code(y * n, d, 52, inf));
    lemma_code_units_ordered(power_code(0), a, 52);
    lemma_code_units_ordered(a, b, 52);
}

/// The planes of the drawn frustum lie between those of the projection that draws it, for every
/// separation.
pub proof fn law_projection_holds_the_frustum(sep: Double)
    requires
        is_distance(sep),
    ensures
        ({
            let p = planes_at(sep);
            &&& p.proj_near.at_most(p.near)
            &&& p.near.at_most(p.far)
            &&& p.far.at_most(p.proj_far)
        }),
{
    let ly = Double { bits: METERS_PER_LIGHT_YEAR };
    let one = Double { bits: ONE };
    lemma_light_years();
    let p = planes_at(sep);
    let (floor, span) = ((Double { bits: 0x3fc9_9999_9999_999a /* 0.2 */ }).product(ly), (Double { bits: 0x40d3_8800_0000_0000 /* 20000.0 */ }).product(ly));
    let two = Double { bits: 0x4000_0000_0000_0000 /* 2.0 */ };
    lemma_grows(sep, two);
    lemma_orders(sep.product(two), span);
    let part = Double { bits: 0x3f84_7ae1_47ae_147b /* 0.01 */ };
    lemma_shrinks(p.far, part);
    lemma_orders(p.far.product(part), floor);
    let quarter = Double { bits: 0x3fd0_0000_0000_0000 /* 0.25 */ };
    lemma_shrinks(p.near, quarter);
    lemma_orders(p.near.product(quarter), one);
    let five = Double { bits: 0x4014_0000_0000_0000 /* 5.0 */ };
    lemma_grows(p.far, five);
    lemma_adds(p.far.product(five), sep);
    let ratio = Double { bits: 0x408f_4000_0000_0000 /* 1000.0 */ };
    lemma_grows(p.proj_near, ratio);
    lemma_orders(p.far.product(five).sum(sep), p.proj_near.product(ratio));
}

} // verus!
