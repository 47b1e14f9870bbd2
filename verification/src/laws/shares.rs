//! Laws of how the stars are shared out: the shares of the bands add up to one, and the stars
//! expected in all nodes to those of the galaxy.
use vstd::arithmetic::power2::*;
use vstd::prelude::*;

use crate::ieee::bounds::{
    lemma_power_code, lemma_quotient_by_power, lemma_rounding_keeps_order, lemma_rounds_to_itself,
    lemma_sum_units, power_code, rounded_units,
};
use crate::ieee::double::DOUBLE_INF;
use crate::ieee::encoding::{code_units, lemma_code_units_increases, Double};
use crate::ieee::error::lemma_relative_error;
use crate::ieee::exact::{lemma_nearest_at_least, lemma_nearest_at_most};
use crate::ieee::rounding::{lemma_code_units_ordered, nearest_code};
use crate::maths::Elementary;
use crate::params::{weight_at, GalaxyParams};
use crate::laws::lengths::{
    close, lemma_close_cancels, lemma_close_chain, lemma_close_scales, lemma_close_turns,
    lemma_close_weakens,
};

verus! {

/// The weight of the band of `depth`.
pub open spec fn band_weight<M: Fn(Elementary, Double, Double) -> Double>(maths: M, depth: u8) -> Double {
    weight_at(maths, GalaxyParams::magnitude_mid(depth))
}

/// Positive weights, neither so small nor so large that numbers run out: from `2^-100` to
/// `2^100`.
pub open spec fn are_ordinary_weights<M: Fn(Elementary, Double, Double) -> Double>(
    maths: M,
    max_depth: u8,
) -> bool {
    forall|d: u8|
        d <= max_depth ==> {
            &&& (#[trigger] band_weight(maths, d)).finite()
            &&& pow2(974) <= band_weight(maths, d).units() <= pow2(1174)
        }
}

/// The exact sum of the weights of the first `n` bands, in units.
spec fn exact_total<M: Fn(Elementary, Double, Double) -> Double>(maths: M, n: nat) -> int
    decreases n,
{
    if n == 0 {
        0
    } else {
        exact_total(maths, (n - 1) as nat) + band_weight(maths, (n - 1) as u8).units()
    }
}

/// The exact sum of the shares of the first `n` bands, in units.
pub open spec fn sum_of_shares<M: Fn(Elementary, Double, Double) -> Double>(
    params: GalaxyParams,
    maths: M,
    n: nat,
) -> int
    decreases n,
{
    if n == 0 {
        0
    } else {
        sum_of_shares(params, maths, (n - 1) as nat) + params.band_share(
            maths,
            (n - 1) as u8,
        ).units()
    }
}

/// The exact number of stars expected in all nodes of the first `n` levels, in units: a level has
/// eight times as many nodes as the one above.
pub open spec fn sum_of_stars<M: Fn(Elementary, Double, Double) -> Double>(
    params: GalaxyParams,
    maths: M,
    n: nat,
) -> int
    decreases n,
{
    if n == 0 {
        0
    } else {
        sum_of_stars(params, maths, (n - 1) as nat) + params.expected(maths, (n - 1) as u8).units()
            * pow2((3 * (n - 1)) as nat)
    }
}

/// The rounded total differs from the exact one by at most `n` parts in `2^52`.
proof fn lemma_total<M: Fn(Elementary, Double, Double) -> Double>(maths: M, max_depth: u8, n: nat)
    requires
        are_ordinary_weights(maths, max_depth),
        n <= max_depth + 1,
    ensures
        ({
            let t = GalaxyParams::total_weight(maths, n);
            let s = exact_total(maths, n);
            &&& t.finite()
            &&& 0 <= s <= n * pow2(1174)
            &&& n > 0 ==> s >= pow2(974)
            &&& t.units() >= 0
            &&& (t.units() - s) * pow2(52) <= n * s
            &&& (s - t.units()) * pow2(52) <= n * s
            &&& t.units() <= 2 * s
            &&& s <= 2 * t.units()
            &&& forall|d: u8| d < n ==> (#[trigger] band_weight(maths, d)).units() <= t.units()
        }),
    decreases n,
{
    lemma2_to64_rest();
    if n == 0 {
        assert(code_units(0, 52) == 0) by {
            lemma_pow2_pos(52);
        }
    } else {
        let k = (n - 1) as nat;
        lemma_total(maths, max_depth, k);
        let w = band_weight(maths, k as u8);
        let t0 = GalaxyParams::total_weight(maths, k);
        let s0 = exact_total(maths, k);
        let t = GalaxyParams::total_weight(maths, n);
        let s = exact_total(maths, n);
        let x = (t0.units() + w.units()) as nat;
        lemma_pow2_pos(974);
        lemma_pow2_adds(12, 1174);
        lemma_pow2_strictly_increases(1186, 2000);
        lemma_pow2_strictly_increases(52, 974);
        lemma2_to64();
        assert(k * pow2(1174) <= 256 * pow2(1174)) by (nonlinear_arith)
            requires
                k <= 256,
        ;
        assert(n * pow2(1174) == k * pow2(1174) + pow2(1174)) by (nonlinear_arith)
            requires
                n == k + 1,
        ;
        assert(pow2(52) * 1 <= x && x <= pow2(2000) * 1);
        lemma_relative_error(x, 1);
        lemma_sum_units(t0, w);
        assert(t.units() == rounded_units(x as int));
        let r = code_units(nearest_code(x, 1, 52, DOUBLE_INF as nat), 52);
        assert(t.units() == r);
        if !t.finite() {
            lemma_code_units_increases(
                nearest_code(x, 1, 52, DOUBLE_INF as nat),
                t.code(),
                52,
            );
        }
        let (h, q) = (pow2(52) as int, pow2(53) as int);
        let (a, b) = (t0.units(), t.units());
        assert(r * 1 == r);
        assert(s == s0 + w.units());
        let u = w.units();
        assert((b - x) * q == 2 * ((b - x) * h) && (x - b) * q == 2 * ((x - b) * h))
            by (nonlinear_arith)
            requires
                q == 2 * h,
        ;
        assert((b - x) * h <= s && (x - b) * h <= s);
        assert(k * s0 <= k * s) by (nonlinear_arith)
            requires
                s0 <= s,
                k >= 0,
        ;
        assert((b - s) * h == (b - x) * h + (a - s0) * h && (s - b) * h == (x - b) * h + (s0 - a)
            * h && n * s == s + k * s) by (nonlinear_arith)
            requires
                x == a + u,
                s == s0 + u,
                n == k + 1,
        ;
        assert(b <= 2 * s && s <= 2 * b) by (nonlinear_arith)
            requires
                (b - s) * h <= n * s,
                (s - b) * h <= n * s,
                h == 0x10_0000_0000_0000,
                0 <= n <= 256,
                s >= 0,
        ;
        lemma_rounds_to_itself(t0);
        lemma_rounds_to_itself(w);
        lemma_rounding_keeps_order(t0.units(), x as int);
        lemma_rounding_keeps_order(w.units(), x as int);
        assert forall|d: u8| d < n implies (#[trigger] band_weight(maths, d)).units() <= t.units() by {
            if d == k {
                assert(d == k as u8);
            }
        }
    }
}

/// A share is from `2^-209` to one, and differs from the exact one by at most one part in
/// `2^53`.
proof fn lemma_share<M: Fn(Elementary, Double, Double) -> Double>(
    params: GalaxyParams,
    maths: M,
    depth: u8,
)
    requires
        are_ordinary_weights(maths, params.max_depth),
        depth <= params.max_depth,
    ensures
        ({
            let r = params.band_share(maths, depth);
            let t = GalaxyParams::total_weight(maths, (params.max_depth + 1) as nat).units();
            let w = band_weight(maths, depth).units() * pow2(1074);
            &&& r.finite()
            &&& !r.negative()
            &&& pow2(865) <= r.units() <= pow2(1074)
            &&& (r.units() * t - w) * pow2(53) <= w
            &&& (w - r.units() * t) * pow2(53) <= w
        }),
{
    let n = (params.max_depth + 1) as nat;
    let inf = DOUBLE_INF as nat;
    lemma_total(maths, params.max_depth, n);
    let weight = band_weight(maths, depth);
    let total = GalaxyParams::total_weight(maths, n);
    let (w, t, u) = (weight.units() as nat, total.units() as nat, pow2(1074));
    lemma_pow2_pos(52);
    lemma_pow2_pos(974);
    lemma_pow2_pos(1074);
    assert(code_units(0, 52) == 0);
    assert(t > 0);
    assert(!weight.negative() && !total.negative());
    assert(weight.code() > 0 && total.code() > 0);
    let r = params.band_share(maths, depth);
    let c = nearest_code(w * u, t, 52, inf);
    // Not more than one.
    lemma_power_code(0);
    assert(w * u <= u * t) by (nonlinear_arith)
        requires
            w <= t,
    ;
    lemma_nearest_at_most(w * u, t, 52, inf, power_code(0));
    lemma_code_units_ordered(c, power_code(0), 52);
    // Not less than 2^-209.
    lemma2_to64();
    lemma_pow2_adds(9, 1174);
    lemma_pow2_adds(974, 1074);
    lemma_pow2_adds(865, 1183);
    lemma_power_code(-209);
    lemma_pow2_pos(865);
    assert(t <= pow2(1183)) by (nonlinear_arith)
        requires
            t <= 2 * exact_total(maths, n),
            exact_total(maths, n) <= n * pow2(1174),
            n <= 256,
            pow2(1183) == 512 * pow2(1174),
    ;
    assert(w * u >= pow2(865) * t) by (nonlinear_arith)
        requires
            w >= pow2(974),
            u == pow2(1074),
            pow2(974) * pow2(1074) == pow2(865) * pow2(1183),
            t <= pow2(1183),
            pow2(865) > 0,
    ;
    lemma_nearest_at_least(w * u, t, 52, inf, power_code(-209));
    lemma_code_units_ordered(power_code(-209), c, 52);
    assert(r.code() == c && !r.negative());
    lemma_pow2_strictly_increases(52, 865);
    lemma_pow2_strictly_increases(1074, 2000);
    assert(pow2(52) * t <= w * u <= pow2(2000) * t) by (nonlinear_arith)
        requires
            pow2(865) * t <= w * u <= u * t,
            pow2(52) <= pow2(865),
            u <= pow2(2000),
    ;
    lemma_relative_error(w * u, t);
}

/// The shares, times the rounded total, differ from the exact total by at most one part in
/// `2^53`.
proof fn lemma_sum_of_shares<M: Fn(Elementary, Double, Double) -> Double>(
    params: GalaxyParams,
    maths: M,
    n: nat,
)
    requires
        are_ordinary_weights(maths, params.max_depth),
        n <= params.max_depth + 1,
    ensures
        ({
            let t = GalaxyParams::total_weight(maths, (params.max_depth + 1) as nat).units();
            let s = exact_total(maths, n) * pow2(1074);
            let r = sum_of_shares(params, maths, n);
            &&& r >= 0
            &&& (r * t - s) * pow2(53) <= s
            &&& (s - r * t) * pow2(53) <= s
        }),
    decreases n,
{
    let t = GalaxyParams::total_weight(maths, (params.max_depth + 1) as nat).units();
    let u = pow2(1074) as int;
    let q = pow2(53) as int;
    if n == 0 {
        assert(0 * u == 0 && 0 * t == 0 && 0 * q == 0) by (nonlinear_arith);
    } else {
        let k = (n - 1) as nat;
        lemma_sum_of_shares(params, maths, k);
        lemma_share(params, maths, k as u8);
        let r0 = sum_of_shares(params, maths, k);
        let x = params.band_share(maths, k as u8).units();
        let s0 = exact_total(maths, k);
        let w = band_weight(maths, k as u8).units();
        assert(((r0 + x) * t - (s0 + w) * u) * q == (r0 * t - s0 * u) * q + (x * t - w * u) * q && ((
        s0 + w) * u - (r0 + x) * t) * q == (s0 * u - r0 * t) * q + (w * u - x * t) * q && (s0 + w)
            * u == s0 * u + w * u) by (nonlinear_arith);
        lemma_pow2_pos(865);
    }
}

/// Every share is positive and at most one, and the shares of all bands add up to one, up to one
/// part in `2^42`.
pub proof fn law_shares_add_up_to_one<M: Fn(Elementary, Double, Double) -> Double>(
    params: GalaxyParams,
    maths: M,
)
    requires
        are_ordinary_weights(maths, params.max_depth),
    ensures
        forall|d: u8|
            d <= params.max_depth ==> (#[trigger] params.band_share(maths, d)).finite() && 0
                < params.band_share(maths, d).units() <= pow2(1074),
        ({
            let sum = sum_of_shares(params, maths, (params.max_depth + 1) as nat);
            let one = pow2(1074);
            (sum - one) * pow2(42) <= one && (one - sum) * pow2(42) <= one
        }),
{
    let n = (params.max_depth + 1) as nat;
    assert forall|d: u8| d <= params.max_depth implies (#[trigger] params.band_share(
        maths,
        d,
    )).finite() && 0 < params.band_share(maths, d).units() <= pow2(1074) by {
        lemma_share(params, maths, d);
        lemma_pow2_pos(865);
    }
    lemma_total(maths, params.max_depth, n);
    lemma_sum_of_shares(params, maths, n);
    let t = GalaxyParams::total_weight(maths, n).units();
    let s = exact_total(maths, n);
    let r = sum_of_shares(params, maths, n);
    let u = pow2(1074) as int;
    lemma2_to64_rest();
    lemma_pow2_pos(974);
    lemma_pow2_pos(1074);
    // Both differences, in parts of the rounded total.
    let (a, b) = (r * t - s * u, (s - t) * u);
    assert((r - u) * t == a + b) by (nonlinear_arith)
        requires
            a == r * t - s * u,
            b == (s - t) * u,
    ;
    let (m, v) = (s * u, t * u);
    assert(m <= 2 * v) by (nonlinear_arith)
        requires
            m == s * u,
            v == t * u,
            s <= 2 * t,
            u > 0,
    ;
    assert(-(m as int) <= a * 0x20_0000_0000_0000 <= m) by (nonlinear_arith)
        requires
            a == r * t - m,
            (r * t - m) * pow2(53) <= m,
            (m - r * t) * pow2(53) <= m,
            pow2(53) == 0x20_0000_0000_0000,
    ;
    assert(-256 * m <= b * 0x10_0000_0000_0000 <= 256 * m) by (nonlinear_arith)
        requires
            b == (s - t) * u,
            m == s * u,
            (t - s) * pow2(52) <= n * s,
            (s - t) * pow2(52) <= n * s,
            pow2(52) == 0x10_0000_0000_0000,
            0 <= n <= 256,
            s >= 0,
            u > 0,
    {
        assert((s - t) * u * 0x10_0000_0000_0000 == ((s - t) * 0x10_0000_0000_0000) * u);
        assert(n * s <= 256 * s);
        assert(((s - t) * 0x10_0000_0000_0000) * u <= (256 * s) * u);
        assert(((t - s) * 0x10_0000_0000_0000) * u <= (256 * s) * u);
    }
    let g = pow2(42) as int;
    assert(g == 0x400_0000_0000);
    assert(-(v as int) <= (a + b) * 0x400_0000_0000 <= v);
    assert((r - u) * g <= u && (u - r) * g <= u) by (nonlinear_arith)
        requires
            (r - u) * t == a + b,
            -(v as int) <= (a + b) * g <= v,
            v == t * u,
            t > 0,
    ;
}

/// The stars expected in all nodes of a level are those of its share, up to one part in `2^53`.
proof fn lemma_stars_at<M: Fn(Elementary, Double, Double) -> Double>(
    params: GalaxyParams,
    maths: M,
    depth: u8,
)
    requires
        are_ordinary_weights(maths, params.max_depth),
        params.total_stars.finite(),
        pow2(1074) <= params.total_stars.units() <= pow2(1174),
        depth <= params.max_depth,
    ensures
        ({
            let all = params.expected(maths, depth).units() * pow2((3 * depth) as nat);
            let exact = params.total_stars.units() * params.band_share(maths, depth).units();
            &&& params.expected(maths, depth).finite()
            &&& params.expected(maths, depth).units() >= 0
            &&& (all * pow2(1074) - exact) * pow2(53) <= exact
            &&& (exact - all * pow2(1074)) * pow2(53) <= exact
        }),
{
    lemma_share(params, maths, depth);
    let share = params.band_share(maths, depth);
    let stars = params.total_stars;
    let inf = DOUBLE_INF as nat;
    let (a, x, u) = (stars.units() as nat, share.units() as nat, pow2(1074));
    lemma_pow2_pos(1074);
    lemma_pow2_pos(865);
    lemma_pow2_pos(1174);
    assert(!stars.negative());
    let n = a * x;
    lemma_power_code(-209);
    lemma_power_code(100);
    assert(pow2(865) * u <= n <= pow2(1174) * u) by (nonlinear_arith)
        requires
            n == a * x,
            u <= a <= pow2(1174),
            pow2(865) <= x <= u,
            pow2(865) > 0,
    ;
    lemma_pow2_strictly_increases(52, 865);
    lemma_pow2_strictly_increases(1174, 2000);
    assert(pow2(52) * u <= n <= pow2(2000) * u) by (nonlinear_arith)
        requires
            pow2(865) * u <= n <= pow2(1174) * u,
            pow2(52) <= pow2(865),
            pow2(1174) <= pow2(2000),
    ;
    lemma_relative_error(n, u);
    lemma_nearest_at_least(n, u, 52, inf, power_code(-209));
    let p = stars.product(share);
    assert(p.code() == nearest_code(n, u, 52, inf) && !p.negative());
    let nodes = GalaxyParams::nodes_at(depth);
    let k = (3 * depth) as nat;
    assert(nodes.code() == power_code(k as int) && !nodes.negative());
    assert(p.code() >= (k + 1) * 0x10_0000_0000_0000) by (nonlinear_arith)
        requires
            p.code() >= 814 * 0x10_0000_0000_0000,
            k <= 765,
    ;
    lemma_quotient_by_power(p, nodes, k);
    let d = if depth < params.max_depth {
        depth
    } else {
        params.max_depth
    };
    assert(d == depth);
}

/// The stars of the levels differ from their shares by at most one part in `2^53`.
proof fn lemma_sum_of_stars<M: Fn(Elementary, Double, Double) -> Double>(
    params: GalaxyParams,
    maths: M,
    n: nat,
)
    requires
        are_ordinary_weights(maths, params.max_depth),
        params.total_stars.finite(),
        pow2(1074) <= params.total_stars.units() <= pow2(1174),
        n <= params.max_depth + 1,
    ensures
        ({
            let all = sum_of_stars(params, maths, n) * pow2(1074);
            let exact = params.total_stars.units() * sum_of_shares(params, maths, n);
            &&& (all - exact) * pow2(53) <= exact
            &&& (exact - all) * pow2(53) <= exact
        }),
    decreases n,
{
    let a = params.total_stars.units();
    let u = pow2(1074) as int;
    let q = pow2(53) as int;
    if n == 0 {
        assert(0 * u == 0 && a * 0 == 0 && 0 * q == 0) by (nonlinear_arith);
    } else {
        let k = (n - 1) as nat;
        lemma_sum_of_stars(params, maths, k);
        lemma_stars_at(params, maths, k as u8);
        let e = params.expected(maths, k as u8).units() * pow2((3 * k) as nat);
        let x = params.band_share(maths, k as u8).units();
        let e0 = sum_of_stars(params, maths, k);
        let x0 = sum_of_shares(params, maths, k);
        assert((k as u8) as nat == k);
        assert(((e0 + e) * u - a * (x0 + x)) * q == (e0 * u - a * x0) * q + (e * u - a * x) * q && (
        a * (x0 + x) - (e0 + e) * u) * q == (a * x0 - e0 * u) * q + (a * x - e * u) * q && a * (x0
            + x) == a * x0 + a * x) by (nonlinear_arith);
    }
}

/// The stars expected in all nodes of all levels are those of the galaxy, up to one part in
/// `2^41`, for a galaxy of one to `2^100` stars. Below the deepest level a node is expected to
/// hold what one at that level does.
pub proof fn law_nodes_hold_all_the_stars<M: Fn(Elementary, Double, Double) -> Double>(
    params: GalaxyParams,
    maths: M,
)
    requires
        are_ordinary_weights(maths, params.max_depth),
        params.total_stars.finite(),
        pow2(1074) <= params.total_stars.units() <= pow2(1174),
    ensures
        ({
            let all = sum_of_stars(params, maths, (params.max_depth + 1) as nat);
            let stars = params.total_stars.units();
            (all - stars) * pow2(41) <= stars && (stars - all) * pow2(41) <= stars
        }),
        forall|d: u8|
            d > params.max_depth ==> #[trigger] params.expected(maths, d) == params.expected(
                maths,
                params.max_depth,
            ),
{
    let n = (params.max_depth + 1) as nat;
    law_shares_add_up_to_one(params, maths);
    lemma_sum_of_stars(params, maths, n);
    let a = params.total_stars.units();
    let u = pow2(1074) as int;
    let e = sum_of_stars(params, maths, n);
    let x = sum_of_shares(params, maths, n);
    lemma2_to64_rest();
    lemma_pow2_pos(1074);
    let (m, v) = (a * x, a * u);
    let (f, h) = (e * u - m, a * (x - u));
    assert((e - a) * u == f + h) by (nonlinear_arith)
        requires
            m == a * x,
            f == e * u - m,
            h == a * (x - u),
    ;
    assert(-v <= h * 0x400_0000_0000 <= v && 0 <= m <= 2 * v) by (nonlinear_arith)
        requires
            h == a * (x - u),
            v == a * u,
            m == a * x,
            (x - u) * pow2(42) <= u,
            (u - x) * pow2(42) <= u,
            pow2(42) == 0x400_0000_0000,
            a >= 0,
            u > 0,
    {
        assert(h * 0x400_0000_0000 == a * ((x - u) * 0x400_0000_0000));
        assert(a * ((x - u) * 0x400_0000_0000) <= a * u);
        assert(a * ((u - x) * 0x400_0000_0000) <= a * u);
        assert(0 <= x <= 2 * u);
        assert(0 <= a * x <= a * (2 * u));
    }
    assert(-m <= f * 0x20_0000_0000_0000 <= m) by (nonlinear_arith)
        requires
            f == e * u - m,
            (e * u - m) * pow2(53) <= m,
            (m - e * u) * pow2(53) <= m,
            pow2(53) == 0x20_0000_0000_0000,
    ;
    let g = pow2(41) as int;
    assert(g == 0x200_0000_0000);
    assert(-v <= (f + h) * 0x200_0000_0000 <= v);
    assert((e - a) * g <= a && (a - e) * g <= a) by (nonlinear_arith)
        requires
            (e - a) * u == f + h,
            -v <= (f + h) * g <= v,
            v == a * u,
            u > 0,
    ;
}

/// The stars expected in all nodes of a level, times the weight of all bands, are all stars times
/// the weight of the level's band.
proof fn lemma_stars_by_weight<M: Fn(Elementary, Double, Double) -> Double>(
    params: GalaxyParams,
    maths: M,
    depth: u8,
)
    requires
        are_ordinary_weights(maths, params.max_depth),
        params.total_stars.finite(),
        pow2(1074) <= params.total_stars.units() <= pow2(1174),
        depth <= params.max_depth,
    ensures
        ({
            let t = GalaxyParams::total_weight(maths, (params.max_depth + 1) as nat).units();
            let all = params.expected(maths, depth).units() * pow2((3 * depth) as nat);
            t > 0 && all >= 0 && close(
                all * t,
                params.total_stars.units() * band_weight(maths, depth).units(),
                51,
            )
        }),
{
    let n = (params.max_depth + 1) as nat;
    lemma_share(params, maths, depth);
    lemma_stars_at(params, maths, depth);
    lemma_total(maths, params.max_depth, n);
    let (t, u) = (GalaxyParams::total_weight(maths, n).units(), pow2(1074) as int);
    let all = params.expected(maths, depth).units() * pow2((3 * depth) as nat);
    let (a, x, w) = (
        params.total_stars.units(),
        params.band_share(maths, depth).units(),
        band_weight(maths, depth).units(),
    );
    lemma_pow2_pos(865);
    lemma_pow2_pos(974);
    lemma_pow2_pos(1074);
    lemma_pow2_pos((3 * depth) as nat);
    lemma2_to64_rest();
    assert(t > 0) by (nonlinear_arith)
        requires
            (w * u - x * t) * pow2(53) <= w * u,
            w > 0,
            u > 0,
            x > 0,
            pow2(53) >= 2,
    ;
    assert(all >= 0) by (nonlinear_arith)
        requires
            all == params.expected(maths, depth).units() * pow2((3 * depth) as nat),
            params.expected(maths, depth).units() >= 0,
            pow2((3 * depth) as nat) > 0,
    ;
    assert(all * u >= 0 && a * x >= 0 && x * t >= 0 && w * u >= 0) by (nonlinear_arith)
        requires
            all >= 0,
            u > 0,
            a >= 0,
            x >= 0,
            t > 0,
            w >= 0,
    ;
    assert(close(all * u, a * x, 53));
    assert(close(x * t, w * u, 53));
    lemma_close_scales(all * u, a * x, t, 53);
    lemma_close_scales(x * t, w * u, a, 53);
    assert((a * x) * t == (x * t) * a) by (nonlinear_arith);
    lemma_close_weakens((x * t) * a, (w * u) * a, 53, 52);
    lemma_close_chain((all * u) * t, (a * x) * t, (w * u) * a, 51);
    assert((all * u) * t == (all * t) * u && (w * u) * a == (a * w) * u) by (nonlinear_arith);
    lemma_close_cancels(all * t, a * w, u, 51);
}

/// The levels share the stars by the weights of their bands: those of all nodes of one level times
/// the weight of another are those of the other times the weight of the one, up to one part in
/// `2^47`.
pub proof fn law_levels_share_the_stars_by_weight<M: Fn(Elementary, Double, Double) -> Double>(
    params: GalaxyParams,
    maths: M,
    d: u8,
    e: u8,
)
    requires
        are_ordinary_weights(maths, params.max_depth),
        params.total_stars.finite(),
        pow2(1074) <= params.total_stars.units() <= pow2(1174),
        d <= params.max_depth,
        e <= params.max_depth,
    ensures
        ({
            let (a, b) = (
                params.expected(maths, d).units() * pow2((3 * d) as nat),
                params.expected(maths, e).units() * pow2((3 * e) as nat),
            );
            let (v, w) = (band_weight(maths, d).units(), band_weight(maths, e).units());
            close(a * w, b * v, 47)
        }),
{
    let t = GalaxyParams::total_weight(maths, (params.max_depth + 1) as nat).units();
    let s = params.total_stars.units();
    let (a, b) = (
        params.expected(maths, d).units() * pow2((3 * d) as nat),
        params.expected(maths, e).units() * pow2((3 * e) as nat),
    );
    let (v, w) = (band_weight(maths, d).units(), band_weight(maths, e).units());
    lemma_stars_by_weight(params, maths, d);
    lemma_stars_by_weight(params, maths, e);
    lemma_pow2_pos(974);
    lemma_close_scales(a * t, s * v, w, 51);
    lemma_close_scales(b * t, s * w, v, 51);
    assert((s * v) * w == (s * w) * v) by (nonlinear_arith);
    lemma_close_turns((b * t) * v, (s * w) * v, 50);
    lemma_close_weakens((a * t) * w, (s * v) * w, 51, 49);
    lemma_close_weakens((s * w) * v, (b * t) * v, 50, 48);
    lemma_close_chain((a * t) * w, (s * v) * w, (b * t) * v, 47);
    assert((a * t) * w == (a * w) * t && (b * t) * v == (b * v) * t) by (nonlinear_arith);
    lemma_close_cancels(a * w, b * v, t, 47);
}

} // verus!
