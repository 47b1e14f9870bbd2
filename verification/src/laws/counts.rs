//! Laws of how many stars a node holds: as many as are expected of it, up to the spread of the
//! draw.
use vstd::arithmetic::div_mod::*;
use vstd::arithmetic::power2::*;
use vstd::prelude::*;

use crate::draws::{chacha8_words, double_at};
use crate::generate::{
    draws_above, exp_has_floor, lemma_draw_shrinks, normal_count, star_at, stars_of, EXP_FLOOR,
};
use crate::ieee::accuracy::{lemma_product_error, lemma_product_relative, lemma_sum_relative, size};
use crate::ieee::bounds::{lemma_power_code, power_code};
use crate::ieee::convert::half_up;
use crate::ieee::double::{lemma_double_format, DOUBLE_INF};
use crate::ieee::encoding::{code_units, lemma_code_units_increases, Double};
use crate::ieee::exact::lemma_nearest_at_most;
use crate::ieee::rounding::{lemma_code_units_ordered, nearest_code};
use crate::laws::lengths::{close, lemma_close_doubles, lemma_root_at_most, lemma_root_rounds};
use crate::laws::space::law_draws_lie_in_the_unit_interval;
use crate::maths::{answers, lemma_answer_is_value, reliable, value_of, Elementary};
use crate::node::NodeKey;
use crate::params::{GalaxyParams, ONE, ZERO};
use crate::seed::seed_of;

verus! {

/// A product with a number of at most one is no larger.
proof fn lemma_product_shrinks(a: Double, b: Double, top: Double)
    requires
        a.finite(),
        b.finite(),
        top.finite(),
        !top.negative(),
        size(a.units()) <= top.units(),
        size(b.units()) <= pow2(1074),
    ensures
        a.product(b).finite(),
        size(a.product(b).units()) <= top.units(),
{
    let (x, y, t) = (
        code_units(a.code(), 52),
        code_units(b.code(), 52),
        code_units(top.code(), 52),
    );
    let u = pow2(1074);
    lemma_pow2_pos(1074);
    assert(x * y <= t * u) by (nonlinear_arith)
        requires
            x <= t,
            y <= u,
    ;
    lemma_nearest_at_most(x * y, u, 52, DOUBLE_INF as nat, top.code());
    lemma_code_units_ordered(nearest_code(x * y, u, 52, DOUBLE_INF as nat), top.code(), 52);
}

/// The whole number nearest to a number differs from it by at most one half.
proof fn lemma_nearest_int_error(x: Double)
    requires
        x.finite(),
    ensures
        2 * size(x.nearest_int() * pow2(1074) - x.units()) <= pow2(1074),
{
    let (n, b) = (code_units(x.code(), 52), pow2(1074));
    lemma_pow2_pos(1074);
    lemma_pow2_unfold(1075);
    let w = half_up(n, 1074) as int;
    let r = (2 * n + b) as int % (2 * b) as int;
    lemma_fundamental_div_mod((2 * n + b) as int, (2 * b) as int);
    lemma_mod_bound((2 * n + b) as int, (2 * b) as int);
    assert(2 * n + b == 2 * (w * b) + r) by (nonlinear_arith)
        requires
            2 * n + b == (2 * b) * w + r,
    ;
    assert((-w) * b == -(w * b)) by (nonlinear_arith);
}

/// Seven and a half.
spec fn spread() -> Double {
    Double { bits: 0x401e_0000_0000_0000 /* 7.5 */ }
}

proof fn lemma_spread()
    ensures
        spread().finite(),
        !spread().negative(),
        2 * spread().units() == 15 * pow2(1074),
{
    lemma_double_format();
    let c = 0x401e_0000_0000_0000nat;
    assert(c / 0x10_0000_0000_0000 == 1025 && c % 0x10_0000_0000_0000 == 0xe_0000_0000_0000);
    lemma2_to64_rest();
    lemma_pow2_adds(49, 1024);
    lemma_pow2_adds(1, 1073);
    lemma2_to64();
    assert(code_units(c, 52) == 0x1e_0000_0000_0000 * pow2(1024));
    assert(0x1e_0000_0000_0000 * pow2(1024) == 15 * pow2(1073)) by (nonlinear_arith)
        requires
            pow2(1073) == 0x2_0000_0000_0000 * pow2(1024),
    ;
}

/// The arithmetic behind the spread of a count, in units `u`: `l` the mean, `r` its root, `t` the
/// deviation, `x` their sum and `n` the count.
proof fn lemma_spread_of_count(l: int, r: int, t: int, x: int, n: int, u: int)
    requires
        u >= 0x4000_0000_0000_0000,
        30 * u <= l,
        0 < r <= 0x8000_0000 * u,
        close(r * r, l * u, 50),
        2 * size(t) <= 15 * r + r / 64 + 4,
        size(x - (l + t)) * 0x20_0000_0000_0000 <= size(l + t),
        2 * size(n * u - x) <= u,
    ensures
        (n * u - l) * (n * u - l) <= 64 * (l * u),
{
    lemma_close_doubles(r * r, l * u, 50);
    let h = pow2(50) as int;
    lemma2_to64_rest();
    assert(h == 0x4_0000_0000_0000);
    let (rr, lu) = (r * r, l * u);
    // The root is more than five.
    assert(r >= 5 * u) by (nonlinear_arith)
        requires
            rr == r * r,
            lu == l * u,
            (lu - rr) * h <= lu,
            h == 0x4_0000_0000_0000,
            30 * u <= l,
            u > 0,
            r > 0,
    {
        assert(lu >= 30 * (u * u));
        assert(rr * h >= lu * (h - 1));
        assert(rr >= 26 * (u * u));
        if r < 5 * u {
            assert(r * r < (5 * u) * (5 * u));
        }
    }
    // The mean is at most so many roots.
    assert(l <= 0x1_0000_0000 * r) by (nonlinear_arith)
        requires
            lu <= 2 * rr,
            rr == r * r,
            lu == l * u,
            0 < r <= 0x8000_0000 * u,
            u > 0,
    {
        assert(rr <= r * (0x8000_0000 * u));
        assert(l * u <= (0x1_0000_0000 * r) * u);
    }
    let d = n * u - l;
    assert(size(l + t) <= 0x1_0000_0000 * r + 16 * r);
    assert(0x10_0000 * size(x - (l + t)) <= r);
    assert(8 * size(d) <= 61 * r);
    assert(64 * (d * d) <= 3721 * rr) by (nonlinear_arith)
        requires
            8 * size(d) <= 61 * r,
            rr == r * r,
            r > 0,
    {
        let s = size(d) as int;
        assert(d * d == s * s);
        assert((8 * s) * (8 * s) <= (61 * r) * (61 * r));
    }
    assert(h * rr <= (h + 1) * lu) by (nonlinear_arith)
        requires
            (rr - lu) * h <= lu,
    ;
    assert(3721 * rr <= 4096 * lu) by (nonlinear_arith)
        requires
            h * rr <= (h + 1) * lu,
            h == 0x4_0000_0000_0000,
            lu >= 0,
    ;
}

/// The normal draw is within eight roots of the mean.
proof fn lemma_normal_count(lambda: Double, log: Double, cos: Double)
    requires
        lambda.finite(),
        30 * pow2(1074) <= lambda.units() <= pow2(1134),
        log.finite(),
        -(28 * pow2(1074)) <= log.units() <= 0,
        cos.finite(),
        size(cos.units()) <= pow2(1074),
    ensures
        ({
            let d = normal_count(lambda, log, cos) * pow2(1074) - lambda.units();
            d * d <= 64 * (lambda.units() * pow2(1074))
        }),
{
    let u = pow2(1074) as int;
    let l = lambda.units();
    lemma_pow2_pos(1074);
    lemma2_to64();
    lemma2_to64_rest();
    lemma_pow2_adds(62, 1012);
    lemma_pow2_pos(1012);
    assert(u >= 0x4000_0000_0000_0000) by (nonlinear_arith)
        requires
            u == 0x4000_0000_0000_0000 * pow2(1012),
            pow2(1012) > 0,
    ;
    // Twice the logarithm.
    let two = Double { bits: 0xc000_0000_0000_0000 /* -2.0 */ };
    lemma_power_code(1);
    assert(two.code() == power_code(1));
    lemma_pow2_unfold(1075);
    lemma_pow2_adds(6, 1074);
    let g = log.units();
    assert(two.units() == -(2 * u));
    assert((-(2 * u)) * g == (-2 * g) * u && 0 <= (-2 * g) * u <= pow2(1080) * u) by (nonlinear_arith)
        requires
            -(28 * u) <= g <= 0,
            pow2(1080) == 64 * u,
            u > 0,
    ;
    lemma_product_error(two, log, 1029);
    let a = two.product(log);
    lemma_pow2_adds(1027, 47);
    lemma_pow2_pos(1027);
    assert(4 * a.units() <= 225 * u) by (nonlinear_arith)
        requires
            2 * size(a.units() * u - (-2 * g) * u) <= pow2(1027) * u,
            -(28 * u) <= g,
            u == pow2(1027) * 0x8000_0000_0000,
            pow2(1027) > 0,
    {
        let y = a.units();
        assert(2 * (y - (-2 * g)) * u <= pow2(1027) * u);
        assert(2 * (y + 2 * g) <= pow2(1027));
    }
    lemma_spread();
    let top = spread().units();
    assert(a.units() * u <= top * top) by (nonlinear_arith)
        requires
            4 * a.units() <= 225 * u,
            2 * top == 15 * u,
            u > 0,
    {
        assert((2 * top) * (2 * top) == (15 * u) * (15 * u));
        assert(4 * (a.units() * u) <= 225 * (u * u));
    }
    lemma_root_at_most(a, spread());
    let s = a.root();
    lemma_product_shrinks(s, cos, spread());
    let z = s.product(cos);
    // The root of the mean.
    lemma_pow2_strictly_increases(1134, 1400);
    lemma_pow2_unfold(1074);
    lemma_pow2_pos(1073);
    lemma_root_rounds(lambda);
    let root = lambda.root();
    let r = root.units();
    lemma_power_code(31);
    lemma_pow2_adds(31, 1074);
    lemma_pow2_adds(60, 1074);
    let limit = Double { bits: power_code(31) as u64 };
    assert(l * u <= limit.units() * limit.units()) by (nonlinear_arith)
        requires
            l <= 0x1000_0000_0000_0000 * u,
            limit.units() == 0x8000_0000 * u,
            u > 0,
    {
        assert(limit.units() * limit.units() == 0x4000_0000_0000_0000 * (u * u));
        assert(l * u <= 0x1000_0000_0000_0000 * (u * u));
    }
    lemma_root_at_most(lambda, limit);
    // The deviation.
    let zu = z.units();
    lemma_pow2_adds(35, 1074);
    lemma_pow2_strictly_increases(1109, 2000);
    assert(2 * size(zu * r) <= 15 * (u * r)) by (nonlinear_arith)
        requires
            2 * size(zu) <= 15 * u,
            r > 0,
            u > 0,
    {
        assert((2 * zu) * r <= (15 * u) * r);
        assert(-((15 * u) * r) <= (2 * zu) * r);
    }
    assert(size(zu * r) <= pow2(2000) * pow2(1074)) by (nonlinear_arith)
        requires
            2 * size(zu * r) <= 15 * (u * r),
            0 < r <= 0x8000_0000 * u,
            pow2(1109) == 0x8_0000_0000 * u,
            pow2(1109) <= pow2(2000),
            u == pow2(1074),
            u > 0,
    {
        assert(u * r <= u * (0x8000_0000 * u));
        assert(u * (0x8000_0000 * u) == (0x8000_0000 * u) * u);
        assert(pow2(1109) * u <= pow2(2000) * u);
    }
    lemma_product_relative(z, root);
    let t = z.product(root).units();
    let k = 0x20_0000_0000_0000int;
    assert(2 * size(t) <= 15 * r + r / 64 + 4) by (nonlinear_arith)
        requires
            size(t * u - zu * r) * k <= size(zu * r) + k * u,
            2 * size(zu * r) <= 15 * (u * r),
            k == 0x20_0000_0000_0000,
            r > 0,
            u > 0,
    {
        let st = size(t) as int;
        let m = size(zu * r) as int;
        assert(size(t * u) == st * u);
        let e = size(t * u - zu * r) as int;
        assert(st * u <= m + e);
        assert(k * (st * u) <= k * m + m + k * u);
        assert(2 * k * (st * u) <= (k + 1) * (15 * (u * r)) + 2 * k * u);
        assert(2 * k * st <= (k + 1) * 15 * r + 2 * k) by {
            assert((2 * k * st) * u <= ((k + 1) * 15 * r + 2 * k) * u);
        }
        assert(15 * r <= k * (r / 64 + 1));
    }
    // The count.
    let x = lambda.sum(z.product(root));
    lemma_pow2_unfold(2000);
    lemma_pow2_strictly_increases(1134, 1999);
    lemma_pow2_strictly_increases(1109, 1999);
    assert(size(l + t) <= pow2(2000));
    lemma_sum_relative(lambda, z.product(root));
    lemma_nearest_int_error(x);
    let n = x.nearest_int();
    lemma_spread_of_count(l, r, t, x.units(), n, u);
    let count = normal_count(lambda, log, cos) as int;
    lemma_count_is_clipped(l, r, t, x.units(), n, u);
    if n < 0 {
        assert(count == 0);
        let (d, c) = (n * u - l, -l);
        assert(c * c <= d * d) by (nonlinear_arith)
            requires
                n < 0,
                u > 0,
                l >= 0,
                d == n * u - l,
                c == -l,
        {
            assert(n * u <= 0);
        }
        assert(0 * u == 0) by (nonlinear_arith);
    }
}

/// A count of a mean of up to `2^60` stays in range.
proof fn lemma_count_is_clipped(l: int, r: int, t: int, x: int, n: int, u: int)
    requires
        u > 0,
        0 <= l <= 0x1000_0000_0000_0000 * u,
        0 < r <= 0x8000_0000 * u,
        2 * size(t) <= 15 * r + r / 64 + 4,
        size(x - (l + t)) * 0x20_0000_0000_0000 <= size(l + t),
        2 * size(n * u - x) <= u,
    ensures
        n <= u64::MAX,
{
    assert(n * u <= 0x2000_0000_0000_0000 * u);
    assert(n <= 0x2000_0000_0000_0000) by (nonlinear_arith)
        requires
            n * u <= 0x2000_0000_0000_0000 * u,
            u > 0,
    ;
}

/// The supplied logarithm is from -28 to zero on numbers from a billionth of a thousandth to one,
/// and the supplied cosine from minus one to one.
pub open spec fn are_ordinary_draws<M: Fn(Elementary, Double, Double) -> Double>(maths: M) -> bool {
    &&& forall|x: Double, r: Double|
        (Double { bits: 0x3d71_9799_812d_ea11 /* 1e-12 */ }).at_most(x) && x.at_most(Double { bits: ONE }) && #[trigger] call_ensures(
            maths,
            (Elementary::Ln, x, Double { bits: ZERO }),
            r,
        ) ==> r.finite() && -(28 * pow2(1074)) <= r.units() <= 0
    &&& forall|x: Double, r: Double|
        x.finite() && #[trigger] call_ensures(
            maths,
            (Elementary::Cos, x, Double { bits: ZERO }),
            r,
        ) ==> r.finite() && size(r.units()) <= pow2(1074)
}

/// A node holds as many stars as are expected of it, within eight roots of that number, for every
/// mean from 30 to `2^60`.
pub proof fn law_nodes_hold_as_many_stars_as_expected<
    M: Fn(Elementary, Double, Double) -> Double,
>(maths: M, params: GalaxyParams, key: NodeKey)
    requires
        are_ordinary_draws(maths),
        params.expected(maths, key.depth).finite(),
        30 * pow2(1074) <= params.expected(maths, key.depth).units() <= pow2(1134),
    ensures
        ({
            let mean = params.expected(maths, key.depth).units();
            let off = stars_of(maths, params, key).len() * pow2(1074) - mean;
            off * off <= 64 * (mean * pow2(1074))
        }),
{
    reveal(stars_of);
    let words = chacha8_words(seed_of(params.root_seed, key));
    let lambda = params.expected(maths, key.depth);
    let zero = Double { bits: ZERO };
    let thirty = Double { bits: 0x403e_0000_0000_0000 /* 30.0 */ };
    lemma_pow2_pos(52);
    lemma_pow2_pos(1074);
    assert(zero.units() == 0);
    assert(thirty.units() <= 30 * pow2(1074)) by {
        lemma_double_format();
        let c = 0x403e_0000_0000_0000nat;
        assert(c / 0x10_0000_0000_0000 == 1027 && c % 0x10_0000_0000_0000 == 0xe_0000_0000_0000);
        lemma2_to64_rest();
        lemma_pow2_adds(48, 1026);
        assert(code_units(c, 52) == 0x1e_0000_0000_0000 * pow2(1026));
        assert(0x1e_0000_0000_0000 * pow2(1026) == 30 * pow2(1074)) by (nonlinear_arith)
            requires
                pow2(1074) == 0x1_0000_0000_0000 * pow2(1026),
        ;
    }
    law_draws_lie_in_the_unit_interval(words, 0);
    law_draws_lie_in_the_unit_interval(words, 2);
    let (u1, u2) = (double_at(words, 0), double_at(words, 2));
    let least = Double { bits: 0x3d71_9799_812d_ea11 /* 1e-12 */ };
    let one = Double { bits: ONE };
    lemma_code_units_ordered(least.code(), one.code(), 52);
    let x = u1.larger(least);
    assert(least.at_most(x) && x.at_most(one));
    let log = value_of(maths, Elementary::Ln, x, zero);
    if exists|r: Double| answers(maths, Elementary::Ln, x, zero, r) {
        assert(answers(maths, Elementary::Ln, x, zero, log));
    }
    let turn = Double { bits: 0x4019_21fb_5444_2d18 /* 6.283185307179586 */ };
    lemma_power_code(3);
    lemma_code_units_ordered(turn.code(), power_code(3), 52);
    lemma_power_code(0);
    lemma_product_shrinks(turn, u2, turn);
    let angle = turn.product(u2);
    let cos = value_of(maths, Elementary::Cos, angle, zero);
    if exists|r: Double| answers(maths, Elementary::Cos, angle, zero, r) {
        assert(answers(maths, Elementary::Cos, angle, zero, cos));
    }
    lemma_normal_count(lambda, log, cos);
}

/// Where none are expected, a node holds no stars.
pub proof fn law_empty_nodes_hold_no_stars<M: Fn(Elementary, Double, Double) -> Double>(
    maths: M,
    params: GalaxyParams,
    key: NodeKey,
)
    requires
        !params.expected(maths, key.depth).nan(),
        params.expected(maths, key.depth).units() <= 0,
    ensures
        stars_of(maths, params, key).len() == 0,
{
    reveal(stars_of);
    lemma_pow2_pos(52);
    assert((Double { bits: ZERO }).units() == 0);
}

proof fn lemma_draws(words: Map<nat, u32>, ps: Seq<Double>, l: Double, j: nat)
    requires
        (Double { bits: EXP_FLOOR }).at_most(l),
        forall|i: int|
            0 <= i < ps.len() - 1 ==> #[trigger] ps[i + 1] == ps[i].product(
                double_at(words, (2 * i) as nat),
            ),
        j + draws_above(words, 2 * j, ps[j as int], l) + 1 < ps.len(),
        !ps[j as int].negative(),
        EXP_FLOOR <= ps[j as int].code() <= ONE,
    ensures
        ({
            let n = j + draws_above(words, 2 * j, ps[j as int], l);
            &&& forall|i: int| j < i <= n ==> !(#[trigger] ps[i]).at_most(l)
            &&& ps[n as int + 1].at_most(l)
        }),
    decreases ps[j as int].code(),
{
    let p = ps[j as int];
    lemma_draw_shrinks(p, words[2 * j], words[2 * j + 1]);
    let q = p.product(double_at(words, 2 * j));
    assert(ps[j as int + 1] == q);
    let n = j + draws_above(words, 2 * j, p, l);
    if !q.at_most(l) {
        if q.code() < EXP_FLOOR {
            lemma_code_units_increases(q.code(), EXP_FLOOR as nat, 52);
        }
        assert((2 * (j + 1)) as nat == 2 * j + 2);
        lemma_draws(words, ps, l, j + 1);
        assert forall|i: int| j < i <= n implies !(#[trigger] ps[i]).at_most(l) by {
            if i == j + 1 {
                assert(ps[i] == q);
            }
        }
    }
}

/// Of a mean below 30 a node holds as many stars as numbers can be drawn, and multiplied one
/// after the other, before the product is no longer above the exponential of minus the mean.
pub proof fn law_small_counts_follow_the_draws<M: Fn(Elementary, Double, Double) -> Double>(
    maths: M,
    params: GalaxyParams,
    key: NodeKey,
    l: Double,
    products: Seq<Double>,
)
    requires
        reliable(maths),
        exp_has_floor(maths),
        params.expected(maths, key.depth).less(Double { bits: 0x403e_0000_0000_0000 /* 30.0 */ }),
        (Double { bits: ZERO }).less(params.expected(maths, key.depth)),
        call_ensures(
            maths,
            (
                Elementary::Exp,
                params.expected(maths, key.depth).opposite(),
                Double { bits: ZERO },
            ),
            l,
        ),
        stars_of(maths, params, key).len() + 1 < products.len(),
        products[0] == (Double { bits: ONE }),
        forall|i: int|
            0 <= i < products.len() - 1 ==> #[trigger] products[i + 1] == products[i].product(
                double_at(chacha8_words(seed_of(params.root_seed, key)), (2 * i) as nat),
            ),
    ensures
        ({
            let n = stars_of(maths, params, key).len();
            &&& forall|i: int| 0 < i <= n ==> !(#[trigger] products[i]).at_most(l)
            &&& products[n as int + 1].at_most(l)
        }),
{
    reveal(stars_of);
    let words = chacha8_words(seed_of(params.root_seed, key));
    let lambda = params.expected(maths, key.depth);
    lemma_answer_is_value(maths, Elementary::Exp, lambda.opposite(), Double { bits: ZERO }, l);
    lemma_pow2_pos(52);
    let (zero, thirty) = (Double { bits: ZERO }, Double { bits: 0x403e_0000_0000_0000 /* 30.0 */ });
    assert(zero.units() == 0);
    let x = lambda.opposite();
    let floor = Double { bits: 0xc03e_0000_0000_0000 /* -30.0 */ };
    assert(x.units() == -lambda.units());
    assert(floor.units() == -thirty.units());
    assert(floor.at_most(x) && x.at_most(zero));
    lemma_draws(words, products, l, 0);
}

/// Every star is made of words of its own: the nine that follow those of the star before it, and
/// of the first those that follow the words of the count.
pub proof fn law_stars_are_made_of_their_own_words<M: Fn(Elementary, Double, Double) -> Double>(
    maths: M,
    params: GalaxyParams,
    key: NodeKey,
    i: int,
)
    requires
        0 <= i < stars_of(maths, params, key).len(),
    ensures
        ({
            let mean = params.expected(maths, key.depth);
            let words = chacha8_words(seed_of(params.root_seed, key));
            let count = stars_of(maths, params, key).len();
            let first = if mean.less(Double { bits: 0x403e_0000_0000_0000 /* 30.0 */ }) {
                2 * (count + 1)
            } else {
                4
            };
            stars_of(maths, params, key)[i] == star_at(
                maths,
                params,
                key,
                words,
                (first + 9 * i) as nat,
            )
        }),
{
    reveal(stars_of);
}

} // verus!
