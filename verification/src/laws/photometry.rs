//! Laws of apparent magnitudes.
use vstd::arithmetic::power2::*;
use vstd::prelude::*;

use crate::coord::METERS_PER_PARSEC;
use crate::ieee::accuracy::{
    lemma_difference_error, lemma_narrowed_error, lemma_single_difference_error,
    lemma_single_product_error, lemma_single_sum_error, near, size,
};
use crate::ieee::bounds::{
    lemma_power_code, lemma_rounding_keeps_order, lemma_sum_units, lemma_sum_within,
    lemma_within_grows, power_code, within,
};
use crate::ieee::double::DOUBLE_INF;
use crate::ieee::encoding::{
    code_units, lemma_code_split, lemma_code_units_increases, Double, Single,
};
use crate::ieee::error::lemma_relative_error;
use crate::ieee::exact::{
    lemma_nearest_at_most, lemma_nearest_exists, lemma_nearest_keeps_order, lemma_nearest_of_code,
};
use crate::ieee::rounding::{lemma_code_units_ordered, nearest_code};
use crate::ieee::single::{lemma_single_format, single_of, SINGLE_INF};
use crate::laws::lengths::{close, lemma_close_doubles};
use crate::maths::{lemma_answer_is_value, reliable, Elementary};
use crate::octree::{apparent, dimmed, parsecs};
use crate::params::{ONE, ZERO};
use crate::render::stars::photometric_at;

verus! {

/// The value in units of a number that rounds to `n / d` units with a sign.
pub open spec fn rounded(neg: bool, n: nat, d: nat) -> int {
    let u = code_units(nearest_code(n, d, 23, SINGLE_INF as nat), 23) as int;
    if neg {
        -u
    } else {
        u
    }
}

/// Rounding keeps the order of signed values.
pub proof fn lemma_rounded_order(na: bool, a: nat, nb: bool, b: nat, d: nat)
    requires
        d > 0,
        (if na {
            -(a as int)
        } else {
            a as int
        }) <= (if nb {
            -(b as int)
        } else {
            b as int
        }),
    ensures
        rounded(na, a, d) <= rounded(nb, b, d),
{
    let inf = SINGLE_INF as nat;
    lemma_pow2_pos(23);
    if a <= b {
        lemma_nearest_keeps_order(a, b, d, 23, inf);
        lemma_code_units_ordered(nearest_code(a, d, 23, inf), nearest_code(b, d, 23, inf), 23);
    }
    if b <= a {
        lemma_nearest_keeps_order(b, a, d, 23, inf);
        lemma_code_units_ordered(nearest_code(b, d, 23, inf), nearest_code(a, d, 23, inf), 23);
    }
    if !na && nb {
        assert(a == 0 && b == 0);
        assert(0 * d == 0) by (nonlinear_arith);
        assert(code_units(0, 23) * d == 0) by (nonlinear_arith)
            requires
                code_units(0, 23) == 0,
        ;
        lemma_nearest_of_code(0, d, 23, inf);
    }
}

proof fn lemma_rounded_single(neg: bool, n: nat, d: nat)
    ensures
        ({
            let s = single_of((neg, nearest_code(n, d, 23, SINGLE_INF as nat)));
            !s.nan() && s.units() == rounded(neg, n, d) && s.negative() == neg && s.code()
                == nearest_code(n, d, 23, SINGLE_INF as nat)
        }),
{
    lemma_nearest_exists(n, d, 23, SINGLE_INF as nat);
}

/// Narrowing keeps order.
proof fn lemma_narrowing_order(a: Double, b: Double)
    requires
        !a.nan(),
        !b.nan(),
        a.at_most(b),
    ensures
        !a.narrowed().nan(),
        !b.narrowed().nan(),
        a.narrowed().at_most(b.narrowed()),
{
    lemma_pow2_pos(925);
    lemma_pow2_pos(23);
    let (m, n) = (code_units(a.code(), 52), code_units(b.code(), 52));
    lemma_rounded_single(a.negative(), m, pow2(925));
    lemma_rounded_single(b.negative(), n, pow2(925));
    lemma_rounded_order(a.negative(), m, b.negative(), n, pow2(925));
    lemma_pow2_pos(52);
    lemma_code_units_increases(0, DOUBLE_INF as nat, 52);
    if !a.finite() {
        lemma_infinite_tops(b.narrowed());
        lemma_infinite_tops(a.narrowed());
        if !a.negative() && b.finite() {
            lemma_code_units_increases(b.code(), a.code(), 52);
        }
    }
    if !b.finite() {
        lemma_infinite_tops(a.narrowed());
        lemma_infinite_tops(b.narrowed());
        if b.negative() && a.finite() {
            lemma_code_units_increases(a.code(), b.code(), 52);
        }
    }
}

/// Nothing is beyond the infinities.
proof fn lemma_infinite_tops(x: Single)
    requires
        !x.nan(),
    ensures
        -(code_units(SINGLE_INF as nat, 23) as int) <= x.units() <= code_units(SINGLE_INF as nat, 23),
{
    lemma_code_units_ordered(x.code(), SINGLE_INF as nat, 23);
}

/// A product with a positive number keeps order.
proof fn lemma_product_order(f: Single, a: Single, b: Single)
    requires
        f.finite(),
        !f.negative(),
        f.code() > 0,
        !a.nan(),
        !b.nan(),
        a.at_most(b),
    ensures
        !f.product(a).nan(),
        !f.product(b).nan(),
        f.product(a).at_most(f.product(b)),
{
    lemma_pow2_pos(149);
    lemma_pow2_pos(23);
    let (x, m, n) = (code_units(f.code(), 23), code_units(a.code(), 23), code_units(b.code(), 23));
    let d = pow2(149);
    if a.finite() {
        lemma_rounded_single(a.negative(), x * m, d);
    }
    if b.finite() {
        lemma_rounded_single(b.negative(), x * n, d);
    }
    if a.finite() && b.finite() {
        assert((m <= n ==> x * m <= x * n) && (n <= m ==> x * n <= x * m)) by (nonlinear_arith)
            requires
                x >= 0,
        ;
        if m == 0 && n == 0 {
            assert(x * m == 0 && x * n == 0) by (nonlinear_arith)
                requires
                    m == 0,
                    n == 0,
            ;
        }
        lemma_rounded_order(a.negative(), x * m, b.negative(), x * n, d);
    } else {
        lemma_infinite_tops(f.product(a));
        lemma_infinite_tops(f.product(b));
        if !a.finite() && !a.negative() && b.finite() {
            lemma_code_units_increases(b.code(), a.code(), 23);
        }
        if !b.finite() && b.negative() && a.finite() {
            lemma_code_units_increases(a.code(), b.code(), 23);
        }
    }
}

/// A sum with a finite number keeps order.
proof fn lemma_sum_order(x: Single, a: Single, b: Single)
    requires
        x.finite(),
        !a.nan(),
        !b.nan(),
        a.at_most(b),
    ensures
        !x.sum(a).nan(),
        !x.sum(b).nan(),
        x.sum(a).at_most(x.sum(b)),
{
    lemma_pow2_pos(23);
    if a.finite() {
        lemma_sum_rounds(x, a);
    }
    if b.finite() {
        lemma_sum_rounds(x, b);
    }
    if a.finite() && b.finite() {
        let (s, t) = (x.units() + a.units(), x.units() + b.units());
        lemma_rounded_order(s < 0, abs_nat(s), t < 0, abs_nat(t), 1);
    } else {
        lemma_infinite_tops(x.sum(a));
        lemma_infinite_tops(x.sum(b));
        if !a.finite() && !a.negative() && b.finite() {
            lemma_code_units_increases(b.code(), a.code(), 23);
        }
        if !b.finite() && b.negative() && a.finite() {
            lemma_code_units_increases(a.code(), b.code(), 23);
        }
    }
}

/// The magnitude of a number of units.
pub open spec fn abs_nat(s: int) -> nat {
    if s < 0 {
        (-s) as nat
    } else {
        s as nat
    }
}

/// The sum of two finite numbers is what their exact sum rounds to.
pub proof fn lemma_sum_rounds(x: Single, a: Single)
    requires
        x.finite(),
        a.finite(),
    ensures
        !x.sum(a).nan(),
        ({
            let s = x.units() + a.units();
            &&& x.sum(a).units() == rounded(s < 0, abs_nat(s), 1)
            &&& s > 0 ==> !x.sum(a).negative()
            &&& s == 0 ==> x.sum(a).negative() == (x.negative() && a.negative())
        }),
{
    let s = x.units() + a.units();
    lemma_rounded_single(s < 0, abs_nat(s), 1);
    if s == 0 {
        lemma_pow2_pos(23);
        lemma_nearest_of_code(0, 1, 23, SINGLE_INF as nat);
        assert(code_units(0, 23) * 1 == 0);
    }
}

/// A larger logarithm does not give a smaller apparent magnitude.
proof fn lemma_dimmed_order(abs_mag: Single, near: Double, far: Double)
    requires
        abs_mag.finite(),
        near.finite(),
        far.finite(),
        near.at_most(far),
    ensures
        dimmed(abs_mag, near).at_most(dimmed(abs_mag, far)),
{
    let one = Double { bits: ONE };
    let minus = one.opposite();
    assert(minus.finite());
    lemma_sum_units(near, minus);
    lemma_sum_units(far, minus);
    lemma_rounding_keeps_order(near.units() + minus.units(), far.units() + minus.units());
    let (a, b) = (near.difference(one), far.difference(one));
    lemma_narrowing_order(a, b);
    let five = Single { bits: 0x40a0_0000 /* 5.0 */ };
    lemma_product_order(five, a.narrowed(), b.narrowed());
    lemma_sum_order(abs_mag, five.product(a.narrowed()), five.product(b.narrowed()));
}

/// `x` is finite and at most `2^k` in magnitude.
pub open spec fn single_within(x: Single, k: int) -> bool {
    x.finite() && code_units(x.code(), 23) <= pow2((149 + k) as nat)
}

/// The code of `2^k`.
pub open spec fn single_power_code(k: int) -> nat {
    ((127 + k) * 0x80_0000) as nat
}

pub proof fn lemma_single_power_code(k: int)
    requires
        -126 <= k <= 127,
    ensures
        code_units(single_power_code(k), 23) == pow2((149 + k) as nat),
        0 < single_power_code(k) < SINGLE_INF,
{
    lemma2_to64();
    let e = (126 + k) as nat;
    lemma_code_split(e, pow2(23), 23);
    lemma_pow2_adds(23, e);
}

/// What rounds from a magnitude of at most `2^k` is within it.
proof fn lemma_rounds_within(n: nat, d: nat, k: int)
    requires
        d > 0,
        -126 <= k <= 127,
        n <= pow2((149 + k) as nat) * d,
    ensures
        ({
            let c = nearest_code(n, d, 23, SINGLE_INF as nat);
            c < SINGLE_INF && code_units(c, 23) <= pow2((149 + k) as nat)
        }),
{
    lemma_single_power_code(k);
    lemma_nearest_at_most(n, d, 23, SINGLE_INF as nat, single_power_code(k));
    lemma_code_units_ordered(
        nearest_code(n, d, 23, SINGLE_INF as nat),
        single_power_code(k),
        23,
    );
}

/// The apparent magnitude is finite where the absolute one and the logarithm are bounded.
pub proof fn law_apparent_magnitudes_are_finite(abs_mag: Single, log: Double)
    requires
        single_within(abs_mag, 126),
        within(log, 100),
    ensures
        dimmed(abs_mag, log).finite(),
{
    let one = Double { bits: ONE };
    let five = Single { bits: 0x40a0_0000 /* 5.0 */ };
    let inf = SINGLE_INF as nat;
    lemma_power_code(0);
    assert(one.code() == power_code(0));
    lemma_within_grows(one, 0, 100);
    lemma_sum_within(log, one, 100);
    let rel = log.difference(one);
    let n = code_units(rel.code(), 52);
    lemma_pow2_pos(925);
    lemma_pow2_adds(250, 925);
    lemma_rounds_within(n, pow2(925), 101);
    let r = rel.narrowed();
    let m = code_units(r.code(), 23);
    assert(single_within(r, 101));
    lemma_single_power_code(3);
    assert(five.code() <= single_power_code(3));
    lemma_code_units_ordered(five.code(), single_power_code(3), 23);
    let f = code_units(five.code(), 23);
    assert(f * m <= pow2(152) * pow2(250)) by (nonlinear_arith)
        requires
            f <= pow2(152),
            m <= pow2(250),
    ;
    lemma_pow2_adds(152, 250);
    lemma_pow2_adds(253, 149);
    lemma_pow2_pos(149);
    lemma_rounds_within(f * m, pow2(149), 104);
    let q = five.product(r);
    assert(single_within(q, 104));
    lemma_pow2_strictly_increases(253, 275);
    lemma_pow2_unfold(276);
    let t = abs_mag.units() + q.units();
    let a = abs_nat(t);
    assert(a <= pow2(276));
    assert(a <= pow2(276) * 1);
    lemma_rounds_within(a, 1, 127);
}

/// The logarithm keeps order on positive numbers, and is bounded there.
pub open spec fn logarithm_keeps_order<M: Fn(Elementary, Double, Double) -> Double>(maths: M) -> bool {
    forall|x: Double, y: Double, r: Double, s: Double|
        x.finite() && y.finite() && 0 < x.units() <= y.units() && #[trigger] call_ensures(
            maths,
            (Elementary::Log10, x, Double { bits: ZERO }),
            r,
        ) && #[trigger] call_ensures(maths, (Elementary::Log10, y, Double { bits: ZERO }), s)
            ==> within(r, 100) && within(s, 100) && r.at_most(s)
}

/// Distances in parsecs are positive, and keep the order of the distances in meters.
proof fn lemma_parsecs_order(near_m: Double, far_m: Double)
    requires
        near_m.finite(),
        far_m.finite(),
        0 <= near_m.units() <= far_m.units(),
    ensures
        parsecs(near_m).finite(),
        parsecs(far_m).finite(),
        0 < parsecs(near_m).units() <= parsecs(far_m).units(),
{
    let parsec = Double { bits: METERS_PER_PARSEC };
    let least = Double { bits: 0x3eb0_c6f7_a0b5_ed8d /* 1e-6 */ };
    let inf = DOUBLE_INF as nat;
    let (a, b) = (near_m.quotient(parsec), far_m.quotient(parsec));
    let (m, n) = (code_units(near_m.code(), 52), code_units(far_m.code(), 52));
    let (u, d) = (pow2(1074), code_units(parsec.code(), 52));
    lemma_pow2_pos(52);
    lemma_power_code(0);
    lemma_code_units_ordered(power_code(0), parsec.code(), 52);
    lemma_code_units_increases(0, least.code(), 52);
    lemma_pow2_pos(1074);
    assert(m * u <= n * u && m * u <= m * d && n * u <= n * d) by (nonlinear_arith)
        requires
            m <= n,
            u <= d,
    ;
    lemma_nearest_keeps_order(m * u, n * u, d, 52, inf);
    lemma_nearest_at_most(m * u, d, 52, inf, near_m.code());
    lemma_nearest_at_most(n * u, d, 52, inf, far_m.code());
    if near_m.code() > 0 {
        lemma_code_units_increases(0, near_m.code(), 52);
    }
    if far_m.code() > 0 {
        lemma_code_units_increases(0, far_m.code(), 52);
    }
    assert(code_units(0, 52) == 0);
    lemma_code_units_ordered(
        nearest_code(m * u, d, 52, inf),
        nearest_code(n * u, d, 52, inf),
        52,
    );
}

/// A star does not look brighter from farther away, and its apparent magnitude is a finite
/// number, from no distance too.
pub proof fn law_farther_stars_are_not_brighter<M: Fn(Elementary, Double, Double) -> Double>(
    maths: M,
    abs_mag: Single,
    near_m: Double,
    far_m: Double,
    near_log: Double,
    far_log: Double,
)
    requires
        reliable(maths),
        logarithm_keeps_order(maths),
        call_ensures(
            maths,
            (Elementary::Log10, parsecs(near_m), Double { bits: ZERO }),
            near_log,
        ),
        call_ensures(maths, (Elementary::Log10, parsecs(far_m), Double { bits: ZERO }), far_log),
        single_within(abs_mag, 126),
        near_m.finite(),
        far_m.finite(),
        0 <= near_m.units() <= far_m.units(),
    ensures
        apparent(maths, abs_mag, near_m).finite(),
        apparent(maths, abs_mag, far_m).finite(),
        apparent(maths, abs_mag, near_m).at_most(apparent(maths, abs_mag, far_m)),
{
    let zero = Double { bits: ZERO };
    lemma_parsecs_order(near_m, far_m);
    lemma_answer_is_value(maths, Elementary::Log10, parsecs(near_m), zero, near_log);
    lemma_answer_is_value(maths, Elementary::Log10, parsecs(far_m), zero, far_log);
    law_apparent_magnitudes_are_finite(abs_mag, near_log);
    law_apparent_magnitudes_are_finite(abs_mag, far_log);
    lemma_dimmed_order(abs_mag, near_log, far_log);
}

/// At ten parsecs the apparent magnitude is the absolute one.
pub proof fn law_ten_parsecs_show_the_absolute_magnitude(abs_mag: Single)
    requires
        abs_mag.finite(),
    ensures
        dimmed(abs_mag, Double { bits: ONE }).equals(abs_mag),
{
    let one = Double { bits: ONE };
    let zero = Double { bits: ZERO };
    let five = Single { bits: 0x40a0_0000 /* 5.0 */ };
    let none = Single { bits: 0 };
    lemma_pow2_pos(23);
    lemma_pow2_pos(52);
    lemma_pow2_pos(149);
    lemma_pow2_pos(925);
    assert(one.opposite().units() == -one.units());
    assert(one.difference(one) == zero);
    assert(code_units(0, 23) * pow2(925) == 0 && code_units(0, 23) * pow2(149) == 0)
        by (nonlinear_arith)
        requires
            code_units(0, 23) == 0,
    ;
    lemma_nearest_of_code(0, pow2(925), 23, SINGLE_INF as nat);
    assert(code_units(0, 52) == 0);
    assert(zero.narrowed() == none);
    assert(code_units(five.code(), 23) * code_units(0, 23) == 0) by (nonlinear_arith)
        requires
            code_units(0, 23) == 0,
    ;
    lemma_nearest_of_code(0, pow2(149), 23, SINGLE_INF as nat);
    assert(five.product(none) == none);
    let n = code_units(abs_mag.code(), 23);
    assert(n * 1 == n) by (nonlinear_arith);
    lemma_nearest_of_code(abs_mag.code(), 1, 23, SINGLE_INF as nat);
}

/// Powers of two that the proofs here speak of, over the smallest of them.
proof fn lemma_magnitude_scales()
    ensures
        pow2(133) > 0,
        pow2(134) == 2 * pow2(133),
        pow2(136) == 8 * pow2(133),
        pow2(137) == 0x10 * pow2(133),
        pow2(138) == 0x20 * pow2(133),
        pow2(139) == 0x40 * pow2(133),
        pow2(149) == 0x1_0000 * pow2(133),
        pow2(158) == 0x200_0000 * pow2(133),
        pow2(161) == 0x1000_0000 * pow2(133),
        pow2(162) == 0x2000_0000 * pow2(133),
{
    lemma2_to64();
    lemma_pow2_pos(133);
    lemma_pow2_adds(1, 133);
    lemma_pow2_adds(3, 133);
    lemma_pow2_adds(4, 133);
    lemma_pow2_adds(5, 133);
    lemma_pow2_adds(6, 133);
    lemma_pow2_adds(16, 133);
    lemma_pow2_adds(25, 133);
    lemma_pow2_adds(28, 133);
    lemma_pow2_adds(29, 133);
}

/// Five times a number of at most 512, added to one of at most 1000.
proof fn lemma_five_times(abs_mag: Single, n: Single)
    requires
        abs_mag.finite(),
        n.finite(),
        size(abs_mag.units()) <= 1000 * pow2(149),
        size(n.units()) <= pow2(158),
    ensures
        ({
            let r = abs_mag.sum((Single { bits: 0x40a0_0000 /* 5.0 */ }).product(n));
            r.finite() && near(
                r.units(),
                abs_mag.units() + 5 * n.units(),
                (pow2(137) + pow2(136)) as int,
            )
        }),
{
    let five = Single { bits: 0x40a0_0000 /* 5.0 */ };
    lemma_magnitude_scales();
    lemma_single_format();
    lemma2_to64();
    lemma_pow2_adds(21, 128);
    assert(five.code() / 0x80_0000 == 129 && five.code() % 0x80_0000 == 0x20_0000);
    assert(five.units() == 0xa0_0000 * pow2(128));
    let (u, x) = (pow2(149) as int, n.units());
    assert(five.units() == 5 * u);
    assert((5 * u) * x == (5 * x) * u) by (nonlinear_arith);
    assert(size((5 * x) * u) <= pow2(161) * pow2(149)) by (nonlinear_arith)
        requires
            -(0x200_0000 * pow2(133)) <= x <= 0x200_0000 * pow2(133),
            pow2(161) == 0x1000_0000 * pow2(133),
            u == pow2(149),
            u > 0,
    {
        let b = 0xa00_0000 * pow2(133);
        assert(-(b * u) <= (5 * x) * u && (5 * x) * u <= b * u);
        assert(b * u <= pow2(161) * u);
    }
    let p = five.product(n);
    lemma_single_product_error(five, n, 139);
    let y = p.units();
    assert(2 * size(y - 5 * x) <= pow2(137)) by (nonlinear_arith)
        requires
            2 * size(y * u - (5 * x) * u) <= pow2(137) * u,
            u > 0,
    {
        assert(y * u - (5 * x) * u == (y - 5 * x) * u);
        if y >= 5 * x {
            assert(2 * (y - 5 * x) * u <= pow2(137) * u);
        } else {
            assert(2 * (5 * x - y) * u <= pow2(137) * u);
        }
    }
    lemma_single_sum_error(abs_mag, p, 140);
}

/// The distance modulus: the apparent magnitude is the absolute one plus five times what the
/// logarithm of the distance exceeds one by, nearer than ten parsecs and farther, within one part
/// in 2048 of a magnitude.
pub proof fn law_distance_modulus(abs_mag: Single, log: Double)
    requires
        abs_mag.finite(),
        log.finite(),
        size(abs_mag.units()) <= 1000 * pow2(149),
        size(log.units()) <= 400 * pow2(1074),
    ensures
        dimmed(abs_mag, log).finite(),
        near(
            dimmed(abs_mag, log).units() * pow2(925),
            abs_mag.units() * pow2(925) + 5 * (log.units() - pow2(1074)),
            (pow2(138) * pow2(925)) as int,
        ),
{
    let one = Double { bits: ONE };
    lemma_magnitude_scales();
    lemma2_to64();
    lemma_power_code(0);
    assert(one.code() == power_code(0));
    lemma_pow2_pos(1074);
    lemma_pow2_adds(9, 1074);
    lemma_difference_error(log, one, 1032);
    let d = log.difference(one);
    lemma_pow2_adds(158, 925);
    lemma_narrowed_error(d, 136);
    let n = d.narrowed();
    lemma_five_times(abs_mag, n);
    let r = dimmed(abs_mag, log);
    // The error of the subtraction is far below that of the narrowing.
    let w = pow2(925) as int;
    lemma_pow2_pos(925);
    lemma_pow2_adds(105, 925);
    lemma_pow2_adds(28, 105);
    lemma_pow2_pos(105);
    let (b, t) = (pow2(133) as int, pow2(105) as int);
    assert(near(n.units() * w, log.units() - pow2(1074), b * w + t * w)) by (nonlinear_arith)
        requires
            2 * size(n.units() * w - d.units()) <= (2 * b) * w,
            2 * size(d.units() - (log.units() - pow2(1074))) <= t * w,
            t * w >= 0,
    ;
    let c = 24 * b;
    assert(near(r.units() * w, (abs_mag.units() + 5 * n.units()) * w, c * w)) by (nonlinear_arith)
        requires
            near(r.units(), abs_mag.units() + 5 * n.units(), c),
            w > 0,
    ;
    assert((abs_mag.units() + 5 * n.units()) * w == abs_mag.units() * w + 5 * (n.units() * w))
        by (nonlinear_arith);
    assert(c * w + 5 * (b * w + t * w) <= pow2(138) * w) by (nonlinear_arith)
        requires
            c == 24 * b,
            0 <= t <= b,
            pow2(138) == 0x20 * b,
            w > 0,
            5 * t <= 3 * b,
    ;
}

/// A star that is ten times nearer is five magnitudes brighter, wherever it is.
pub proof fn law_ten_times_nearer_is_five_magnitudes_brighter(
    abs_mag: Single,
    near_log: Double,
    far_log: Double,
)
    requires
        abs_mag.finite(),
        near_log.finite(),
        far_log.finite(),
        size(abs_mag.units()) <= 1000 * pow2(149),
        size(near_log.units()) <= 400 * pow2(1074),
        size(far_log.units()) <= 400 * pow2(1074),
        far_log.units() == near_log.units() + pow2(1074),
    ensures
        near(
            dimmed(abs_mag, far_log).units() - dimmed(abs_mag, near_log).units(),
            (5 * pow2(149)) as int,
            pow2(139) as int,
        ),
{
    law_distance_modulus(abs_mag, near_log);
    law_distance_modulus(abs_mag, far_log);
    lemma_pow2_adds(149, 925);
    lemma_pow2_pos(925);
    lemma_magnitude_scales();
    let w = pow2(925) as int;
    let (a, b) = (dimmed(abs_mag, near_log).units(), dimmed(abs_mag, far_log).units());
    let m = abs_mag.units() * w;
    let (x, y) = (near_log.units(), far_log.units());
    assert(near(b - a, (5 * pow2(149)) as int, pow2(139) as int)) by (nonlinear_arith)
        requires
            near(a * w, m + 5 * (x - pow2(1074)), (pow2(138) * pow2(925)) as int),
            near(b * w, m + 5 * (y - pow2(1074)), (pow2(138) * pow2(925)) as int),
            y == x + pow2(1074),
            pow2(1074) == pow2(149) * pow2(925),
            w == pow2(925),
            pow2(139) == 2 * pow2(138),
            w > 0,
    {
        let t = pow2(138) as int;
        let f = 5 * pow2(149);
        assert(f * w == 5 * (pow2(149) * pow2(925)));
        assert((b - a - f) * w <= (2 * t) * w);
        assert((f - (b - a)) * w <= (2 * t) * w);
    }
}

/// A distance in parsecs is the one in meters over the length of a parsec, up to rounding, and a
/// millionth where that is less.
pub proof fn law_parsecs_measure_the_distance(distance_m: Double)
    requires
        within(distance_m, 900),
        distance_m.units() >= 0,
    ensures
        ({
            let r = parsecs(distance_m);
            let (parsec, least) = ((Double { bits: METERS_PER_PARSEC }).units(), Double { bits: 0x3eb0_c6f7_a0b5_ed8d /* 1e-6 */ });
            let exact = distance_m.units() * pow2(1074);
            &&& r.finite()
            &&& least.at_most(r)
            &&& 2 * (least.units() * parsec) <= exact ==> close(r.units() * parsec, exact, 53)
            &&& 2 * exact <= least.units() * parsec ==> r == least
        }),
{
    let (parsec, least) = (Double { bits: METERS_PER_PARSEC }, Double { bits: 0x3eb0_c6f7_a0b5_ed8d /* 1e-6 */ });
    let inf = DOUBLE_INF as nat;
    let (n, u, d) = (
        code_units(distance_m.code(), 52),
        pow2(1074),
        code_units(parsec.code(), 52),
    );
    let l = code_units(least.code(), 52);
    let q = distance_m.quotient(parsec);
    lemma_pow2_pos(52);
    lemma_pow2_pos(1074);
    assert(code_units(0, 52) == 0);
    lemma_code_units_increases(0, parsec.code(), 52);
    lemma_code_units_increases(0, least.code(), 52);
    lemma_parsecs_order(distance_m, distance_m);
    lemma_power_code(-30);
    lemma_code_units_ordered(power_code(-30), least.code(), 52);
    lemma_power_code(60);
    lemma_code_units_ordered(parsec.code(), power_code(60), 52);
    assert(l * d > 0 && 0 * u == 0) by (nonlinear_arith)
        requires
            l > 0,
            d > 0,
    ;
    assert(distance_m.units() == n && least.units() == l && parsec.units() == d);
    if distance_m.code() > 0 {
        lemma_code_units_increases(0, distance_m.code(), 52);
        let c = nearest_code(n * u, d, 52, inf);
        lemma_nearest_exists(n * u, d, 52, inf);
        assert(q.code() == c);
        if 2 * (l * d) <= n * u {
            lemma_pow2_strictly_increases(52, 1044);
            assert(pow2(52) * d <= n * u) by (nonlinear_arith)
                requires
                    2 * (l * d) <= n * u,
                    pow2(52) <= l,
                    d > 0,
            ;
            lemma_power_code(0);
            lemma_code_units_ordered(power_code(0), parsec.code(), 52);
            lemma_pow2_strictly_increases(1974, 2000);
            assert(n * u <= pow2(2000) * d) by (nonlinear_arith)
                requires
                    n <= pow2(1974),
                    pow2(1974) <= pow2(2000),
                    0 < u <= d,
            ;
            lemma_relative_error(n * u, d);
            let r = code_units(c, 52);
            assert(r as int * d >= 0) by (nonlinear_arith);
            assert(close((r * d) as int, (n * u) as int, 53));
            lemma_close_doubles((r * d) as int, (n * u) as int, 53);
            assert(r >= l) by (nonlinear_arith)
                requires
                    n * u <= 2 * (r * d),
                    2 * (l * d) <= n * u,
                    d > 0,
            ;
        }
        if 2 * (n * u) <= l * d {
            lemma_nearest_at_most(n * u, d, 52, inf, least.code());
            lemma_code_units_ordered(c, least.code(), 52);
            if c < least.code() {
                lemma_code_units_increases(c, least.code(), 52);
            }
        }
    }
}

/// The apparent magnitude at a distance is the absolute one plus five times what the logarithm of
/// the distance in parsecs exceeds one by.
pub proof fn law_apparent_magnitude_follows_the_distance<
    M: Fn(Elementary, Double, Double) -> Double,
>(maths: M, abs_mag: Single, distance_m: Double, log: Double)
    requires
        reliable(maths),
        call_ensures(maths, (Elementary::Log10, parsecs(distance_m), Double { bits: ZERO }), log),
        abs_mag.finite(),
        log.finite(),
        size(abs_mag.units()) <= 1000 * pow2(149),
        size(log.units()) <= 400 * pow2(1074),
    ensures
        near(
            apparent(maths, abs_mag, distance_m).units() * pow2(925),
            abs_mag.units() * pow2(925) + 5 * (log.units() - pow2(1074)),
            (pow2(138) * pow2(925)) as int,
        ),
{
    lemma_answer_is_value(
        maths,
        Elementary::Log10,
        parsecs(distance_m),
        Double { bits: ZERO },
        log,
    );
    law_distance_modulus(abs_mag, log);
}

/// The renderer's apparent magnitude follows the distance modulus too.
pub proof fn law_photometric_magnitude_follows_the_distance(abs_mag: Single, log: Double)
    requires
        abs_mag.finite(),
        log.finite(),
        size(abs_mag.units()) <= 1000 * pow2(149),
        size(log.units()) <= 400 * pow2(1074),
    ensures
        photometric_at(abs_mag, log).finite(),
        near(
            photometric_at(abs_mag, log).units() * pow2(925),
            abs_mag.units() * pow2(925) + 5 * (log.units() - pow2(1074)),
            (pow2(139) * pow2(925)) as int,
        ),
{
    let one = Single { bits: 0x3f80_0000 /* 1.0 */ };
    lemma_magnitude_scales();
    lemma2_to64();
    lemma_single_power_code(0);
    assert(one.code() == single_power_code(0));
    lemma_pow2_pos(1074);
    lemma_pow2_adds(149, 925);
    lemma_pow2_adds(158, 925);
    lemma_pow2_adds(9, 1074);
    lemma_narrowed_error(log, 136);
    let l = log.narrowed();
    let w = pow2(925) as int;
    let b = pow2(133) as int;
    lemma_pow2_pos(925);
    assert(size(l.units()) <= 401 * pow2(149)) by (nonlinear_arith)
        requires
            2 * size(l.units() * w - log.units()) <= (2 * b) * w,
            size(log.units()) <= 400 * (pow2(149) * w),
            pow2(149) == 0x1_0000 * b,
            w > 0,
            b > 0,
    {
        let x = l.units();
        let t = 401 * pow2(149);
        assert((400 * pow2(149) + b) * w <= t * w);
        assert(x * w <= t * w && -(t * w) <= x * w);
        assert(-(t * w) == (-t) * w);
    }
    lemma_single_difference_error(l, one, 136);
    let n = l.difference(one);
    lemma_five_times(abs_mag, n);
    let r = photometric_at(abs_mag, log);
    let (x, y) = (l.units(), n.units());
    assert(near(y * w, log.units() - pow2(1074), 2 * (b * w))) by (nonlinear_arith)
        requires
            2 * size(x * w - log.units()) <= (2 * b) * w,
            2 * size(y - (x - pow2(149))) <= 2 * b,
            pow2(1074) == pow2(149) * w,
            w > 0,
    {
        assert((y - (x - pow2(149))) * w <= b * w);
        assert(((x - pow2(149)) - y) * w <= b * w);
    }
    let c = 24 * b;
    assert(near(r.units() * w, (abs_mag.units() + 5 * y) * w, c * w)) by (nonlinear_arith)
        requires
            near(r.units(), abs_mag.units() + 5 * y, c),
            w > 0,
    ;
    assert((abs_mag.units() + 5 * y) * w == abs_mag.units() * w + 5 * (y * w)) by (nonlinear_arith);
    assert(c * w + 10 * (b * w) <= pow2(139) * w) by (nonlinear_arith)
        requires
            c == 24 * b,
            pow2(139) == 0x40 * b,
            w > 0,
            b > 0,
    ;
}

} // verus!
