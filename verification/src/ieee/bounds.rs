//! Bounds and order: results of operations stay below powers of two that bound the exact ones,
//! and larger operands do not give smaller results.
use vstd::arithmetic::div_mod::*;
use vstd::arithmetic::mul::*;
use vstd::arithmetic::power2::*;
use vstd::prelude::*;

use crate::ieee::convert::double_of_int;
use crate::ieee::double::{double_of, lemma_double_format, DOUBLE_INF};
use crate::ieee::encoding::{code_units, lemma_code_split, lemma_code_units_increases, Double};
use crate::ieee::exact::{
    lemma_half_up_of_whole, lemma_int_stays_below, lemma_nearest_at_most, lemma_nearest_exists,
    lemma_nearest_keeps_order, lemma_nearest_of_code,
};
use crate::ieee::rounding::{lemma_code_units_ordered, nearest_code};

verus! {

/// The magnitude of `x` is at most `2^k`.
pub open spec fn within(x: Double, k: int) -> bool {
    x.finite() && code_units(x.code(), 52) <= pow2((1074 + k) as nat)
}

/// The code of `2^k`.
pub open spec fn power_code(k: int) -> nat {
    ((1023 + k) * 0x10_0000_0000_0000) as nat
}

pub proof fn lemma_power_code(k: int)
    requires
        -1022 <= k <= 1023,
    ensures
        code_units(power_code(k), 52) == pow2((1074 + k) as nat),
        0 < power_code(k) < DOUBLE_INF,
{
    lemma_double_format();
    let q = pow2(52);
    let e = (1022 + k) as nat;
    lemma_code_split(e, q, 52);
    lemma_pow2_adds(52, e);
}

/// A magnitude of at most `2^k` is `within` it, whatever code it has.
proof fn lemma_code_within(neg: bool, c: nat, k: int)
    requires
        -1022 <= k <= 1023,
        c <= power_code(k),
    ensures
        within(double_of((neg, c)), k),
        double_of((neg, c)).code() == c,
        double_of((neg, c)).negative() == neg,
{
    lemma_power_code(k);
    lemma_code_units_ordered(c, power_code(k), 52);
}

/// The sum of two numbers within `2^k` is within `2^(k+1)`.
pub proof fn lemma_sum_within(a: Double, b: Double, k: int)
    requires
        -1022 <= k < 1023,
        within(a, k),
        within(b, k),
    ensures
        within(a.sum(b), k + 1),
        within(a.difference(b), k + 1),
{
    lemma_opposite_within(b, k);
    lemma_plain_sum_within(a, b, k);
    lemma_plain_sum_within(a, b.opposite(), k);
}

pub proof fn lemma_opposite_within(b: Double, k: int)
    requires
        within(b, k),
    ensures
        within(b.opposite(), k),
        b.opposite().code() == b.code(),
        b.opposite().units() == -b.units(),
        b.opposite().negative() == !b.negative(),
{
}

proof fn lemma_plain_sum_within(a: Double, b: Double, k: int)
    requires
        -1022 <= k < 1023,
        within(a, k),
        within(b, k),
    ensures
        within(a.sum(b), k + 1),
{
    lemma_pow2_unfold((1075 + k) as nat);
    lemma_power_code(k + 1);
    let s = a.units() + b.units();
    let m = if s < 0 {
        (-s) as nat
    } else {
        s as nat
    };
    let inf = DOUBLE_INF as nat;
    if s == 0 {
        lemma_code_within(a.negative() && b.negative(), 0, k + 1);
    } else {
        lemma_nearest_at_most(m, 1, 52, inf, power_code(k + 1));
        lemma_code_within(s < 0, nearest_code(m, 1, 52, inf), k + 1);
    }
}

/// The product of two numbers within `2^j` and `2^k` is within `2^(j+k)`.
pub proof fn lemma_product_within(a: Double, j: int, b: Double, k: int)
    requires
        -1022 <= j <= 1023,
        -1022 <= k <= 1023,
        -1022 <= j + k <= 1023,
        within(a, j),
        within(b, k),
    ensures
        within(a.product(b), j + k),
{
    let (x, y) = (code_units(a.code(), 52), code_units(b.code(), 52));
    let (pj, pk, pr, pu) = (
        pow2((1074 + j) as nat),
        pow2((1074 + k) as nat),
        pow2((1074 + j + k) as nat),
        pow2(1074),
    );
    lemma_pow2_adds((1074 + j) as nat, (1074 + k) as nat);
    lemma_pow2_adds((1074 + j + k) as nat, 1074);
    lemma_pow2_pos(1074);
    assert(x * y <= pj * pk) by (nonlinear_arith)
        requires
            0 <= x <= pj,
            0 <= y <= pk,
    ;
    lemma_power_code(j + k);
    let inf = DOUBLE_INF as nat;
    lemma_nearest_at_most(x * y, pu, 52, inf, power_code(j + k));
    lemma_code_within(
        a.negative() != b.negative(),
        nearest_code(x * y, pu, 52, inf),
        j + k,
    );
}

/// The code of a power of two as a converted integer.
pub proof fn lemma_power_of_two_int(d: nat)
    requires
        d <= 127,
    ensures
        double_of_int(pow2(d) as int).code() == power_code(d as int),
        !double_of_int(pow2(d) as int).negative(),
        double_of_int(pow2(d) as int).finite(),
{
    lemma_power_code(d as int);
    lemma_pow2_adds(d, 1074);
    lemma_nearest_of_code(power_code(d as int), 1, 52, DOUBLE_INF as nat);
    let n = pow2(d) * pow2(1074);
    assert(n * 1 == n) by (nonlinear_arith);
}

/// Dividing by a power of two is exact, unless the number is so small that it loses precision.
pub proof fn lemma_quotient_by_power(a: Double, b: Double, d: nat)
    requires
        d <= 1000,
        b.code() == power_code(d as int),
        !b.negative(),
        a.finite(),
        a.code() >= (d + 1) * 0x10_0000_0000_0000,
    ensures
        a.quotient(b).finite(),
        a.quotient(b).negative() == a.negative(),
        a.quotient(b).units() * pow2(d) == a.units(),
{
    lemma_double_format();
    lemma_power_code(d as int);
    let q = pow2(52);
    let c = a.code();
    let (e, f) = (c / q, c % q);
    assert(e >= d + 1) by (nonlinear_arith)
        requires
            c == e * q + f,
            f < q,
            c >= (d + 1) * q,
            q > 0,
    ;
    let m = f + q;
    let (x, y) = ((e - 1) as nat, (e - 1 - d) as nat);
    let r = y * q + m;
    assert(x * q + m == c && r + d * q == c) by (nonlinear_arith)
        requires
            c == e * q + f,
            m == f + q,
            x == e - 1,
            y == e - 1 - d,
            r == y * q + m,
    ;
    lemma_code_split(x, m, 52);
    lemma_code_split(y, m, 52);
    lemma_pow2_adds(y, d);
    lemma_pow2_adds(d, 1074);
    let (u, v, h, t) = (code_units(c, 52), code_units(r, 52), pow2(d), pow2(1074));
    assert(u == v * h) by (nonlinear_arith)
        requires
            u == m * pow2(x),
            v == m * pow2(y),
            pow2(x) == pow2(y) * h,
    ;
    assert(u * t == v * (h * t)) by (nonlinear_arith)
        requires
            u == v * h,
    ;
    lemma_pow2_pos(d);
    lemma_pow2_pos(1074);
    lemma_pow2_pos((1074 + d) as nat);
    lemma_nearest_of_code(r, pow2((1074 + d) as nat), 52, DOUBLE_INF as nat);
    assert(-(v as int) * h == -(v * h)) by (nonlinear_arith);
}

/// Dividing by a power of two lowers the bound by as much.
pub proof fn lemma_scaled_within(a: Double, k: int, d: nat)
    requires
        d <= 127,
        -800 <= k <= 1023,
        within(a, k),
    ensures
        within(a.quotient(double_of_int(pow2(d) as int)), k - d),
{
    lemma_power_of_two_int(d);
    lemma_power_code(d as int);
    lemma_power_code(k - d);
    let b = double_of_int(pow2(d) as int);
    let x = code_units(a.code(), 52);
    let (n, t) = (x * pow2(1074), pow2((1074 + d) as nat));
    lemma_pow2_adds((1074 + k - d) as nat, (1074 + d) as nat);
    lemma_pow2_adds((1074 + k) as nat, 1074);
    lemma_pow2_pos((1074 + d) as nat);
    lemma_pow2_pos(1074);
    assert(n <= pow2((1074 + k - d) as nat) * t) by (nonlinear_arith)
        requires
            n == x * pow2(1074),
            0 <= x <= pow2((1074 + k) as nat),
            pow2((1074 + k - d) as nat) * t == pow2((1074 + k) as nat) * pow2(1074),
            pow2(1074) > 0,
    ;
    let inf = DOUBLE_INF as nat;
    if a.code() == 0 {
        lemma_code_within(a.negative() != b.negative(), 0, k - d);
    } else {
        lemma_nearest_at_most(n, t, 52, inf, power_code(k - d));
        lemma_code_within(a.negative() != b.negative(), nearest_code(n, t, 52, inf), k - d);
    }
}

/// A converted integer of up to `2^k` is within it.
pub proof fn lemma_int_within(x: int, k: nat)
    requires
        k <= 900,
        -(pow2(k) as int) <= x <= pow2(k),
    ensures
        within(double_of_int(x), k as int),
{
    lemma_int_stays_below(x, k);
    lemma_power_code(k as int);
    let r = double_of_int(x);
    lemma_code_units_ordered(r.code(), power_code(k as int), 52);
}

/// The whole number nearest to something within `2^k` is within it.
pub proof fn lemma_whole_within(x: Double, k: nat)
    requires
        within(x, k as int),
    ensures
        -(pow2(k) as int) <= x.nearest_int() <= pow2(k),
{
    let n = code_units(x.code(), 52);
    lemma_pow2_adds(k, 1074);
    lemma_half_up_of_whole(pow2(k), 1074);
    lemma_pow2_pos(1075);
    lemma_div_is_ordered(
        (2 * n + pow2(1074)) as int,
        (2 * (pow2(k) * pow2(1074)) + pow2(1074)) as int,
        pow2(1075) as int,
    );
}

/// Zero is within everything, and a number with a smaller bound is within a larger one.
pub proof fn lemma_within_grows(x: Double, j: int, k: int)
    requires
        -1074 <= j <= k,
        within(x, j),
    ensures
        within(x, k),
{
    if j < k {
        lemma_pow2_strictly_increases((1074 + j) as nat, (1074 + k) as nat);
    }
}

/// The value of the number to which `s` units round.
pub open spec fn rounded_units(s: int) -> int {
    if s < 0 {
        -(code_units(nearest_code((-s) as nat, 1, 52, DOUBLE_INF as nat), 52) as int)
    } else {
        code_units(nearest_code(s as nat, 1, 52, DOUBLE_INF as nat), 52) as int
    }
}

/// Of two values the larger does not round below the smaller.
pub proof fn lemma_rounding_keeps_order(s: int, t: int)
    requires
        s <= t,
    ensures
        rounded_units(s) <= rounded_units(t),
{
    let inf = DOUBLE_INF as nat;
    if s >= 0 {
        lemma_nearest_keeps_order(s as nat, t as nat, 1, 52, inf);
        lemma_code_units_ordered(
            nearest_code(s as nat, 1, 52, inf),
            nearest_code(t as nat, 1, 52, inf),
            52,
        );
    } else if t < 0 {
        lemma_nearest_keeps_order((-t) as nat, (-s) as nat, 1, 52, inf);
        lemma_code_units_ordered(
            nearest_code((-t) as nat, 1, 52, inf),
            nearest_code((-s) as nat, 1, 52, inf),
            52,
        );
    }
}

/// A number rounds to itself.
pub proof fn lemma_rounds_to_itself(x: Double)
    requires
        x.finite(),
    ensures
        rounded_units(x.units()) == x.units(),
{
    let inf = DOUBLE_INF as nat;
    let n = code_units(x.code(), 52);
    lemma_nearest_of_code(x.code(), 1, 52, inf);
    assert(n * 1 == n) by (nonlinear_arith);
    if n == 0 {
        lemma_zero_code(x.code());
        lemma_nearest_of_code(0, 1, 52, inf);
        lemma_pow2_pos(52);
    }
}

proof fn lemma_zero_code(c: nat)
    requires
        code_units(c, 52) == 0,
    ensures
        c == 0,
{
    lemma_pow2_pos(52);
    if c > 0 {
        lemma_code_units_increases(0, c, 52);
    }
}

/// The value of a sum of finite numbers is the rounded exact sum.
pub proof fn lemma_sum_units(a: Double, b: Double)
    requires
        a.finite(),
        b.finite(),
    ensures
        !a.sum(b).nan(),
        a.sum(b).units() == rounded_units(a.units() + b.units()),
{
    let s = a.units() + b.units();
    let inf = DOUBLE_INF as nat;
    let m = if s < 0 {
        (-s) as nat
    } else {
        s as nat
    };
    lemma_nearest_exists(m, 1, 52, inf);
    lemma_pow2_pos(52);
    if s == 0 {
        lemma_nearest_of_code(0, 1, 52, inf);
        assert(code_units(0, 52) * 1 == 0) by (nonlinear_arith)
            requires
                code_units(0, 52) == 0,
        ;
    }
}

/// A larger summand does not give a smaller sum.
pub proof fn lemma_sum_keeps_order(x: Double, a: Double, b: Double)
    requires
        x.finite(),
        a.finite(),
        b.finite(),
        a.at_most(b),
    ensures
        x.sum(a).at_most(x.sum(b)),
{
    lemma_sum_units(x, a);
    lemma_sum_units(x, b);
    lemma_rounding_keeps_order(x.units() + a.units(), x.units() + b.units());
}

/// Adding something that is not negative does not give less.
pub proof fn lemma_sum_is_no_less(x: Double, a: Double)
    requires
        x.finite(),
        a.finite(),
        a.units() >= 0,
    ensures
        x.at_most(x.sum(a)),
{
    lemma_sum_units(x, a);
    lemma_rounds_to_itself(x);
    lemma_rounding_keeps_order(x.units(), x.units() + a.units());
}

/// A part of a length, for a factor from zero to one, is not negative and not more than the
/// length.
pub proof fn lemma_part_of_length(u: Double, size: Double)
    requires
        u.finite(),
        !u.negative(),
        code_units(u.code(), 52) <= pow2(1074),
        size.finite(),
        size.units() >= 0,
    ensures
        u.product(size).finite(),
        u.product(size).units() >= 0,
        u.product(size).at_most(size),
{
    let (x, y, d) = (code_units(u.code(), 52), code_units(size.code(), 52), pow2(1074));
    let inf = DOUBLE_INF as nat;
    lemma_pow2_pos(1074);
    assert(x * y <= y * d) by (nonlinear_arith)
        requires
            0 <= x <= d,
            y >= 0,
    ;
    lemma_nearest_at_most(x * y, d, 52, inf, size.code());
    let c = nearest_code(x * y, d, 52, inf);
    lemma_code_units_ordered(c, size.code(), 52);
    if size.negative() {
        // Minus zero: the product is a zero too.
        assert(y == 0);
        lemma_zero_code(size.code());
    }
    lemma_pow2_pos(52);
}

} // verus!
