//! How far the results of operations are from the exact ones, whatever the signs.
//!
//! A bound `e` stands for a binade: a result of at most `2^(p + e - 1)` units is off by at most
//! `2^(e - 3)` units in a format with `p` fraction bits.
use vstd::arithmetic::div_mod::*;
use vstd::arithmetic::power2::*;
use vstd::prelude::*;

use crate::ieee::double::{lemma_double_format, DOUBLE_INF};
use crate::ieee::encoding::{
    code_units, lemma_code_split, lemma_code_units_increases, Double, Single,
};
use crate::ieee::error::{lemma_relative_error, lemma_rounding_error};
use crate::ieee::exact::{
    lemma_has_digits, lemma_nearest_at_most, lemma_nearest_of_code, lemma_whole_number_code,
};
use crate::ieee::rounding::nearest_code;
use crate::ieee::single::{lemma_single_format, SINGLE_INF};

verus! {

/// `x` and `y` differ by at most `t`.
pub open spec fn near(x: int, y: int, t: int) -> bool {
    x - y <= t && y - x <= t
}

/// The magnitude of `x`.
pub open spec fn size(x: int) -> nat {
    if x < 0 {
        (-x) as nat
    } else {
        x as nat
    }
}

/// What `n / d` rounds to is off by at most half a step, finite, and zero where `n` is.
pub proof fn lemma_nearest_error(n: nat, d: nat, p: nat, inf: nat, e: nat)
    requires
        d > 0,
        e >= 2,
        e * pow2(p) < inf,
        n <= pow2((p + e - 1) as nat) * d,
    ensures
        ({
            let c = nearest_code(n, d, p, inf);
            let r = code_units(c, p);
            &&& 2 * (r * d - n) <= pow2((e - 2) as nat) * d
            &&& 2 * (n - r * d) <= pow2((e - 2) as nat) * d
            &&& r <= pow2((p + e - 1) as nat)
            &&& c < inf
            &&& n == 0 ==> c == 0
        }),
{
    lemma_rounding_error(n, d, p, inf, e);
    lemma_pow2_pos(p);
    let top = e * pow2(p);
    let q = pow2(p);
    lemma_code_split((e - 1) as nat, q, p);
    assert((e - 1) as nat * q + q == top) by (nonlinear_arith)
        requires
            top == e * q,
            e >= 1,
    ;
    lemma_pow2_adds(p, (e - 1) as nat);
    lemma_nearest_at_most(n, d, p, inf, top);
    if n == 0 {
        assert(code_units(0, p) * d == 0) by (nonlinear_arith)
            requires
                code_units(0, p) == 0,
        ;
        lemma_nearest_at_most(n, d, p, inf, 0);
    }
}

proof fn lemma_double_bound(e: nat)
    requires
        2 <= e <= 2046,
    ensures
        e * pow2(52) < DOUBLE_INF,
{
    lemma_double_format();
    assert(e * pow2(52) < DOUBLE_INF) by (nonlinear_arith)
        requires
            e <= 2046,
            pow2(52) == 0x10_0000_0000_0000,
            DOUBLE_INF == 0x7ff0_0000_0000_0000,
    ;
}

proof fn lemma_single_bound(e: nat)
    requires
        2 <= e <= 254,
    ensures
        e * pow2(23) < SINGLE_INF,
{
    lemma_single_format();
    assert(e * pow2(23) < SINGLE_INF) by (nonlinear_arith)
        requires
            e <= 254,
            pow2(23) == 0x80_0000,
            SINGLE_INF == 0x7f80_0000,
    ;
}

/// A sum, rounded.
pub proof fn lemma_sum_error(a: Double, b: Double, e: nat)
    requires
        a.finite(),
        b.finite(),
        2 <= e <= 2046,
        size(a.units() + b.units()) <= pow2((51 + e) as nat),
    ensures
        a.sum(b).finite(),
        2 * size(a.sum(b).units() - (a.units() + b.units())) <= pow2((e - 2) as nat),
        size(a.sum(b).units()) <= pow2((51 + e) as nat),
        a.units() + b.units() >= 0 ==> a.sum(b).units() >= 0,
        a.units() + b.units() <= 0 ==> a.sum(b).units() <= 0,
{
    let s = a.units() + b.units();
    let n = size(s);
    lemma_double_bound(e);
    lemma_pow2_pos(52);
    lemma_pow2_pos((e - 2) as nat);
    assert(n * 1 == n);
    assert(pow2((51 + e) as nat) * 1 == pow2((51 + e) as nat));
    lemma_nearest_error(n, 1, 52, DOUBLE_INF as nat, e);
}

/// A difference, rounded.
pub proof fn lemma_difference_error(a: Double, b: Double, e: nat)
    requires
        a.finite(),
        b.finite(),
        2 <= e <= 2046,
        size(a.units() - b.units()) <= pow2((51 + e) as nat),
    ensures
        a.difference(b).finite(),
        2 * size(a.difference(b).units() - (a.units() - b.units())) <= pow2((e - 2) as nat),
        size(a.difference(b).units()) <= pow2((51 + e) as nat),
        a.units() - b.units() >= 0 ==> a.difference(b).units() >= 0,
        a.units() - b.units() <= 0 ==> a.difference(b).units() <= 0,
{
    assert(b.opposite().units() == -b.units());
    lemma_sum_error(a, b.opposite(), e);
}

/// A product, rounded.
pub proof fn lemma_product_error(a: Double, b: Double, e: nat)
    requires
        a.finite(),
        b.finite(),
        2 <= e <= 2046,
        size(a.units() * b.units()) <= pow2((51 + e) as nat) * pow2(1074),
    ensures
        a.product(b).finite(),
        2 * size(a.product(b).units() * pow2(1074) - a.units() * b.units()) <= pow2((e - 2) as nat)
            * pow2(1074),
        size(a.product(b).units()) <= pow2((51 + e) as nat),
        a.units() * b.units() >= 0 ==> a.product(b).units() >= 0,
        a.units() * b.units() <= 0 ==> a.product(b).units() <= 0,
{
    let (x, y) = (code_units(a.code(), 52) as int, code_units(b.code(), 52) as int);
    let n = (x * y) as nat;
    let u = pow2(1074) as int;
    lemma_double_bound(e);
    lemma_pow2_pos(52);
    lemma_pow2_pos(1074);
    assert(x * y >= 0 && (-x) * y == -(x * y) && x * (-y) == -(x * y) && (-x) * (-y) == x * y)
        by (nonlinear_arith)
        requires
            x >= 0,
            y >= 0,
    ;
    assert(size(a.units() * b.units()) == n);
    assert(code_units(a.code(), 52) * code_units(b.code(), 52) == n);
    lemma_nearest_error(n, pow2(1074), 52, DOUBLE_INF as nat, e);
    let r = code_units(nearest_code(n, pow2(1074), 52, DOUBLE_INF as nat), 52) as int;
    assert((-r) * u == -(r * u)) by (nonlinear_arith);
    assert(code_units(a.product(b).code(), 52) == r);
}

/// A quotient, rounded.
pub proof fn lemma_quotient_error(a: Double, b: Double, e: nat)
    requires
        a.finite(),
        b.finite(),
        b.units() > 0,
        2 <= e <= 2046,
        size(a.units()) * pow2(1074) <= pow2((51 + e) as nat) * b.units(),
    ensures
        a.quotient(b).finite(),
        2 * size(a.quotient(b).units() * b.units() - a.units() * pow2(1074)) <= pow2(
            (e - 2) as nat,
        ) * b.units(),
        size(a.quotient(b).units()) <= pow2((51 + e) as nat),
        a.units() >= 0 ==> a.quotient(b).units() >= 0,
        a.units() <= 0 ==> a.quotient(b).units() <= 0,
{
    let (x, y) = (code_units(a.code(), 52), code_units(b.code(), 52));
    let u = pow2(1074);
    lemma_double_bound(e);
    lemma_pow2_pos(52);
    lemma_pow2_pos(1074);
    lemma_pow2_pos((e - 2) as nat);
    assert(code_units(0, 52) == 0);
    assert(!b.negative() && b.code() > 0);
    if a.code() > 0 {
        lemma_code_units_increases(0, a.code(), 52);
        let n = x * u;
        lemma_nearest_error(n, y, 52, DOUBLE_INF as nat, e);
        let r = code_units(nearest_code(n, y, 52, DOUBLE_INF as nat), 52) as int;
        let (yi, xi) = (y as int, x as int);
        assert((-r) * yi == -(r * yi) && (-xi) * u == -(xi * u)) by (nonlinear_arith);
        assert(code_units(a.quotient(b).code(), 52) == r);
    } else {
        assert(0 * y == 0 && 0 * u == 0 && pow2((e - 2) as nat) * y >= 0) by (nonlinear_arith);
    }
}

/// A `binary64` number, narrowed.
pub proof fn lemma_narrowed_error(a: Double, e: nat)
    requires
        a.finite(),
        2 <= e <= 254,
        size(a.units()) <= pow2((22 + e) as nat) * pow2(925),
    ensures
        a.narrowed().finite(),
        2 * size(a.narrowed().units() * pow2(925) - a.units()) <= pow2((e - 2) as nat) * pow2(925),
        size(a.narrowed().units()) <= pow2((22 + e) as nat),
        a.units() >= 0 ==> a.narrowed().units() >= 0,
        a.units() <= 0 ==> a.narrowed().units() <= 0,
{
    let n = code_units(a.code(), 52);
    let w = pow2(925) as int;
    lemma_single_bound(e);
    lemma_pow2_pos(23);
    lemma_pow2_pos(925);
    lemma_nearest_error(n, pow2(925), 23, SINGLE_INF as nat, e);
    let r = code_units(nearest_code(n, pow2(925), 23, SINGLE_INF as nat), 23) as int;
    assert((-r) * w == -(r * w)) by (nonlinear_arith);
    assert(code_units(a.narrowed().code(), 23) == r);
}

/// A `binary32` sum, rounded.
pub proof fn lemma_single_sum_error(a: Single, b: Single, e: nat)
    requires
        a.finite(),
        b.finite(),
        2 <= e <= 254,
        size(a.units() + b.units()) <= pow2((22 + e) as nat),
    ensures
        a.sum(b).finite(),
        2 * size(a.sum(b).units() - (a.units() + b.units())) <= pow2((e - 2) as nat),
        size(a.sum(b).units()) <= pow2((22 + e) as nat),
        a.units() + b.units() >= 0 ==> a.sum(b).units() >= 0,
        a.units() + b.units() <= 0 ==> a.sum(b).units() <= 0,
{
    let s = a.units() + b.units();
    let n = size(s);
    lemma_single_bound(e);
    lemma_pow2_pos(23);
    lemma_pow2_pos((e - 2) as nat);
    assert(n * 1 == n);
    assert(pow2((22 + e) as nat) * 1 == pow2((22 + e) as nat));
    lemma_nearest_error(n, 1, 23, SINGLE_INF as nat, e);
}

/// A `binary32` difference, rounded.
pub proof fn lemma_single_difference_error(a: Single, b: Single, e: nat)
    requires
        a.finite(),
        b.finite(),
        2 <= e <= 254,
        size(a.units() - b.units()) <= pow2((22 + e) as nat),
    ensures
        a.difference(b).finite(),
        2 * size(a.difference(b).units() - (a.units() - b.units())) <= pow2((e - 2) as nat),
        size(a.difference(b).units()) <= pow2((22 + e) as nat),
        a.units() - b.units() >= 0 ==> a.difference(b).units() >= 0,
        a.units() - b.units() <= 0 ==> a.difference(b).units() <= 0,
{
    assert(b.opposite().units() == -b.units());
    lemma_single_sum_error(a, b.opposite(), e);
}

/// A `binary32` product, rounded.
pub proof fn lemma_single_product_error(a: Single, b: Single, e: nat)
    requires
        a.finite(),
        b.finite(),
        2 <= e <= 254,
        size(a.units() * b.units()) <= pow2((22 + e) as nat) * pow2(149),
    ensures
        a.product(b).finite(),
        2 * size(a.product(b).units() * pow2(149) - a.units() * b.units()) <= pow2((e - 2) as nat)
            * pow2(149),
        size(a.product(b).units()) <= pow2((22 + e) as nat),
        a.units() * b.units() >= 0 ==> a.product(b).units() >= 0,
        a.units() * b.units() <= 0 ==> a.product(b).units() <= 0,
{
    let (x, y) = (code_units(a.code(), 23) as int, code_units(b.code(), 23) as int);
    let n = (x * y) as nat;
    let u = pow2(149) as int;
    lemma_single_bound(e);
    lemma_pow2_pos(23);
    lemma_pow2_pos(149);
    assert(x * y >= 0 && (-x) * y == -(x * y) && x * (-y) == -(x * y) && (-x) * (-y) == x * y)
        by (nonlinear_arith)
        requires
            x >= 0,
            y >= 0,
    ;
    assert(size(a.units() * b.units()) == n);
    assert(code_units(a.code(), 23) * code_units(b.code(), 23) == n);
    lemma_nearest_error(n, pow2(149), 23, SINGLE_INF as nat, e);
    let r = code_units(nearest_code(n, pow2(149), 23, SINGLE_INF as nat), 23) as int;
    assert((-r) * u == -(r * u)) by (nonlinear_arith);
    assert(code_units(a.product(b).code(), 23) == r);
}

/// A `binary32` quotient, rounded.
pub proof fn lemma_single_quotient_error(a: Single, b: Single, e: nat)
    requires
        a.finite(),
        b.finite(),
        b.units() > 0,
        2 <= e <= 254,
        size(a.units()) * pow2(149) <= pow2((22 + e) as nat) * b.units(),
    ensures
        a.quotient(b).finite(),
        2 * size(a.quotient(b).units() * b.units() - a.units() * pow2(149)) <= pow2(
            (e - 2) as nat,
        ) * b.units(),
        size(a.quotient(b).units()) <= pow2((22 + e) as nat),
        a.units() >= 0 ==> a.quotient(b).units() >= 0,
        a.units() <= 0 ==> a.quotient(b).units() <= 0,
{
    let (x, y) = (code_units(a.code(), 23), code_units(b.code(), 23));
    let u = pow2(149);
    lemma_single_bound(e);
    lemma_pow2_pos(23);
    lemma_pow2_pos(149);
    lemma_pow2_pos((e - 2) as nat);
    assert(code_units(0, 23) == 0);
    assert(!b.negative() && b.code() > 0);
    if a.code() > 0 {
        lemma_code_units_increases(0, a.code(), 23);
        let n = x * u;
        lemma_nearest_error(n, y, 23, SINGLE_INF as nat, e);
        let r = code_units(nearest_code(n, y, 23, SINGLE_INF as nat), 23) as int;
        let (yi, xi) = (y as int, x as int);
        assert((-r) * yi == -(r * yi) && (-xi) * u == -(xi * u)) by (nonlinear_arith);
        assert(code_units(a.quotient(b).code(), 23) == r);
    } else {
        assert(0 * y == 0 && 0 * u == 0 && pow2((e - 2) as nat) * y >= 0) by (nonlinear_arith);
    }
}

/// Widening is exact.
pub proof fn lemma_widened_exact(a: Single)
    requires
        a.finite(),
    ensures
        a.widened().finite(),
        a.widened().negative() == a.negative(),
        a.widened().units() == a.units() * pow2(925),
{
    lemma_single_format();
    let n = code_units(a.code(), 23);
    let w = pow2(925);
    let q = pow2(23);
    let x: nat;
    let k: nat;
    if a.code() < q {
        x = a.code();
        k = 925;
    } else {
        x = a.code() % q + q;
        k = (a.code() / q - 1 + 925) as nat;
        lemma_pow2_adds((a.code() / q - 1) as nat, 925);
        assert(n * w == x * pow2(k)) by (nonlinear_arith)
            requires
                n == x * pow2((a.code() / q - 1) as nat),
                pow2(k) == pow2((a.code() / q - 1) as nat) * w,
        ;
        assert(a.code() / q <= 254);
    }
    let c = lemma_whole_number_code(x, k);
    assert(code_units(c, 52) == n * w);
    assert((n * w) * 1 == n * w);
    lemma_nearest_of_code(c, 1, 52, DOUBLE_INF as nat);
    let ni = n as int;
    assert((-ni) * w == -(ni * w)) by (nonlinear_arith);
}

/// A sum is off by at most one part in `2^53`.
pub proof fn lemma_sum_relative(a: Double, b: Double)
    requires
        a.finite(),
        b.finite(),
        size(a.units() + b.units()) <= pow2(2000),
    ensures
        a.sum(b).finite(),
        size(a.sum(b).units() - (a.units() + b.units())) * pow2(53) <= size(a.units() + b.units()),
        a.units() + b.units() >= 0 ==> a.sum(b).units() >= 0,
        a.units() + b.units() <= 0 ==> a.sum(b).units() <= 0,
{
    let s = a.units() + b.units();
    let n = size(s);
    lemma_double_format();
    lemma2_to64();
    lemma_sum_error(a, b, 1949);
    assert(n * 1 == n);
    if n >= pow2(52) {
        lemma_relative_error(n, 1);
        let r = code_units(nearest_code(n, 1, 52, DOUBLE_INF as nat), 52);
        assert(r * 1 == r);
        let x = a.sum(b).units();
        assert(size(x) == r);
        if r >= n {
            assert(size(x - s) == r - n);
        } else {
            assert(size(x - s) == n - r);
        }
    } else {
        lemma_sum_error(a, b, 2);
        assert(size(a.sum(b).units() - s) == 0);
        assert(0 * pow2(53) == 0) by (nonlinear_arith);
    }
}

/// A product is off by at most one part in `2^53`, and a unit.
pub proof fn lemma_product_relative(a: Double, b: Double)
    requires
        a.finite(),
        b.finite(),
        size(a.units() * b.units()) <= pow2(2000) * pow2(1074),
    ensures
        a.product(b).finite(),
        size(a.product(b).units() * pow2(1074) - a.units() * b.units()) * pow2(53) <= size(
            a.units() * b.units(),
        ) + pow2(53) * pow2(1074),
        a.units() * b.units() >= 0 ==> a.product(b).units() >= 0,
        a.units() * b.units() <= 0 ==> a.product(b).units() <= 0,
{
    let u = pow2(1074);
    let m = a.units() * b.units();
    let n = size(m);
    lemma_double_format();
    lemma2_to64();
    lemma_pow2_pos(1074);
    lemma_product_error(a, b, 1949);
    let (x, y) = (code_units(a.code(), 52) as int, code_units(b.code(), 52) as int);
    assert(x * y >= 0 && (-x) * y == -(x * y) && x * (-y) == -(x * y) && (-x) * (-y) == x * y)
        by (nonlinear_arith)
        requires
            x >= 0,
            y >= 0,
    ;
    assert(code_units(a.code(), 52) * code_units(b.code(), 52) == n);
    let p = a.product(b).units();
    if n >= pow2(52) * u {
        lemma_relative_error(n, u);
        let r = code_units(nearest_code(n, u, 52, DOUBLE_INF as nat), 52) as int;
        assert(size(p) == r);
        let ui = u as int;
        assert((-r) * ui == -(r * ui)) by (nonlinear_arith);
        let k = r * ui;
        assert(p * ui == k || p * ui == -k);
        if k >= n {
            assert(size(p * ui - m) == k - n);
        } else {
            assert(size(p * ui - m) == n - k);
        }
    } else {
        lemma_pow2_unfold(53);
        assert(n <= pow2(53) * u) by (nonlinear_arith)
            requires
                n < pow2(52) * u,
                pow2(53) == 2 * pow2(52),
                u > 0,
        ;
        lemma_product_error(a, b, 2);
        let k = size(p * u - m);
        assert(2 * k <= 1 * u);
        assert(k * pow2(53) <= pow2(53) * u) by (nonlinear_arith)
            requires
                k <= u,
        ;
    }
}

/// Where `binary32` numbers do not lose precision, rounding changes a value by at most one part
/// in `2^24`.
pub proof fn lemma_single_relative(n: nat, d: nat)
    requires
        d > 0,
        pow2(23) * d <= n <= pow2(270) * d,
    ensures
        ({
            let c = nearest_code(n, d, 23, SINGLE_INF as nat);
            let r = code_units(c, 23);
            &&& (r * d - n) * pow2(24) <= n
            &&& (n - r * d) * pow2(24) <= n
            &&& c < SINGLE_INF
        }),
{
    lemma_single_format();
    lemma2_to64();
    let x = n / d;
    lemma_fundamental_div_mod(n as int, d as int);
    lemma_mod_bound(n as int, d as int);
    let rest = n % d;
    assert(x >= pow2(23) && x <= pow2(270)) by (nonlinear_arith)
        requires
            n == d * x + rest,
            0 <= rest < d,
            pow2(23) * d <= n <= pow2(270) * d,
    ;
    let k = lemma_has_digits(x);
    if k < 23 {
        lemma_pow2_strictly_increases(k, 23);
    }
    if k - 1 > 270 {
        lemma_pow2_strictly_increases(270, (k - 1) as nat);
    }
    let (lo, hi) = (pow2((k - 1) as nat), pow2(k));
    assert(lo * d <= n <= hi * d) by (nonlinear_arith)
        requires
            n == d * x + rest,
            0 <= rest < d,
            lo <= x,
            x + 1 <= hi,
    ;
    let e = (k - 22) as nat;
    lemma_single_bound(e);
    lemma_nearest_error(n, d, 23, SINGLE_INF as nat, e);
    let r = code_units(nearest_code(n, d, 23, SINGLE_INF as nat), 23);
    let g = pow2((k - 24) as nat);
    lemma_pow2_adds((k - 24) as nat, 23);
    let (w, v) = (pow2(23), pow2(24));
    assert((r * d - n) * v <= n && (n - r * d) * v <= n) by (nonlinear_arith)
        requires
            2 * (r * d - n) <= g * d,
            2 * (n - r * d) <= g * d,
            lo == g * w,
            lo * d <= n,
            v == 2 * w,
            w > 0,
    ;
}

/// A `binary32` difference is off by at most one part in `2^24`.
pub proof fn lemma_single_difference_relative(a: Single, b: Single)
    requires
        a.finite(),
        b.finite(),
        size(a.units() - b.units()) <= pow2(270),
    ensures
        a.difference(b).finite(),
        size(a.difference(b).units() - (a.units() - b.units())) * pow2(24) <= size(
            a.units() - b.units(),
        ),
        a.units() - b.units() >= 0 ==> a.difference(b).units() >= 0,
        a.units() - b.units() <= 0 ==> a.difference(b).units() <= 0,
{
    let s = a.units() - b.units();
    let n = size(s);
    let c = b.opposite();
    assert(c.units() == -b.units());
    lemma2_to64();
    lemma_single_sum_error(a, c, 248);
    assert(n * 1 == n);
    if n >= pow2(23) {
        lemma_single_relative(n, 1);
        let r = code_units(nearest_code(n, 1, 23, SINGLE_INF as nat), 23);
        assert(r * 1 == r);
        let x = a.difference(b).units();
        assert(size(x) == r);
        if r >= n {
            assert(size(x - s) == r - n);
        } else {
            assert(size(x - s) == n - r);
        }
    } else {
        lemma_single_sum_error(a, c, 2);
        assert(size(a.difference(b).units() - s) == 0);
        assert(0 * pow2(24) == 0) by (nonlinear_arith);
    }
}

/// A `binary32` quotient of numbers that are not negative is off by at most one part in `2^24`,
/// and a unit.
pub proof fn lemma_single_quotient_relative(a: Single, b: Single)
    requires
        a.finite(),
        b.finite(),
        a.units() >= 0,
        b.units() > 0,
        a.units() * pow2(149) <= pow2(270) * b.units(),
    ensures
        a.quotient(b).finite(),
        a.quotient(b).units() >= 0,
        size(a.quotient(b).units() * b.units() - a.units() * pow2(149)) * pow2(24) <= a.units()
            * pow2(149) + pow2(24) * b.units(),
{
    let u = pow2(149);
    let (x, y) = (a.units() as nat, b.units() as nat);
    let n = x * u;
    lemma2_to64();
    lemma_pow2_pos(23);
    lemma_single_quotient_error(a, b, 248);
    let q = a.quotient(b).units();
    if n >= pow2(23) * y && a.code() > 0 {
        assert(b.code() > 0);
        lemma_single_relative(n, y);
        let r = code_units(nearest_code(n, y, 23, SINGLE_INF as nat), 23) as int;
        assert(size(q) == r);
    } else {
        if a.code() == 0 {
            assert(n == 0) by (nonlinear_arith)
                requires
                    n == x * u,
                    x == 0,
            ;
        }
        lemma_pow2_unfold(24);
        assert(n <= pow2(24) * y) by (nonlinear_arith)
            requires
                n < pow2(23) * y || n == 0,
                pow2(24) == 2 * pow2(23),
                y > 0,
        ;
        lemma_single_quotient_error(a, b, 2);
        let k = size(q * y - n);
        assert(2 * k <= 1 * y);
        assert(k * pow2(24) <= pow2(24) * y) by (nonlinear_arith)
            requires
                k <= y,
        ;
    }
}

/// The number that an encoding with a full significand `m` and an exponent stands for.
pub proof fn lemma_double_literal(x: Double, m: nat, k: nat)
    requires
        0x10_0000_0000_0000 <= m < 0x20_0000_0000_0000,
        k <= 2044,
        x.bits == k * 0x10_0000_0000_0000 + m,
    ensures
        x.finite(),
        !x.negative(),
        x.units() == m * pow2(k),
        x.units() > 0,
{
    lemma2_to64();
    lemma2_to64_rest();
    let p = pow2(52);
    assert(x.code() == x.bits as nat);
    assert((k * p + m) / p == k + 1 && (k * p + m) % p == m - p) by (nonlinear_arith)
        requires
            p == 0x10_0000_0000_0000,
            p <= m < 2 * p,
    ;
    assert(code_units(x.code(), 52) == m * pow2(k));
    lemma_pow2_pos(k);
    assert(m * pow2(k) > 0) by (nonlinear_arith)
        requires
            m > 0,
            pow2(k) > 0,
    ;
}

/// The number that an encoding with a full significand `m` and an exponent stands for.
pub proof fn lemma_single_literal(x: Single, m: nat, k: nat)
    requires
        0x80_0000 <= m < 0x100_0000,
        k <= 252,
        x.bits == k * 0x80_0000 + m,
    ensures
        x.finite(),
        !x.negative(),
        x.units() == m * pow2(k),
        x.units() > 0,
{
    lemma2_to64();
    let p = pow2(23);
    assert(x.code() == x.bits as nat);
    assert((k * p + m) / p == k + 1 && (k * p + m) % p == m - p) by (nonlinear_arith)
        requires
            p == 0x80_0000,
            p <= m < 2 * p,
    ;
    assert(code_units(x.code(), 23) == m * pow2(k));
    lemma_pow2_pos(k);
    assert(m * pow2(k) > 0) by (nonlinear_arith)
        requires
            m > 0,
            pow2(k) > 0,
    ;
}

/// A difference is off by at most one part in `2^53`.
pub proof fn lemma_difference_relative(a: Double, b: Double)
    requires
        a.finite(),
        b.finite(),
        size(a.units() - b.units()) <= pow2(2000),
    ensures
        a.difference(b).finite(),
        size(a.difference(b).units() - (a.units() - b.units())) * pow2(53) <= size(
            a.units() - b.units(),
        ),
        a.units() - b.units() >= 0 ==> a.difference(b).units() >= 0,
        a.units() - b.units() <= 0 ==> a.difference(b).units() <= 0,
{
    let c = b.opposite();
    assert(c.units() == -b.units());
    lemma_sum_relative(a, c);
}

/// A quotient is off by at most one part in `2^53`, and a unit where numbers lose precision.
pub proof fn lemma_quotient_relative(a: Double, b: Double)
    requires
        a.finite(),
        b.finite(),
        b.units() > 0,
        size(a.units()) * pow2(1074) <= pow2(2000) * b.units(),
    ensures
        a.quotient(b).finite(),
        size(a.quotient(b).units() * b.units() - a.units() * pow2(1074)) * pow2(53) <= size(
            a.units(),
        ) * pow2(1074) + pow2(53) * b.units(),
        a.units() >= 0 ==> a.quotient(b).units() >= 0,
        a.units() <= 0 ==> a.quotient(b).units() <= 0,
{
    let u = pow2(1074);
    let (x, y) = (code_units(a.code(), 52), code_units(b.code(), 52));
    lemma_double_format();
    lemma2_to64();
    lemma_pow2_pos(1074);
    lemma_pow2_pos(52);
    lemma_quotient_error(a, b, 1949);
    assert(code_units(0, 52) == 0);
    assert(!b.negative() && b.code() > 0 && b.units() == y);
    let n = x * u;
    let xi = x as int;
    assert((-xi) * u == -(xi * u)) by (nonlinear_arith);
    let q = a.quotient(b).units();
    let m = a.units() * u;
    assert(size(m) == n);
    if n >= pow2(52) * y {
        if a.code() == 0 {
            assert(n == 0 && pow2(52) * y > 0) by (nonlinear_arith)
                requires
                    x == 0,
                    n == x * u,
                    y > 0,
                    pow2(52) > 0,
            ;
        }
        lemma_relative_error(n, y);
        let r = code_units(nearest_code(n, y, 52, DOUBLE_INF as nat), 52) as int;
        assert(size(q) == r);
        let yi = y as int;
        assert((-r) * yi == -(r * yi)) by (nonlinear_arith);
        let k = r * yi;
        assert(q * yi == k || q * yi == -k);
        if k >= n {
            assert(size(q * yi - m) == k - n);
        } else {
            assert(size(q * yi - m) == n - k);
        }
        assert(pow2(53) * y >= 0) by (nonlinear_arith);
    } else {
        lemma_pow2_unfold(53);
        assert(n <= pow2(53) * y) by (nonlinear_arith)
            requires
                n < pow2(52) * y,
                pow2(53) == 2 * pow2(52),
                y > 0,
        ;
        lemma_quotient_error(a, b, 2);
        let k = size(q * y - m);
        assert(2 * k <= 1 * y);
        assert(k * pow2(53) <= pow2(53) * y) by (nonlinear_arith)
            requires
                k <= y,
        ;
    }
}

/// A product of `binary32` numbers is off by at most one part in `2^24`, and a unit where numbers
/// lose precision.
pub proof fn lemma_single_product_relative(a: Single, b: Single)
    requires
        a.finite(),
        b.finite(),
        size(a.units() * b.units()) <= pow2(270) * pow2(149),
    ensures
        a.product(b).finite(),
        size(a.product(b).units() * pow2(149) - a.units() * b.units()) * pow2(24) <= size(
            a.units() * b.units(),
        ) + pow2(24) * pow2(149),
        a.units() * b.units() >= 0 ==> a.product(b).units() >= 0,
        a.units() * b.units() <= 0 ==> a.product(b).units() <= 0,
{
    let u = pow2(149);
    let m = a.units() * b.units();
    let n = size(m);
    lemma_single_format();
    lemma2_to64();
    lemma_pow2_pos(149);
    lemma_single_product_error(a, b, 248);
    let (x, y) = (code_units(a.code(), 23) as int, code_units(b.code(), 23) as int);
    assert(x * y >= 0 && (-x) * y == -(x * y) && x * (-y) == -(x * y) && (-x) * (-y) == x * y)
        by (nonlinear_arith)
        requires
            x >= 0,
            y >= 0,
    ;
    assert(code_units(a.code(), 23) * code_units(b.code(), 23) == n);
    let p = a.product(b).units();
    if n >= pow2(23) * u {
        lemma_single_relative(n, u);
        let r = code_units(nearest_code(n, u, 23, SINGLE_INF as nat), 23) as int;
        assert(size(p) == r);
        let ui = u as int;
        assert((-r) * ui == -(r * ui)) by (nonlinear_arith);
        let k = r * ui;
        assert(p * ui == k || p * ui == -k);
        if k >= n {
            assert(size(p * ui - m) == k - n);
        } else {
            assert(size(p * ui - m) == n - k);
        }
    } else {
        lemma_pow2_unfold(24);
        assert(n <= pow2(24) * u) by (nonlinear_arith)
            requires
                n < pow2(23) * u,
                pow2(24) == 2 * pow2(23),
                u > 0,
        ;
        lemma_single_product_error(a, b, 2);
        let k = size(p * u - m);
        assert(2 * k <= 1 * u);
        assert(k * pow2(24) <= pow2(24) * u) by (nonlinear_arith)
            requires
                k <= u,
        ;
    }
}

/// A `binary64` number, narrowed, is off by at most one part in `2^24`, and a unit where numbers
/// lose precision.
pub proof fn lemma_narrowed_relative(a: Double)
    requires
        a.finite(),
        size(a.units()) <= pow2(270) * pow2(925),
    ensures
        a.narrowed().finite(),
        size(a.narrowed().units() * pow2(925) - a.units()) * pow2(24) <= size(a.units()) + pow2(24)
            * pow2(925),
        a.units() >= 0 ==> a.narrowed().units() >= 0,
        a.units() <= 0 ==> a.narrowed().units() <= 0,
{
    let w = pow2(925);
    let n = code_units(a.code(), 52);
    lemma_single_format();
    lemma2_to64();
    lemma_pow2_pos(925);
    lemma_narrowed_error(a, 248);
    let r = a.narrowed().units();
    let m = a.units();
    assert(size(m) == n);
    if n >= pow2(23) * w {
        lemma_single_relative(n, w);
        let c = code_units(nearest_code(n, w, 23, SINGLE_INF as nat), 23) as int;
        assert(size(r) == c);
        let wi = w as int;
        assert((-c) * wi == -(c * wi)) by (nonlinear_arith);
        let k = c * wi;
        assert(r * wi == k || r * wi == -k);
        if k >= n {
            assert(size(r * wi - m) == k - n);
        } else {
            assert(size(r * wi - m) == n - k);
        }
    } else {
        lemma_pow2_unfold(24);
        assert(n <= pow2(24) * w) by (nonlinear_arith)
            requires
                n < pow2(23) * w,
                pow2(24) == 2 * pow2(23),
                w > 0,
        ;
        lemma_narrowed_error(a, 2);
        let k = size(r * w - m);
        assert(2 * k <= 1 * w);
        assert(k * pow2(24) <= pow2(24) * w) by (nonlinear_arith)
            requires
                k <= w,
        ;
    }
}

} // verus!
