//! How far rounding moves a value.
use vstd::arithmetic::div_mod::*;
use vstd::arithmetic::power2::*;
use vstd::prelude::*;

use crate::ieee::encoding::{code_units, lemma_code_split, Single};
use crate::ieee::double::{lemma_double_format, DOUBLE_INF};
use crate::ieee::exact::{
    lemma_has_digits, lemma_nearest_at_least, lemma_nearest_at_most, lemma_nearest_exists,
    lemma_nearest_keeps_order, lemma_nearest_of_code,
};
use crate::ieee::rounding::{lemma_code_units_ordered, nearest_code};
use crate::ieee::single::{lemma_single_format, SINGLE_INF};

verus! {

/// The step from a code to the next.
pub proof fn lemma_step(c: nat, p: nat)
    ensures
        code_units(c + 1, p) - code_units(c, p) == if c < pow2(p) {
            1
        } else {
            pow2((c / pow2(p) - 1) as nat) as int
        },
{
    let q = pow2(p);
    lemma_pow2_pos(p);
    if c < q {
        if c + 1 == q {
            lemma_code_split(0, q, p);
            lemma2_to64();
            assert(0 * q + q == q && q * 1 == q) by (nonlinear_arith);
        }
    } else {
        let (e, f) = (c / q, c % q);
        lemma_fundamental_div_mod(c as int, q as int);
        lemma_div_non_zero(c as int, q as int);
        let t = (e - 1) as nat;
        assert(c == t * q + (f + q)) by (nonlinear_arith)
            requires
                c == q * e + f,
                t == e - 1,
        ;
        lemma_code_split(t, f + q, p);
        lemma_code_split(t, f + q + 1, p);
        assert((f + q + 1) * pow2(t) - (f + q) * pow2(t) == pow2(t)) by (nonlinear_arith);
    }
}

/// Below the code `e * 2^p` no step is longer than `2^(e-2)`.
proof fn lemma_step_below(c: nat, p: nat, e: nat)
    requires
        e >= 2,
        c < e * pow2(p),
    ensures
        code_units(c + 1, p) - code_units(c, p) <= pow2((e - 2) as nat),
{
    lemma_step(c, p);
    lemma_pow2_pos(p);
    lemma_pow2_pos((e - 2) as nat);
    let q = pow2(p);
    if c >= q {
        let k = c / q;
        lemma_fundamental_div_mod(c as int, q as int);
        lemma_div_non_zero(c as int, q as int);
        assert(k < e) by (nonlinear_arith)
            requires
                q * k <= c,
                c < e * q,
                q > 0,
        ;
        if k < e - 1 {
            lemma_pow2_strictly_increases((k - 1) as nat, (e - 2) as nat);
        }
    }
}

/// Rounding a value of at most `2^(p + e - 1)` units moves it by at most half of `2^(e-2)`.
pub proof fn lemma_rounding_error(n: nat, d: nat, p: nat, inf: nat, e: nat)
    requires
        d > 0,
        e >= 2,
        e * pow2(p) <= inf,
        n <= pow2((p + e - 1) as nat) * d,
    ensures
        ({
            let r = code_units(nearest_code(n, d, p, inf), p);
            &&& 2 * (r * d - n) <= pow2((e - 2) as nat) * d
            &&& 2 * (n - r * d) <= pow2((e - 2) as nat) * d
            &&& r <= pow2((p + e - 1) as nat)
        }),
{
    let top = e * pow2(p);
    let q = pow2(p);
    lemma_pow2_pos(p);
    lemma_code_split((e - 1) as nat, q, p);
    assert((e - 1) as nat * q + q == top) by (nonlinear_arith)
        requires
            top == e * q,
            e >= 1,
    ;
    lemma_pow2_adds(p, (e - 1) as nat);
    lemma_nearest_at_most(n, d, p, inf, top);
    lemma_nearest_exists(n, d, p, inf);
    let c = nearest_code(n, d, p, inf);
    lemma_code_units_ordered(c, top, p);
    let (r, g) = (code_units(c, p), pow2((e - 2) as nat));
    if c > 0 {
        lemma_step_below((c - 1) as nat, p, e);
        let a = code_units((c - 1) as nat, p);
        assert(2 * (r * d - n) <= g * d) by (nonlinear_arith)
            requires
                2 * n >= (a + r) * d,
                r - a <= g,
                d > 0,
        ;
    } else {
        assert(r * d == 0) by (nonlinear_arith)
            requires
                r == 0,
        ;
        assert(g * d >= 0) by (nonlinear_arith)
            requires
                g >= 0,
                d > 0,
        ;
    }
    if c < top {
        lemma_step_below(c, p, e);
        let b = code_units(c + 1, p);
        assert(2 * (n - r * d) <= g * d) by (nonlinear_arith)
            requires
                2 * n <= (r + b) * d,
                b - r <= g,
                d > 0,
        ;
    } else {
        assert(g * d >= 0) by (nonlinear_arith)
            requires
                g >= 0,
                d > 0,
        ;
    }
}

/// Where numbers do not lose precision, rounding changes a value by at most one part in `2^53`.
pub proof fn lemma_relative_error(n: nat, d: nat)
    requires
        d > 0,
        pow2(52) * d <= n <= pow2(2000) * d,
    ensures
        ({
            let r = code_units(nearest_code(n, d, 52, DOUBLE_INF as nat), 52);
            &&& (r * d - n) * pow2(53) <= n
            &&& (n - r * d) * pow2(53) <= n
            &&& nearest_code(n, d, 52, DOUBLE_INF as nat) < DOUBLE_INF
            &&& nearest_code(n, d, 52, DOUBLE_INF as nat) >= 0x10_0000_0000_0000
        }),
{
    let inf = DOUBLE_INF as nat;
    lemma_double_format();
    let x = n / d;
    lemma_fundamental_div_mod(n as int, d as int);
    lemma_mod_bound(n as int, d as int);
    let rest = n % d;
    assert(x >= pow2(52) && x <= pow2(2000)) by (nonlinear_arith)
        requires
            n == d * x + rest,
            0 <= rest < d,
            pow2(52) * d <= n <= pow2(2000) * d,
    ;
    let k = lemma_has_digits(x);
    if k < 52 {
        lemma_pow2_strictly_increases(k, 52);
    }
    if k - 1 > 2000 {
        lemma_pow2_strictly_increases(2000, (k - 1) as nat);
    }
    let (lo, hi) = (pow2((k - 1) as nat), pow2(k));
    assert(lo * d <= n <= hi * d) by (nonlinear_arith)
        requires
            n == d * x + rest,
            0 <= rest < d,
            lo <= x,
            x + 1 <= hi,
    ;
    let e = (k - 51) as nat;
    assert(e * pow2(52) <= inf) by (nonlinear_arith)
        requires
            e <= 1950,
            pow2(52) == 0x10_0000_0000_0000,
            inf == 0x7ff0_0000_0000_0000,
    ;
    lemma_rounding_error(n, d, 52, inf, e);
    let r = code_units(nearest_code(n, d, 52, inf), 52);
    let g = pow2((k - 53) as nat);
    lemma_pow2_adds((k - 53) as nat, 52);
    let (w, v) = (pow2(52), pow2(53));
    assert((r * d - n) * v <= n && (n - r * d) * v <= n) by (nonlinear_arith)
        requires
            2 * (r * d - n) <= g * d,
            2 * (n - r * d) <= g * d,
            lo == g * w,
            lo * d <= n,
            v == 2 * w,
            w > 0,
    ;
    // The codes of normal numbers.
    let least = 0x10_0000_0000_0000nat;
    lemma2_to64();
    assert(code_units(least, 52) == pow2(52)) by {
        lemma_code_split(0, pow2(52), 52);
        assert(pow2(0) == 1);
        assert(pow2(52) * 1 == pow2(52));
    }
    lemma_nearest_at_least(n, d, 52, inf, least);
    let top = (1023 + 1000) as nat * 0x10_0000_0000_0000nat;
    lemma_code_split(2022, pow2(52), 52);
    lemma_pow2_adds(52, 2022);
    lemma_pow2_strictly_increases(2000, 2074);
    assert(n <= code_units(top, 52) * d) by (nonlinear_arith)
        requires
            n <= pow2(2000) * d,
            pow2(2000) <= code_units(top, 52),
    ;
    lemma_nearest_at_most(n, d, 52, inf, top);
}

/// The sum of two finite `binary32` numbers: how far it is from the exact sum, where that is at
/// most `2^(22 + e)` units.
pub proof fn lemma_single_sum(a: Single, b: Single, e: nat)
    requires
        a.finite(),
        b.finite(),
        2 <= e <= 255,
        -(pow2((22 + e) as nat) as int) <= a.units() + b.units() <= pow2((22 + e) as nat),
    ensures
        !a.sum(b).nan(),
        2 * (a.sum(b).units() - (a.units() + b.units())) <= pow2((e - 2) as nat),
        2 * (a.units() + b.units() - a.sum(b).units()) <= pow2((e - 2) as nat),
        e < 255 ==> a.sum(b).finite(),
        -(pow2((22 + e) as nat) as int) <= a.sum(b).units() <= pow2((22 + e) as nat),
{
    let s = a.units() + b.units();
    let inf = SINGLE_INF as nat;
    let m = if s < 0 {
        (-s) as nat
    } else {
        s as nat
    };
    lemma_single_format();
    lemma_pow2_pos((e - 2) as nat);
    lemma_pow2_pos((22 + e) as nat);
    let top = e * pow2(23);
    assert(pow2((22 + e) as nat) * 1 == pow2((22 + e) as nat)) by (nonlinear_arith);
    lemma_nearest_exists(m, 1, 23, inf);
    if s != 0 {
        lemma_rounding_error(m, 1, 23, inf, e);
        lemma_code_split((e - 1) as nat, pow2(23), 23);
        lemma_pow2_adds(23, (e - 1) as nat);
        assert((e - 1) as nat * pow2(23) + pow2(23) == top) by (nonlinear_arith)
            requires
                top == e * pow2(23),
                e >= 1,
        ;
        lemma_nearest_at_most(m, 1, 23, inf, top);
    }
}

/// Of two exact sums the larger does not round below the smaller.
pub proof fn lemma_single_sum_order(a: Single, b: Single, x: Single)
    requires
        a.finite(),
        b.finite(),
        x.finite(),
    ensures
        a.units() + b.units() <= x.units() ==> a.sum(b).at_most(x),
        a.units() + b.units() >= x.units() ==> x.at_most(a.sum(b)),
{
    let s = a.units() + b.units();
    let inf = SINGLE_INF as nat;
    let m = if s < 0 {
        (-s) as nat
    } else {
        s as nat
    };
    let n = code_units(x.code(), 23);
    lemma_nearest_exists(m, 1, 23, inf);
    lemma_nearest_of_code(x.code(), 1, 23, inf);
    assert(n * 1 == n) by (nonlinear_arith);
    lemma_pow2_pos(23);
    if m <= n {
        lemma_nearest_keeps_order(m, n, 1, 23, inf);
        lemma_code_units_ordered(nearest_code(m, 1, 23, inf), x.code(), 23);
    }
    if n <= m {
        lemma_nearest_keeps_order(n, m, 1, 23, inf);
        lemma_code_units_ordered(x.code(), nearest_code(m, 1, 23, inf), 23);
    }
}

/// The product of two finite `binary32` numbers that are not negative: how far it is from the
/// exact product, where that is at most `2^(22 + e)` units.
pub proof fn lemma_single_product(a: Single, b: Single, e: nat)
    requires
        a.finite(),
        b.finite(),
        !a.negative(),
        !b.negative(),
        2 <= e < 255,
        a.units() * b.units() <= pow2((22 + e) as nat) * pow2(149),
    ensures
        a.product(b).finite(),
        !a.product(b).negative(),
        2 * (a.product(b).units() * pow2(149) - a.units() * b.units()) <= pow2((e - 2) as nat)
            * pow2(149),
        2 * (a.units() * b.units() - a.product(b).units() * pow2(149)) <= pow2((e - 2) as nat)
            * pow2(149),
        0 <= a.product(b).units() <= pow2((22 + e) as nat),
{
    let inf = SINGLE_INF as nat;
    let n = code_units(a.code(), 23) * code_units(b.code(), 23);
    let d = pow2(149);
    lemma_single_format();
    lemma_pow2_pos(149);
    lemma_nearest_exists(n, d, 23, inf);
    let top = e * pow2(23);
    lemma_rounding_error(n, d, 23, inf, e);
    lemma_code_split((e - 1) as nat, pow2(23), 23);
    lemma_pow2_adds(23, (e - 1) as nat);
    assert((e - 1) as nat * pow2(23) + pow2(23) == top) by (nonlinear_arith)
        requires
            top == e * pow2(23),
            e >= 1,
    ;
    lemma_nearest_at_most(n, d, 23, inf, top);
}

/// The product of two finite `binary32` numbers that are not negative lies on the same side of
/// every number as the exact product.
pub proof fn lemma_single_product_order(a: Single, b: Single, x: Single)
    requires
        a.finite(),
        b.finite(),
        x.finite(),
        !a.negative(),
        !b.negative(),
        !x.negative(),
    ensures
        !a.product(b).nan(),
        !a.product(b).negative(),
        a.units() * b.units() <= x.units() * pow2(149) ==> a.product(b).finite()
            && a.product(b).at_most(x),
        a.units() * b.units() >= x.units() * pow2(149) ==> x.at_most(a.product(b)),
{
    let inf = SINGLE_INF as nat;
    let n = code_units(a.code(), 23) * code_units(b.code(), 23);
    let d = pow2(149);
    lemma_single_format();
    lemma_pow2_pos(149);
    lemma_nearest_exists(n, d, 23, inf);
    let c = nearest_code(n, d, 23, inf);
    if n <= code_units(x.code(), 23) * d {
        lemma_nearest_at_most(n, d, 23, inf, x.code());
        lemma_code_units_ordered(c, x.code(), 23);
    }
    if n >= code_units(x.code(), 23) * d {
        lemma_nearest_at_least(n, d, 23, inf, x.code());
        lemma_code_units_ordered(x.code(), c, 23);
    }
}

} // verus!
