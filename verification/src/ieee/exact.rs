//! Facts about rounding that hold of every number: there is a nearest code, rounding keeps
//! bounds, and what can be held is held exactly.
use vstd::arithmetic::div_mod::*;
use vstd::arithmetic::mul::*;
use vstd::arithmetic::power2::*;
use vstd::prelude::*;

use crate::ieee::convert::{double_of_int, half_up};
use crate::ieee::double::{lemma_double_format, DOUBLE_INF};
use crate::ieee::encoding::{code_units, lemma_code_split, lemma_code_units_increases};
use crate::ieee::root::{nearest_root_code, root_rounds_to};
use crate::ieee::rounding::{
    lemma_code_rounds_to_itself, lemma_code_units_ordered, lemma_nearest_code, nearest_code,
    rounds_to,
};

verus! {

/// From a code whose lower midpoint does not exceed the value, the search upwards ends.
proof fn lemma_search_ends(c: nat, n: nat, d: nat, p: nat, inf: nat)
    requires
        c <= inf,
        c > 0 ==> {
            let low = (code_units((c - 1) as nat, p) + code_units(c, p)) * d;
            2 * n > low || (2 * n == low && c % 2 == 0)
        },
    ensures
        exists|r: nat| rounds_to(r, n, d, p, inf),
    decreases inf - c,
{
    if c == inf {
        assert(rounds_to(c, n, d, p, inf));
    } else {
        let high = (code_units(c, p) + code_units(c + 1, p)) * d;
        if 2 * n < high || (2 * n == high && c % 2 == 0) {
            assert(rounds_to(c, n, d, p, inf));
        } else {
            lemma_search_ends(c + 1, n, d, p, inf);
        }
    }
}

/// Every value has a nearest code.
pub proof fn lemma_nearest_exists(n: nat, d: nat, p: nat, inf: nat)
    ensures
        rounds_to(nearest_code(n, d, p, inf), n, d, p, inf),
        nearest_code(n, d, p, inf) <= inf,
{
    lemma_search_ends(0, n, d, p, inf);
}

/// What is not above a number does not round to anything above it.
pub proof fn lemma_nearest_at_most(n: nat, d: nat, p: nat, inf: nat, c: nat)
    requires
        d > 0,
        n <= code_units(c, p) * d,
    ensures
        nearest_code(n, d, p, inf) <= c,
{
    lemma_nearest_exists(n, d, p, inf);
    let r = nearest_code(n, d, p, inf);
    if r > c {
        lemma_code_units_ordered(c, (r - 1) as nat, p);
        lemma_code_units_increases((r - 1) as nat, r, p);
        let (a, b, u) = (code_units((r - 1) as nat, p), code_units(r, p), code_units(c, p));
        assert((a + b) * d > 2 * n) by (nonlinear_arith)
            requires
                a >= u,
                b > a,
                n <= u * d,
                d > 0,
        ;
    }
}

/// What is not below a number does not round to anything below it.
pub proof fn lemma_nearest_at_least(n: nat, d: nat, p: nat, inf: nat, c: nat)
    requires
        d > 0,
        c <= inf,
        n >= code_units(c, p) * d,
    ensures
        nearest_code(n, d, p, inf) >= c,
{
    lemma_nearest_exists(n, d, p, inf);
    let r = nearest_code(n, d, p, inf);
    if r < c {
        lemma_code_units_ordered(r + 1, c, p);
        lemma_code_units_increases(r, r + 1, p);
        let (a, b, u) = (code_units(r, p), code_units(r + 1, p), code_units(c, p));
        assert((a + b) * d < 2 * n) by (nonlinear_arith)
            requires
                b <= u,
                a < b,
                n >= u * d,
                d > 0,
        ;
    }
}

/// What lies below the midpoint under a number rounds to something below it.
pub proof fn lemma_nearest_below(n: nat, d: nat, p: nat, inf: nat, c: nat)
    requires
        d > 0,
        c > 0,
        2 * n < (code_units((c - 1) as nat, p) + code_units(c, p)) * d,
    ensures
        nearest_code(n, d, p, inf) < c,
{
    lemma_nearest_exists(n, d, p, inf);
    let r = nearest_code(n, d, p, inf);
    if r >= c {
        lemma_code_units_ordered((c - 1) as nat, (r - 1) as nat, p);
        lemma_code_units_ordered(c, r, p);
        let (a, b) = (
            code_units((c - 1) as nat, p) + code_units(c, p),
            code_units((r - 1) as nat, p) + code_units(r, p),
        );
        assert(a * d <= b * d) by (nonlinear_arith)
            requires
                a <= b,
                d > 0,
        ;
    }
}

/// A number rounds to itself.
pub proof fn lemma_nearest_of_code(c: nat, d: nat, p: nat, inf: nat)
    requires
        d > 0,
        c <= inf,
    ensures
        nearest_code(code_units(c, p) * d, d, p, inf) == c,
{
    lemma_code_rounds_to_itself(c, code_units(c, p) * d, d, p, inf);
    lemma_nearest_code(c, code_units(c, p) * d, d, p, inf);
}

/// Of two values the larger does not round below the smaller.
pub proof fn lemma_nearest_keeps_order(n1: nat, n2: nat, d: nat, p: nat, inf: nat)
    requires
        d > 0,
        n1 <= n2,
    ensures
        nearest_code(n1, d, p, inf) <= nearest_code(n2, d, p, inf),
{
    lemma_nearest_exists(n1, d, p, inf);
    lemma_nearest_exists(n2, d, p, inf);
    let (r1, r2) = (nearest_code(n1, d, p, inf), nearest_code(n2, d, p, inf));
    if r2 < r1 {
        // The midpoints between r2 and r1 lie both below n1 and above n2.
        lemma_code_units_ordered(r2, (r1 - 1) as nat, p);
        lemma_code_units_ordered(r2 + 1, r1, p);
        let (a, b) = (code_units(r2, p) + code_units(r2 + 1, p), code_units((r1 - 1) as nat, p) + code_units(r1, p));
        assert(a * d <= b * d) by (nonlinear_arith)
            requires
                a <= b,
                d > 0,
        ;
        if r2 + 1 < r1 {
            lemma_code_units_increases(r2, (r1 - 1) as nat, p);
            assert(a * d < b * d) by (nonlinear_arith)
                requires
                    a < b,
                    d > 0,
            ;
        }
    }
}

/// Every positive number has a number of binary digits.
pub proof fn lemma_has_digits(x: nat) -> (n: nat)
    requires
        x > 0,
    ensures
        n > 0,
        pow2((n - 1) as nat) <= x < pow2(n),
    decreases x,
{
    lemma2_to64();
    if x == 1 {
        1
    } else {
        let h = lemma_has_digits(x / 2);
        lemma_pow2_unfold(h);
        lemma_pow2_unfold(h + 1);
        h + 1
    }
}

/// A code stands for every number of up to fifty-three digits times a power of two in range.
pub proof fn lemma_whole_number_code(x: nat, k: nat) -> (c: nat)
    requires
        x <= 0x20_0000_0000_0000,
        53 <= k <= 1900,
    ensures
        c < DOUBLE_INF,
        code_units(c, 52) == x * pow2(k),
{
    lemma_double_format();
    let q = pow2(52);
    if x == 0 {
        assert(0 * pow2(k) == 0) by (nonlinear_arith);
        0
    } else if x == 0x20_0000_0000_0000 {
        lemma_code_split(k + 1, q, 52);
        lemma_pow2_unfold(k + 1);
        assert(x * pow2(k) == q * (2 * pow2(k))) by (nonlinear_arith)
            requires
                x == 2 * q,
        ;
        assert((k + 1) * q + q < DOUBLE_INF) by (nonlinear_arith)
            requires
                k <= 1900,
                q == 0x10_0000_0000_0000,
                DOUBLE_INF == 0x7ff0_0000_0000_0000,
        ;
        (k + 1) * q + q
    } else {
        let n = lemma_has_digits(x);
        if n > 53 {
            if n > 54 {
                lemma_pow2_strictly_increases(53, (n - 1) as nat);
            }
        }
        let g = (53 - n) as nat;
        let (pg, a, b) = (pow2(g), pow2((n - 1) as nat), pow2(n));
        lemma_pow2_adds((n - 1) as nat, g);
        lemma_pow2_adds(n, g);
        lemma_pow2_pos(g);
        let m = x * pg;
        assert(a * pg <= m < b * pg) by (nonlinear_arith)
            requires
                m == x * pg,
                a <= x < b,
                pg > 0,
        ;
        let e = (k - g) as nat;
        lemma_pow2_adds(g, e);
        assert(m * pow2(e) == x * pow2(k)) by (nonlinear_arith)
            requires
                m == x * pg,
                pow2(k) == pg * pow2(e),
        ;
        lemma_code_split(e, m, 52);
        assert(e * q + m < DOUBLE_INF) by (nonlinear_arith)
            requires
                e <= 1900,
                q == 0x10_0000_0000_0000,
                m < 2 * q,
                DOUBLE_INF == 0x7ff0_0000_0000_0000,
        ;
        e * q + m
    }
}

/// Whole numbers of up to fifty-three digits are held exactly.
pub proof fn lemma_small_int_exact(x: int)
    requires
        -0x20_0000_0000_0000 <= x <= 0x20_0000_0000_0000,
    ensures
        double_of_int(x).finite(),
        double_of_int(x).units() == x * pow2(1074),
        double_of_int(x).nearest_int() == x,
{
    let m = if x < 0 {
        (-x) as nat
    } else {
        x as nat
    };
    let c = lemma_whole_number_code(m, 1074);
    let n = m * pow2(1074);
    lemma_nearest_of_code(c, 1, 52, DOUBLE_INF as nat);
    assert(n * 1 == n) by (nonlinear_arith);
    lemma_pow2_pos(1074);
    if x < 0 {
        lemma_nonzero_code(c, n);
        assert(-(m as int) * pow2(1074) == -(n as int)) by (nonlinear_arith)
            requires
                n == m * pow2(1074),
        ;
    }
    lemma_half_up_of_whole(m, 1074);
}

proof fn lemma_nonzero_code(c: nat, n: nat)
    requires
        code_units(c, 52) == n,
    ensures
        n > 0 ==> c > 0,
{
    lemma_pow2_pos(52);
}

/// Rounding a whole number changes nothing.
pub proof fn lemma_half_up_of_whole(m: nat, k: nat)
    ensures
        half_up(m * pow2(k), k) == m,
{
    let b = pow2(k);
    lemma_pow2_pos(k);
    lemma_pow2_unfold(k + 1);
    assert(2 * (m * b) + b == m * (2 * b) + b) by (nonlinear_arith);
    lemma_fundamental_div_mod_converse((2 * (m * b) + b) as int, (2 * b) as int, m as int, b as int);
}

/// The number nearest to a whole number that fits is finite and not above the next power of two.
pub proof fn lemma_int_stays_below(x: int, k: nat)
    requires
        0 <= k <= 900,
        -(pow2(k) as int) <= x <= pow2(k),
    ensures
        double_of_int(x).finite(),
        double_of_int(x).code() <= (1023 + k) * 0x10_0000_0000_0000,
        double_of_int(x).negative() == (x < 0),
{
    lemma_double_format();
    let m = if x < 0 {
        (-x) as nat
    } else {
        x as nat
    };
    let q = pow2(52);
    lemma_code_split((1022 + k) as nat, q, 52);
    lemma_pow2_adds(52, (1022 + k) as nat);
    lemma_pow2_adds(k, 1074);
    lemma_pow2_pos(1074);
    let c = (1022 + k) as nat * q + q;
    assert(c == (1023 + k) * q) by (nonlinear_arith)
        requires
            c == (1022 + k) * q + q,
    ;
    assert(m * pow2(1074) <= code_units(c, 52) * 1) by (nonlinear_arith)
        requires
            m <= pow2(k),
            code_units(c, 52) == pow2(k) * pow2(1074),
            pow2(1074) > 0,
    ;
    lemma_nearest_at_most(m * pow2(1074), 1, 52, DOUBLE_INF as nat, c);
}

/// From a code whose lower midpoint does not exceed the root, the search upwards ends.
proof fn lemma_root_search_ends(c: nat, s: nat, p: nat, inf: nat)
    requires
        c <= inf,
        c > 0 ==> {
            let low = code_units((c - 1) as nat, p) + code_units(c, p);
            4 * s > low * low || (4 * s == low * low && c % 2 == 0)
        },
    ensures
        exists|r: nat| root_rounds_to(r, s, p, inf),
    decreases inf - c,
{
    if c == inf {
        assert(root_rounds_to(c, s, p, inf));
    } else {
        let high = code_units(c, p) + code_units(c + 1, p);
        if 4 * s < high * high || (4 * s == high * high && c % 2 == 0) {
            assert(root_rounds_to(c, s, p, inf));
        } else {
            lemma_root_search_ends(c + 1, s, p, inf);
        }
    }
}

/// Every root has a nearest code.
pub proof fn lemma_nearest_root_exists(s: nat, p: nat, inf: nat)
    ensures
        root_rounds_to(nearest_root_code(s, p, inf), s, p, inf),
{
    lemma_root_search_ends(0, s, p, inf);
}

/// The root of what is not below the square of a number does not round to anything below it.
pub proof fn lemma_nearest_root_at_least(s: nat, p: nat, inf: nat, c: nat)
    requires
        c <= inf,
        s >= code_units(c, p) * code_units(c, p),
    ensures
        c <= nearest_root_code(s, p, inf) <= inf,
{
    lemma_nearest_root_exists(s, p, inf);
    let r = nearest_root_code(s, p, inf);
    if r < c {
        lemma_code_units_ordered(r + 1, c, p);
        lemma_code_units_increases(r, r + 1, p);
        let (high, u) = (code_units(r, p) + code_units(r + 1, p), code_units(c, p));
        assert(high * high < 4 * (u * u)) by (nonlinear_arith)
            requires
                0 <= high < 2 * u,
        ;
    }
}

} // verus!
