//! Rounding an exact value to the nearest encoding.
use vstd::arithmetic::div_mod::*;
use vstd::arithmetic::mul::*;
use vstd::arithmetic::power2::*;
use vstd::prelude::*;

use crate::ieee::encoding::{code_units, lemma_code_split, lemma_code_units_increases};
use crate::ieee::power::{bit_length, power_of_two, split_at};

verus! {

/// `2^e` for `e >= 0`, else 1: a value `m * 2^e` is the fraction `m * up(e) / up(-e)`.
pub open spec fn up(e: int) -> nat {
    if e >= 0 {
        pow2(e as nat)
    } else {
        1
    }
}

/// `c` is the code nearest to `n / d` units in the format with `p` fraction bits whose infinity
/// has the code `inf`; halfway between two codes it is the even one.
///
/// A value is nearest to `c` if it lies between the midpoints towards the two neighbours of `c`.
pub open spec fn rounds_to(c: nat, n: nat, d: nat, p: nat, inf: nat) -> bool {
    &&& c <= inf
    &&& c > 0 ==> {
        let low = (code_units((c - 1) as nat, p) + code_units(c, p)) * d;
        2 * n > low || (2 * n == low && c % 2 == 0)
    }
    &&& c < inf ==> {
        let high = (code_units(c, p) + code_units(c + 1, p)) * d;
        2 * n < high || (2 * n == high && c % 2 == 0)
    }
}

/// The code nearest to `n / d` units.
pub open spec fn nearest_code(n: nat, d: nat, p: nat, inf: nat) -> nat {
    choose|c: nat| rounds_to(c, n, d, p, inf)
}

pub proof fn lemma_code_units_ordered(a: nat, b: nat, p: nat)
    requires
        a <= b,
    ensures
        code_units(a, p) <= code_units(b, p),
{
    if a < b {
        lemma_code_units_increases(a, b, p);
    }
}

/// No value is nearest to two codes.
pub proof fn lemma_rounds_to_unique(c1: nat, c2: nat, n: nat, d: nat, p: nat, inf: nat)
    requires
        d > 0,
        rounds_to(c1, n, d, p, inf),
        rounds_to(c2, n, d, p, inf),
    ensures
        c1 == c2,
{
    if c1 < c2 {
        lemma_rounds_to_ordered(c1, c2, n, d, p, inf);
    } else if c2 < c1 {
        lemma_rounds_to_ordered(c2, c1, n, d, p, inf);
    }
}

proof fn lemma_rounds_to_ordered(c1: nat, c2: nat, n: nat, d: nat, p: nat, inf: nat)
    requires
        d > 0,
        c1 <= c2,
        rounds_to(c1, n, d, p, inf),
        rounds_to(c2, n, d, p, inf),
    ensures
        c1 == c2,
{
    if c1 < c2 {
        let high = code_units(c1, p) + code_units(c1 + 1, p);
        let low = code_units((c2 - 1) as nat, p) + code_units(c2, p);
        lemma_code_units_ordered(c1, (c2 - 1) as nat, p);
        lemma_code_units_ordered(c1 + 1, c2, p);
        assert(high * d <= low * d) by (nonlinear_arith)
            requires
                high <= low,
                d > 0,
        ;
        if c1 + 1 < c2 {
            lemma_code_units_increases(c1, (c2 - 1) as nat, p);
            assert(high * d < low * d) by (nonlinear_arith)
                requires
                    high < low,
                    d > 0,
            ;
        }
    }
}

/// What [`nearest_code`] names is the code that the rounding rule picks.
pub proof fn lemma_nearest_code(c: nat, n: nat, d: nat, p: nat, inf: nat)
    requires
        d > 0,
        rounds_to(c, n, d, p, inf),
    ensures
        nearest_code(n, d, p, inf) == c,
{
    lemma_rounds_to_unique(nearest_code(n, d, p, inf), c, n, d, p, inf);
}

/// `c` is nearest to every value strictly between `m * 2^e` and `(m + 1) * 2^e`.
pub open spec fn rounds_gap_to(c: nat, m: nat, e: int, p: nat, inf: nat) -> bool {
    &&& c <= inf
    &&& c > 0 ==> 2 * m * up(e) >= (code_units((c - 1) as nat, p) + code_units(c, p)) * up(-e)
    &&& c < inf ==> 2 * (m + 1) * up(e) <= (code_units(c, p) + code_units(c + 1, p)) * up(-e)
}

/// An exact intermediate result `m * 2^e` rounds as the fraction that it equals.
pub proof fn lemma_exact_rounds(c: nat, m: nat, e: int, n: nat, d: nat, p: nat, inf: nat)
    requires
        d > 0,
        rounds_to(c, m * up(e), up(-e), p, inf),
        n * up(-e) == m * up(e) * d,
    ensures
        rounds_to(c, n, d, p, inf),
{
    let (u, v) = (up(e), up(-e));
    lemma_up_pos(e);
    lemma_up_pos(-e);
    let mu = m * u;
    if c > 0 {
        lemma_compare_scaled(mu, v, n, d, code_units((c - 1) as nat, p) + code_units(c, p));
    }
    if c < inf {
        lemma_compare_scaled(mu, v, n, d, code_units(c, p) + code_units(c + 1, p));
    }
}

/// A value known only to lie strictly between two neighbouring intermediate results rounds as
/// the gap between them.
pub proof fn lemma_gap_rounds(c: nat, m: nat, e: int, n: nat, d: nat, p: nat, inf: nat)
    requires
        d > 0,
        rounds_gap_to(c, m, e, p, inf),
        m * up(e) * d < n * up(-e) < (m + 1) * up(e) * d,
    ensures
        rounds_to(c, n, d, p, inf),
{
    let (u, v) = (up(e), up(-e));
    lemma_up_pos(e);
    lemma_up_pos(-e);
    if c > 0 {
        let k = code_units((c - 1) as nat, p) + code_units(c, p);
        assert(2 * n > k * d) by (nonlinear_arith)
            requires
                2 * m * u >= k * v,
                m * u * d < n * v,
                v > 0,
                d > 0,
        ;
    }
    if c < inf {
        let k = code_units(c, p) + code_units(c + 1, p);
        assert(2 * n < k * d) by (nonlinear_arith)
            requires
                2 * (m + 1) * u <= k * v,
                n * v < (m + 1) * u * d,
                v > 0,
                d > 0,
        ;
    }
}

pub proof fn lemma_up_pos(e: int)
    ensures
        up(e) > 0,
{
    if e >= 0 {
        lemma_pow2_pos(e as nat);
    }
}

proof fn lemma_compare_scaled(mu: nat, v: nat, n: nat, d: nat, k: nat)
    requires
        d > 0,
        v > 0,
        n * v == mu * d,
    ensures
        2 * n > k * d <==> 2 * mu > k * v,
        2 * n == k * d <==> 2 * mu == k * v,
        2 * n < k * d <==> 2 * mu < k * v,
{
    assert(2 * n > k * d <==> 2 * mu > k * v) by (nonlinear_arith)
        requires
            d > 0,
            v > 0,
            n * v == mu * d,
    ;
    assert(2 * n < k * d <==> 2 * mu < k * v) by (nonlinear_arith)
        requires
            d > 0,
            v > 0,
            n * v == mu * d,
    ;
}

/// `2^(a + b)` as a product, where `b` may be negative.
pub proof fn lemma_up_adds(a: nat, b: int)
    requires
        a + b >= 0,
    ensures
        pow2((a + b) as nat) * up(-b) == pow2(a) * up(b),
{
    if b >= 0 {
        lemma_pow2_adds(a, b as nat);
    } else {
        lemma_pow2_adds((a + b) as nat, (-b) as nat);
    }
}

/// The codes around a mantissa `q` at exponent `t`.
proof fn lemma_code_at(q: nat, t: nat, p: nat)
    requires
        q < 2 * pow2(p),
        t > 0 ==> q >= pow2(p),
    ensures
        code_units(t * pow2(p) + q, p) == q * pow2(t),
        code_units(t * pow2(p) + q + 1, p) == (q + 1) * pow2(t),
{
    if q >= pow2(p) {
        lemma_code_split(t, q, p);
        lemma_code_split(t, q + 1, p);
    } else {
        assert(t == 0);
        lemma2_to64();
        assert(t * pow2(p) == 0) by (nonlinear_arith)
            requires
                t == 0,
        ;
        if q + 1 == pow2(p) {
            lemma_code_split(0, q + 1, p);
        }
    }
}

proof fn lemma_infinity(m: nat, e: int, p: nat, inf: nat)
    requires
        inf > 0,
        m * up(e) >= code_units(inf, p) * up(-e),
    ensures
        rounds_to(inf, m * up(e), up(-e), p, inf),
        rounds_gap_to(inf, m, e, p, inf),
{
    lemma_up_pos(-e);
    lemma_code_units_increases((inf - 1) as nat, inf, p);
    let (a, b, v, mu) = (code_units((inf - 1) as nat, p), code_units(inf, p), up(-e), m * up(e));
    assert(2 * mu > (a + b) * v) by (nonlinear_arith)
        requires
            mu >= b * v,
            a < b,
            v > 0,
    ;
    assert(2 * m * up(e) == 2 * mu) by (nonlinear_arith)
        requires
            mu == m * up(e),
    ;
}

/// A value that a code stands for rounds to that code.
pub proof fn lemma_code_rounds_to_itself(c: nat, n: nat, d: nat, p: nat, inf: nat)
    requires
        d > 0,
        c <= inf,
        n == code_units(c, p) * d,
    ensures
        rounds_to(c, n, d, p, inf),
{
    let b = code_units(c, p);
    if c > 0 {
        lemma_code_units_increases((c - 1) as nat, c, p);
        let a = code_units((c - 1) as nat, p);
        assert(2 * n > (a + b) * d) by (nonlinear_arith)
            requires
                n == b * d,
                a < b,
                d > 0,
        ;
    }
    lemma_code_units_increases(c, c + 1, p);
    let z = code_units(c + 1, p);
    assert(2 * n < (b + z) * d) by (nonlinear_arith)
        requires
            n == b * d,
            b < z,
            d > 0,
    ;
}

/// With `m == q * 2^s + rem`, twice `m * 2^e` compares with the midpoint above the code of `q` at
/// exponent `s + e` as twice `rem` does with `2^s`.
proof fn lemma_midpoint(m: nat, e: int, q: nat, rem: nat, s: nat, t: nat)
    requires
        s + e == t,
        m == q * pow2(s) + rem,
    ensures
        2 * m * up(e) > (2 * q + 1) * pow2(t) * up(-e) <==> 2 * rem > pow2(s),
        2 * m * up(e) == (2 * q + 1) * pow2(t) * up(-e) <==> 2 * rem == pow2(s),
        2 * (m + 1) * up(e) <= (2 * q + 1) * pow2(t) * up(-e) <==> 2 * (rem + 1) <= pow2(s),
        m * up(e) >= q * pow2(t) * up(-e),
        rem < pow2(s) ==> (m + 1) * up(e) <= (q + 1) * pow2(t) * up(-e),
{
    lemma_up_adds(s, e);
    lemma_up_pos(e);
    let (ps, u, tv) = (pow2(s), up(e), pow2(t) * up(-e));
    assert(tv == ps * u);
    assert((2 * q + 1) * pow2(t) * up(-e) == (2 * q + 1) * ps * u) by (nonlinear_arith)
        requires
            tv == pow2(t) * up(-e),
            tv == ps * u,
    ;
    assert(q * pow2(t) * up(-e) == q * ps * u) by (nonlinear_arith)
        requires
            tv == pow2(t) * up(-e),
            tv == ps * u,
    ;
    assert((q + 1) * pow2(t) * up(-e) == (q + 1) * ps * u) by (nonlinear_arith)
        requires
            tv == pow2(t) * up(-e),
            tv == ps * u,
    ;
    let k = (2 * q + 1) * ps;
    assert(2 * m == k - ps + 2 * rem) by (nonlinear_arith)
        requires
            m == q * ps + rem,
            k == (2 * q + 1) * ps,
    ;
    lemma_scaled_order(2 * m, k, u);
    lemma_scaled_order(2 * (m + 1), k, u);
    assert(m * u >= q * ps * u) by (nonlinear_arith)
        requires
            m >= q * ps,
            u > 0,
    ;
    if rem < ps {
        assert((m + 1) * u <= (q + 1) * ps * u) by (nonlinear_arith)
            requires
                m + 1 <= q * ps + ps,
                u > 0,
        ;
    }
}

proof fn lemma_scaled_order(a: nat, b: nat, u: nat)
    requires
        u > 0,
    ensures
        a * u > b * u <==> a > b,
        a * u == b * u <==> a == b,
        a * u <= b * u <==> a <= b,
{
    assert(a * u > b * u <==> a > b) by (nonlinear_arith)
        requires
            u > 0,
    ;
    assert(a * u < b * u <==> a < b) by (nonlinear_arith)
        requires
            u > 0,
    ;
}

/// Dropping the low `s` digits of `m` and rounding by what was dropped gives the nearest code.
proof fn lemma_round_step(m: nat, e: int, sticky: bool, q: nat, rem: nat, s: nat, t: nat, p: nat, inf: nat, code: nat)
    requires
        p >= 1,
        s >= 1,
        s + e == t,
        m == q * pow2(s) + rem,
        rem < pow2(s),
        q < 2 * pow2(p),
        t > 0 ==> q >= pow2(p),
        code == t * pow2(p) + q + if 2 * rem > pow2(s) || (2 * rem == pow2(s) && (sticky || q % 2
            == 1)) {
            1nat
        } else {
            0
        },
        inf > 0,
    ensures
        code < inf && !sticky ==> rounds_to(code, m * up(e), up(-e), p, inf),
        code < inf && sticky ==> rounds_gap_to(code, m, e, p, inf),
        code >= inf && !sticky ==> rounds_to(inf, m * up(e), up(-e), p, inf),
        code >= inf && sticky ==> rounds_gap_to(inf, m, e, p, inf),
{
    let c0 = t * pow2(p) + q;
    let (u, v, ps) = (up(e), up(-e), pow2(s));
    let (uq, uq1) = (code_units(c0, p), code_units(c0 + 1, p));
    lemma_up_pos(e);
    lemma_up_pos(-e);
    lemma_code_at(q, t, p);
    lemma_midpoint(m, e, q, rem, s, t);
    lemma_pow2_unfold(s);
    lemma_pow2_unfold(p);
    let pt = pow2(t);
    assert(uq + uq1 == (2 * q + 1) * pt) by (nonlinear_arith)
        requires
            uq == q * pt,
            uq1 == (q + 1) * pt,
    ;
    assert(c0 % 2 == q % 2) by {
        let h = pow2((p - 1) as nat);
        assert(c0 == 2 * (t * h) + q) by (nonlinear_arith)
            requires
                c0 == t * (2 * h) + q,
        ;
    }
    assert(m * u >= uq * v);
    assert((m + 1) * u <= uq1 * v);
    assert(2 * m * u == 2 * (m * u)) by (nonlinear_arith);
    assert(2 * (m + 1) * u == 2 * ((m + 1) * u)) by (nonlinear_arith);
    assert((m + 1) * u == m * u + u) by (nonlinear_arith);
    if code == c0 {
        if code > 0 {
            let a = code_units((code - 1) as nat, p);
            lemma_code_units_increases((code - 1) as nat, code, p);
            assert((a + uq) * v < 2 * (uq * v)) by (nonlinear_arith)
                requires
                    a < uq,
                    v > 0,
            ;
        }
        if code >= inf {
            lemma_code_units_ordered(inf, code, p);
            assert(code_units(inf, p) * v <= uq * v) by (nonlinear_arith)
                requires
                    code_units(inf, p) <= uq,
                    v > 0,
            ;
            lemma_infinity(m, e, p, inf);
        }
    } else {
        let z = code_units(code + 1, p);
        lemma_code_units_increases(code, code + 1, p);
        assert((uq1 + z) * v > 2 * (uq1 * v)) by (nonlinear_arith)
            requires
                uq1 < z,
                v > 0,
        ;
        if code > inf {
            lemma_code_units_ordered(inf, c0, p);
            assert(code_units(inf, p) * v <= uq * v) by (nonlinear_arith)
                requires
                    code_units(inf, p) <= uq,
                    v > 0,
            ;
            lemma_infinity(m, e, p, inf);
        }
    }
}

/// A value of `n` digits at an exponent that puts it beyond the largest code.
proof fn lemma_overflows(m: nat, e: int, n: nat, t: nat, p: nat, emax: nat)
    requires
        n > 0,
        pow2((n - 1) as nat) <= m,
        t == n + e - (p + 1),
        t >= emax >= 1,
    ensures
        rounds_to(emax * pow2(p), m * up(e), up(-e), p, emax * pow2(p)),
        rounds_gap_to(emax * pow2(p), m, e, p, emax * pow2(p)),
{
    let inf = emax * pow2(p);
    lemma_pow2_pos(p);
    lemma_up_pos(e);
    lemma_up_pos(-e);
    assert(inf > 0) by (nonlinear_arith)
        requires
            inf == emax * pow2(p),
            emax >= 1,
            pow2(p) > 0,
    ;
    lemma_code_split((emax - 1) as nat, pow2(p), p);
    assert(inf == (emax - 1) as nat * pow2(p) + pow2(p)) by (nonlinear_arith)
        requires
            inf == emax * pow2(p),
            emax >= 1,
    ;
    lemma_pow2_adds(p, (emax - 1) as nat);
    lemma_up_adds((n - 1) as nat, e);
    lemma_pow2_strictly_increases((p + emax - 1) as nat, (t + p) as nat);
    let (a, b, u, v) = (pow2((n - 1) as nat), code_units(inf, p), up(e), up(-e));
    let z = pow2((t + p) as nat);
    assert(m * u >= b * v) by (nonlinear_arith)
        requires
            m >= a,
            z * v == a * u,
            z >= b,
            u > 0,
            v > 0,
    ;
    lemma_infinity(m, e, p, inf);
}

/// A value with at most `p + 1` digits is met exactly.
proof fn lemma_fits(m: nat, n: nat, k: nat, t: nat, p: nat, inf: nat)
    requires
        n > 0,
        pow2((n - 1) as nat) <= m < pow2(n),
        n + k <= p + 1,
        t > 0 ==> n + k == p + 1,
        inf > 0,
    ensures
        m * pow2(k) < 2 * pow2(p),
        ({
            let code = t * pow2(p) + m * pow2(k);
            let e = t + k;
            &&& code < inf ==> rounds_to(code, m * up(e as int), up(-e), p, inf)
            &&& code >= inf ==> rounds_to(inf, m * up(e as int), up(-e), p, inf)
        }),
{
    let (a, b, pk) = (pow2((n - 1) as nat), pow2(n), pow2(k));
    let q = m * pk;
    let e = t + k;
    let code = t * pow2(p) + q;
    lemma2_to64();
    lemma_pow2_adds(n, k);
    lemma_pow2_adds((n - 1) as nat, k);
    lemma_pow2_pos(k);
    lemma_pow2_unfold(p + 1);
    assert(a * pk <= q < b * pk) by (nonlinear_arith)
        requires
            q == m * pk,
            a <= m < b,
            pk > 0,
    ;
    if n + k < p + 1 {
        lemma_pow2_strictly_increases(n + k, p + 1);
    }
    lemma_pow2_adds(k, t);
    let pt = pow2(t);
    assert(q * pt == m * pow2(e)) by (nonlinear_arith)
        requires
            q == m * pk,
            pow2(e) == pk * pt,
    ;
    lemma_code_at(q, t, p);
    if code >= inf {
        lemma_code_units_ordered(inf, code, p);
        assert(up(-e) == 1);
        assert(code_units(inf, p) * up(-e) == code_units(inf, p)) by (nonlinear_arith)
            requires
                up(-e) == 1,
        ;
        lemma_infinity(m, e as int, p, inf);
    } else {
        lemma_code_rounds_to_itself(code, m * pow2(e), 1, p, inf);
    }
}

/// The quotient of an `n`-digit number by `2^s` has `n - s` digits.
proof fn lemma_quotient_digits(m: nat, n: nat, s: nat, p: nat)
    requires
        n > 0,
        pow2((n - 1) as nat) <= m < pow2(n),
        n <= s + p + 1,
    ensures
        m / pow2(s) < 2 * pow2(p),
        n == s + p + 1 ==> m / pow2(s) >= pow2(p),
        m == (m / pow2(s)) * pow2(s) + m % pow2(s),
        m % pow2(s) < pow2(s),
{
    let (q, ps) = (m / pow2(s), pow2(s));
    lemma_pow2_pos(s);
    lemma_pow2_unfold(p + 1);
    lemma_fundamental_div_mod(m as int, ps as int);
    assert(q * ps == ps * q) by (nonlinear_arith);
    lemma_pow2_adds(s, p + 1);
    lemma_pow2_adds(s, p);
    if n < s + p + 1 {
        lemma_pow2_strictly_increases(n, s + p + 1);
    }
    let b = pow2(p + 1);
    assert(q < b) by (nonlinear_arith)
        requires
            ps * q <= m,
            m < ps * b,
            ps > 0,
    ;
    if n == s + p + 1 {
        let a = pow2(p);
        assert(q >= a) by (nonlinear_arith)
            requires
                m < ps * q + ps,
                m >= ps * a,
                ps > 0,
        ;
    }
}

/// Values that are below half a unit round to zero.
proof fn lemma_underflows(m: nat, e: int, p: nat, inf: nat)
    requires
        e <= -128,
        m < pow2(127),
        inf > 0,
    ensures
        rounds_to(0, m * up(e), up(-e), p, inf),
        rounds_gap_to(0, m, e, p, inf),
{
    lemma2_to64();
    lemma_pow2_unfold(128);
    if -e > 128 {
        lemma_pow2_strictly_increases(128, (-e) as nat);
    }
    lemma_pow2_pos(p);
    lemma_code_at(0, 0, p);
    assert(code_units(0, p) + code_units(1, p) == 1);
}

/// Rounds `m * 2^e`, or with `sticky` a value strictly between that and `(m + 1) * 2^e`, to the
/// nearest code of the format with `p` fraction bits and the exponent field `emax` for infinity.
#[inline(always)]
pub fn round_scaled(m: u128, e: i32, sticky: bool, p: u32, emax: u32) -> (c: u64)
    requires
        1 <= p <= 52,
        1 <= emax <= 2047,
        -10000 <= e <= 10000,
        m < pow2(127),
        sticky ==> m >= pow2((p + 1) as nat),
    ensures
        !sticky ==> rounds_to(
            c as nat,
            m as nat * up(e as int),
            up(-e),
            p as nat,
            emax as nat * pow2(p as nat),
        ),
        sticky ==> rounds_gap_to(c as nat, m as nat, e as int, p as nat, emax as nat * pow2(p as nat)),
{
    let ghost inf = emax as nat * pow2(p as nat);
    let ghost (mn, en, pn) = (m as nat, e as int, p as nat);
    proof {
        lemma_format(p, emax, emax);
        lemma_up_pos(-en);
        lemma_pow2_pos(pn + 1);
    }
    let pp: u64 = power_of_two(p) as u64;
    let top: u64 = emax as u64 * pp;
    if m == 0 {
        proof {
            assert(code_units(0, pn) * up(-en) == 0) by (nonlinear_arith)
                requires
                    code_units(0, pn) == 0,
            ;
            assert(mn * up(en) == 0) by (nonlinear_arith)
                requires
                    mn == 0,
            ;
            lemma_code_rounds_to_itself(0, 0, up(-en), pn, inf);
        }
        return 0;
    }
    let n: i32 = bit_length(m) as i32;
    proof {
        if sticky && n <= p + 1 {
            if n < p + 1 {
                lemma_pow2_strictly_increases(n as nat, pn + 1);
            }
        }
    }
    let w: i32 = n + e - (p as i32 + 1);
    let t: i32 = if w > 0 {
        w
    } else {
        0
    };
    if t >= emax as i32 {
        proof {
            lemma_overflows(mn, en, n as nat, t as nat, pn, emax as nat);
        }
        return top;
    }
    proof {
        lemma_format(p, emax, t as u32);
    }
    let base: u64 = t as u64 * pp;
    let s: i32 = t - e;
    if s <= 0 {
        let k: u32 = (-s) as u32;
        proof {
            lemma_fits(mn, n as nat, k as nat, t as nat, pn, inf);
        }
        let q: u64 = (m * power_of_two(k)) as u64;
        let code: u64 = base + q;
        if code >= top {
            return top;
        }
        return code;
    }
    if s >= 128 {
        proof {
            lemma_underflows(mn, en, pn, inf);
        }
        return 0;
    }
    let pw: u128 = power_of_two(s as u32);
    proof {
        lemma_pow2_pos(s as nat);
        lemma_pow2_unfold(s as nat);
        lemma_quotient_digits(mn, n as nat, s as nat, pn);
    }
    let (whole, rem): (u128, u128) = split_at(m, s as u32);
    let q: u64 = whole as u64;
    let half: u128 = pw / 2;
    let upward: bool = rem > half || (rem == half && (sticky || q % 2 == 1));
    let code: u64 = base + q + if upward {
        1u64
    } else {
        0u64
    };
    proof {
        lemma_round_step(mn, en, sticky, q as nat, rem as nat, s as nat, t as nat, pn, inf, code as nat);
    }
    if code >= top {
        return top;
    }
    code
}

proof fn lemma_format(p: u32, emax: u32, t: u32)
    requires
        1 <= p <= 52,
        1 <= emax <= 2047,
        t <= emax,
    ensures
        0 < pow2(p as nat) <= 0x10_0000_0000_0000,
        0 < emax as nat * pow2(p as nat) <= 0x7ff0_0000_0000_0000,
        0 <= t as nat * pow2(p as nat) <= 0x7ff0_0000_0000_0000,
{
    let (pn, v) = (p as nat, pow2(p as nat));
    lemma2_to64();
    lemma2_to64_rest();
    lemma_pow2_pos(pn);
    if pn < 52 {
        lemma_pow2_strictly_increases(pn, 52);
    }
    assert(0 < emax as nat * v <= 2047 * 0x10_0000_0000_0000) by (nonlinear_arith)
        requires
            1 <= emax <= 2047,
            0 < v <= 0x10_0000_0000_0000,
    ;
    assert(0 <= t as nat * v <= 2047 * 0x10_0000_0000_0000) by (nonlinear_arith)
        requires
            t <= 2047,
            0 < v <= 0x10_0000_0000_0000,
    ;
}

} // verus!
