//! Square roots of codes.
use vstd::arithmetic::div_mod::*;
use vstd::arithmetic::mul::*;
use vstd::arithmetic::power2::*;
use vstd::prelude::*;

use crate::ieee::codes::{inf_code, is_format, lemma_mantissa_bound, split_code};
use crate::ieee::encoding::{code_units, lemma_code_units_increases};
use crate::ieee::power::{bit_length, power_of_two};
use crate::ieee::rounding::{
    lemma_code_units_ordered, lemma_up_adds, lemma_up_pos, round_scaled, rounds_gap_to, rounds_to,
    up,
};

verus! {

/// `c` is the code nearest to the square root of `s` (in units), the even one halfway between two.
pub open spec fn root_rounds_to(c: nat, s: nat, p: nat, inf: nat) -> bool {
    &&& c <= inf
    &&& c > 0 ==> {
        let low = code_units((c - 1) as nat, p) + code_units(c, p);
        4 * s > low * low || (4 * s == low * low && c % 2 == 0)
    }
    &&& c < inf ==> {
        let high = code_units(c, p) + code_units(c + 1, p);
        4 * s < high * high || (4 * s == high * high && c % 2 == 0)
    }
}

/// The code nearest to the square root of `s`.
pub open spec fn nearest_root_code(s: nat, p: nat, inf: nat) -> nat {
    choose|c: nat| root_rounds_to(c, s, p, inf)
}

proof fn lemma_root_ordered(c1: nat, c2: nat, s: nat, p: nat, inf: nat)
    requires
        c1 <= c2,
        root_rounds_to(c1, s, p, inf),
        root_rounds_to(c2, s, p, inf),
    ensures
        c1 == c2,
{
    if c1 < c2 {
        let high = code_units(c1, p) + code_units(c1 + 1, p);
        let low = code_units((c2 - 1) as nat, p) + code_units(c2, p);
        lemma_code_units_ordered(c1, (c2 - 1) as nat, p);
        lemma_code_units_ordered(c1 + 1, c2, p);
        lemma_square_order(high, low);
        if c1 + 1 < c2 {
            lemma_code_units_increases(c1, (c2 - 1) as nat, p);
        }
    }
}

/// No number has its root nearest to two codes.
pub proof fn lemma_nearest_root_code(c: nat, s: nat, p: nat, inf: nat)
    requires
        root_rounds_to(c, s, p, inf),
    ensures
        nearest_root_code(s, p, inf) == c,
{
    let n = nearest_root_code(s, p, inf);
    if n <= c {
        lemma_root_ordered(n, c, s, p, inf);
    } else {
        lemma_root_ordered(c, n, s, p, inf);
    }
}

proof fn lemma_square_order(a: nat, b: nat)
    ensures
        a < b <==> a * a < b * b,
        a == b <==> a * a == b * b,
{
    if a < b {
        assert(a * a < b * b) by (nonlinear_arith)
            requires
                0 <= a < b,
        ;
    } else if b < a {
        assert(b * b < a * a) by (nonlinear_arith)
            requires
                0 <= b < a,
        ;
    }
}

/// The whole part of the square root.
#[inline(always)]
pub fn whole_root(x: u128) -> (r: u64)
    requires
        x < pow2(110),
    ensures
        r as nat * r as nat <= x < (r + 1) * (r + 1),
        r < pow2(55),
{
    let mut r: u64 = 0;
    let mut i: u32 = 55;
    proof {
        lemma2_to64();
        lemma2_to64_rest();
        lemma_pow2_adds(55, 55);
    }
    while i > 0
        invariant
            i <= 55,
            pow2(55) == 0x80_0000_0000_0000,
            r as nat * r as nat <= x,
            x < (r as nat + pow2(i as nat)) * (r as nat + pow2(i as nat)),
            r as nat + pow2(i as nat) <= pow2(55),
        decreases i,
    {
        i = i - 1;
        proof {
            lemma_pow2_unfold((i + 1) as nat);
            lemma_pow2_pos(i as nat);
        }
        let bit: u64 = power_of_two(i) as u64;
        let t: u64 = r + bit;
        proof {
            assert(t as nat * t as nat <= 0x80_0000_0000_0000 * 0x80_0000_0000_0000) by (nonlinear_arith)
                requires
                    t <= 0x80_0000_0000_0000,
            ;
        }
        if t as u128 * t as u128 <= x {
            r = t;
        }
    }
    proof {
        lemma2_to64();
    }
    r
}

/// The square root of a positive finite magnitude.
#[inline(always)]
pub fn sqrt_code(a: u64, p: u32, emax: u32, k: u32) -> (c: u64)
    requires
        is_format(p, emax, k),
        0 < a < inf_code(p, emax),
    ensures
        c == nearest_root_code(
            code_units(a as nat, p as nat) * pow2(k as nat),
            p as nat,
            inf_code(p, emax),
        ),
        c <= inf_code(p, emax),
{
    let (m, e0): (u64, u32) = split_code(a, p, emax);
    let n: u32 = bit_length(m as u128);
    proof {
        lemma_mantissa_bound(p);
        lemma2_to64_rest();
        if n > 64 {
            lemma_pow2_strictly_increases(63, (n - 1) as nat);
        }
    }
    let total: u32 = e0 + k;
    let sh: u32 = if (total + n) % 2 == 0 {
        108 - n
    } else {
        109 - n
    };
    proof {
        lemma_shifted(m as nat, n as nat, sh as nat);
    }
    let scaled: u128 = m as u128 * power_of_two(sh);
    let r: u64 = whole_root(scaled);
    let sticky: bool = r as u128 * r as u128 != scaled;
    let e: i32 = (total as i32 - sh as i32) / 2;
    proof {
        assert(2 * e == total - sh);
        // The root has more digits than the format.
        lemma_pow2_adds(53, 53);
        lemma_square_order(pow2(53), (r + 1) as nat);
        if p < 52 {
            lemma_pow2_strictly_increases((p + 1) as nat, 53);
        }
        lemma_pow2_strictly_increases(55, 127);
    }
    let c: u64 = round_scaled(r as u128, e, sticky, p, emax);
    proof {
        let s = code_units(a as nat, p as nat) * pow2(k as nat);
        let (u, v, pn, inf) = (up(e as int), up(-e), p as nat, inf_code(p, emax));
        lemma_up_pos(-e);
        lemma_up_adds(sh as nat, 2 * e);
        lemma_up_square(e as int);
        lemma_up_square(-e);
        lemma_pow2_adds(e0 as nat, k as nat);
        let (pa, pk, ps) = (pow2(e0 as nat), pow2(k as nat), pow2(sh as nat));
        assert(s * (v * v) == scaled as nat * (u * u)) by (nonlinear_arith)
            requires
                s == m as nat * pa * pk,
                pa * pk * (v * v) == ps * (u * u),
                scaled == m as nat * ps,
        ;
        lemma_root_from_rounding(c as nat, r as nat, scaled as nat, sticky, e as int, s, pn, inf);
        lemma_nearest_root_code(c as nat, s, pn, inf);
    }
    c
}

proof fn lemma_shifted(m: nat, n: nat, sh: nat)
    requires
        0 < n <= 64,
        pow2((n - 1) as nat) <= m < pow2(n),
        n + sh == 108 || n + sh == 109,
    ensures
        pow2(107) <= m * pow2(sh) < pow2(109),
        pow2(106) < pow2(107),
        pow2(109) < pow2(110) < pow2(127),
{
    lemma_pow2_adds((n - 1) as nat, sh);
    lemma_pow2_adds(n, sh);
    lemma_pow2_pos(sh);
    let (a, b, z) = (pow2((n - 1) as nat), pow2(n), pow2(sh));
    assert(a * z <= m * z < b * z) by (nonlinear_arith)
        requires
            a <= m < b,
            z > 0,
    ;
    lemma_pow2_strictly_increases(106, 107);
    lemma_pow2_strictly_increases(107, 108);
    lemma_pow2_strictly_increases(108, 109);
    lemma_pow2_strictly_increases(109, 110);
    lemma_pow2_strictly_increases(110, 127);
}

proof fn lemma_up_square(e: int)
    ensures
        up(2 * e) == up(e) * up(e),
{
    if e >= 0 {
        lemma_pow2_adds(e as nat, e as nat);
    }
}

/// Rounding the whole root, with a mark for what it leaves out, rounds the root.
proof fn lemma_root_from_rounding(c: nat, r: nat, x: nat, sticky: bool, e: int, s: nat, p: nat, inf: nat)
    requires
        r * r <= x < (r + 1) * (r + 1),
        sticky == (r * r != x),
        s * (up(-e) * up(-e)) == x * (up(e) * up(e)),
        sticky ==> rounds_gap_to(c, r, e, p, inf),
        !sticky ==> rounds_to(c, r * up(e), up(-e), p, inf),
    ensures
        root_rounds_to(c, s, p, inf),
{
    let (u, v) = (up(e), up(-e));
    lemma_up_pos(e);
    lemma_up_pos(-e);
    if c > 0 {
        lemma_root_side(r, x, u, v, s, code_units((c - 1) as nat, p) + code_units(c, p));
    }
    if c < inf {
        lemma_root_side(r, x, u, v, s, code_units(c, p) + code_units(c + 1, p));
    }
}

proof fn lemma_root_side(r: nat, x: nat, u: nat, v: nat, s: nat, k: nat)
    requires
        u > 0,
        v > 0,
        r * r <= x < (r + 1) * (r + 1),
        s * (v * v) == x * (u * u),
    ensures
        r * r == x && 2 * (r * u) > k * v ==> 4 * s > k * k,
        r * r == x && 2 * (r * u) == k * v ==> 4 * s == k * k,
        r * r == x && 2 * (r * u) < k * v ==> 4 * s < k * k,
        r * r != x && 2 * r * u >= k * v ==> 4 * s > k * k,
        2 * (r + 1) * u <= k * v ==> 4 * s < k * k,
{
    let (a, b, c) = (2 * r * u, k * v, 2 * (r + 1) * u);
    let vv = v * v;
    assert(vv > 0) by (nonlinear_arith)
        requires
            vv == v * v,
            v > 0,
    ;
    assert(a == 2 * (r * u)) by (nonlinear_arith)
        requires
            a == 2 * r * u,
    ;
    lemma_square_order(a, b);
    lemma_square_order(c, b);
    assert(a * a == 4 * (r * r) * (u * u)) by (nonlinear_arith)
        requires
            a == 2 * r * u,
    ;
    assert(c * c == 4 * ((r + 1) * (r + 1)) * (u * u)) by (nonlinear_arith)
        requires
            c == 2 * (r + 1) * u,
    ;
    assert(b * b == (k * k) * vv) by (nonlinear_arith)
        requires
            b == k * v,
            vv == v * v,
    ;
    let uu = u * u;
    assert(uu > 0) by (nonlinear_arith)
        requires
            uu == u * u,
            u > 0,
    ;
    let (rr, qq) = (r * r, (r + 1) * (r + 1));
    assert(4 * s * vv == 4 * x * uu) by (nonlinear_arith)
        requires
            s * vv == x * uu,
    ;
    assert(4 * rr * uu <= 4 * x * uu) by (nonlinear_arith)
        requires
            rr <= x,
            uu > 0,
    ;
    assert(4 * x * uu < 4 * qq * uu) by (nonlinear_arith)
        requires
            x < qq,
            uu > 0,
    ;
    if rr != x {
        assert(4 * rr * uu < 4 * x * uu) by (nonlinear_arith)
            requires
                rr < x,
                uu > 0,
        ;
    }
    let kk = k * k;
    assert(4 * s * vv > kk * vv <==> 4 * s > kk) by (nonlinear_arith)
        requires
            vv > 0,
    ;
    assert(4 * s * vv < kk * vv <==> 4 * s < kk) by (nonlinear_arith)
        requires
            vv > 0,
    ;
}

} // verus!
