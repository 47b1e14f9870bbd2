//! Arithmetic on the codes of finite magnitudes, for any format with `p` fraction bits, the
//! exponent field `emax` for infinity, and a unit of `2^-k`.
use vstd::arithmetic::div_mod::*;
use vstd::arithmetic::mul::*;
use vstd::arithmetic::power2::*;
use vstd::bits::*;
use vstd::prelude::*;

use crate::ieee::encoding::{code_units, lemma_code_units_increases};
use crate::ieee::power::{bit_length, power_of_two, split_at};
use crate::ieee::rounding::{
    lemma_exact_rounds, lemma_gap_rounds, lemma_nearest_code, lemma_up_adds, lemma_up_pos,
    nearest_code, round_scaled, up,
};

verus! {

/// The parameters describe a format that the functions of this module handle.
pub open spec fn is_format(p: u32, emax: u32, k: u32) -> bool {
    1 <= p <= 52 && 1 <= emax <= 2047 && k <= 1074
}

/// The code of infinity.
pub open spec fn inf_code(p: u32, emax: u32) -> nat {
    emax as nat * pow2(p as nat)
}

/// The mantissa and exponent of a finite magnitude.
#[inline(always)]
pub fn split_code(code: u64, p: u32, emax: u32) -> (r: (u64, u32))
    requires
        1 <= p <= 52,
        1 <= emax <= 2047,
        code < inf_code(p, emax),
    ensures
        code_units(code as nat, p as nat) == r.0 as nat * pow2(r.1 as nat),
        r.0 < 2 * pow2(p as nat),
        2 * pow2(p as nat) <= pow2(53),
        r.1 < emax,
        r.1 > 0 ==> r.0 >= pow2(p as nat),
        code == 0 <==> r.0 == 0,
{
    proof {
        lemma2_to64();
        lemma2_to64_rest();
        lemma_pow2_pos(p as nat);
        if p < 52 {
            lemma_pow2_strictly_increases(p as nat, 52);
        }
        lemma_pow2_unfold(53);
    }
    let pp: u64 = power_of_two(p) as u64;
    if code < pp {
        assert(code as nat * pow2(0) == code) by (nonlinear_arith)
            requires
                pow2(0) == 1,
        ;
        return (code, 0);
    }
    let e: u64 = code >> (p as u64);
    proof {
        lemma_u64_shr_is_div(code, p as u64);
        lemma_fundamental_div_mod(code as int, pp as int);
        lemma_mod_bound(code as int, pp as int);
        assert(e * pp == pp * e) by (nonlinear_arith);
    }
    let f: u64 = code - e * pp;
    proof {
        lemma_div_non_zero(code as int, pp as int);
        assert(e < emax) by (nonlinear_arith)
            requires
                e == code as int / pp as int,
                code < emax as nat * pp,
                pp > 0,
        ;
        lemma_pow2_pos((e - 1) as nat);
    }
    (f + pp, (e - 1) as u32)
}

/// The product of two finite magnitudes.
#[inline(always)]
pub fn mul_codes(a: u64, b: u64, p: u32, emax: u32, k: u32) -> (c: u64)
    requires
        is_format(p, emax, k),
        a < inf_code(p, emax),
        b < inf_code(p, emax),
    ensures
        c == nearest_code(
            code_units(a as nat, p as nat) * code_units(b as nat, p as nat),
            pow2(k as nat),
            p as nat,
            inf_code(p, emax),
        ),
        c <= inf_code(p, emax),
{
    let (ma, ea): (u64, u32) = split_code(a, p, emax);
    let (mb, eb): (u64, u32) = split_code(b, p, emax);
    proof {
        lemma_mantissa_bound(p);
        assert(ma as nat * mb as nat <= 0x3f_ffff_ffff_ffff * 0x3f_ffff_ffff_ffff) by (nonlinear_arith)
            requires
                ma <= 0x3f_ffff_ffff_ffff,
                mb <= 0x3f_ffff_ffff_ffff,
        ;
    }
    let m: u128 = ma as u128 * mb as u128;
    let e: i32 = ea as i32 + eb as i32 - k as i32;
    let c: u64 = round_scaled(m, e, false, p, emax);
    proof {
        let (ua, ub) = (code_units(a as nat, p as nat), code_units(b as nat, p as nat));
        let (pa, pb, pk) = (pow2(ea as nat), pow2(eb as nat), pow2(k as nat));
        lemma_pow2_pos(k as nat);
        lemma_up_adds(k as nat, e as int);
        lemma_pow2_adds(ea as nat, eb as nat);
        let (u, v) = (up(e as int), up(-e));
        assert((ua * ub) * v == m as nat * u * pk) by (nonlinear_arith)
            requires
                ua == ma as nat * pa,
                ub == mb as nat * pb,
                m == ma as nat * mb as nat,
                pa * pb * v == pk * u,
        ;
        lemma_exact_rounds(c as nat, m as nat, e as int, ua * ub, pk, p as nat, inf_code(p, emax));
        lemma_nearest_code(c as nat, ua * ub, pk, p as nat, inf_code(p, emax));
    }
    c
}

/// The quotient of two finite magnitudes.
#[inline(always)]
pub fn div_codes(a: u64, b: u64, p: u32, emax: u32, k: u32) -> (c: u64)
    requires
        is_format(p, emax, k),
        0 < a < inf_code(p, emax),
        0 < b < inf_code(p, emax),
    ensures
        c == nearest_code(
            code_units(a as nat, p as nat) * pow2(k as nat),
            code_units(b as nat, p as nat),
            p as nat,
            inf_code(p, emax),
        ),
        c <= inf_code(p, emax),
{
    let (ma, ea): (u64, u32) = split_code(a, p, emax);
    let (mb, eb): (u64, u32) = split_code(b, p, emax);
    let na: u32 = bit_length(ma as u128);
    proof {
        lemma_mantissa_bound(p);
        if na > 64 {
            lemma_pow2_strictly_increases(63, (na - 1) as nat);
            lemma2_to64_rest();
        }
    }
    let sh: u32 = 126 - na;
    proof {
        lemma_pow2_adds(na as nat, sh as nat);
        lemma_pow2_adds((na - 1) as nat, sh as nat);
        lemma_pow2_unfold(127);
        lemma_pow2_unfold(126);
        lemma_pow2_pos(sh as nat);
        let (x, y, z, w) = (pow2((na - 1) as nat), pow2(na as nat), pow2(sh as nat), ma as nat);
        assert(x * z <= w * z < y * z) by (nonlinear_arith)
            requires
                x <= w < y,
                z > 0,
        ;
    }
    let scaled: u128 = ma as u128 * power_of_two(sh);
    let q: u128 = scaled / mb as u128;
    proof {
        lemma_fundamental_div_mod(scaled as int, mb as int);
        lemma_mod_bound(scaled as int, mb as int);
        assert(q * mb == mb * q) by (nonlinear_arith);
    }
    let rem: u128 = scaled - q * mb as u128;
    let e: i32 = ea as i32 + k as i32 - eb as i32 - sh as i32;
    proof {
        lemma_pow2_adds(53, 72);
        lemma_pow2_strictly_increases((p + 1) as nat, 72);
        assert(q >= pow2(72)) by (nonlinear_arith)
            requires
                scaled < mb * q + mb,
                scaled >= pow2(53) * pow2(72),
                0 < mb < pow2(53),
        ;
        assert(q <= scaled) by (nonlinear_arith)
            requires
                mb * q <= scaled,
                mb >= 1,
                q >= 0,
        ;
    }
    let c: u64 = round_scaled(q, e, rem != 0, p, emax);
    proof {
        let (ua, d) = (code_units(a as nat, p as nat), code_units(b as nat, p as nat));
        let (pa, pb, pk, ps) = (pow2(ea as nat), pow2(eb as nat), pow2(k as nat), pow2(sh as nat));
        let n = ua * pk;
        let (u, v) = (up(e as int), up(-e));
        lemma_up_pos(e as int);
        lemma_up_pos(-e);
        lemma_pow2_pos(eb as nat);
        lemma_up_adds((eb + sh) as nat, e as int);
        lemma_pow2_adds(ea as nat, k as nat);
        lemma_pow2_adds(eb as nat, sh as nat);
        assert(d > 0) by (nonlinear_arith)
            requires
                d == mb as nat * pb,
                mb > 0,
                pb > 0,
        ;
        let g = pb * u;
        assert(g > 0) by (nonlinear_arith)
            requires
                g == pb * u,
                pb > 0,
                u > 0,
        ;
        assert(n * v == (mb as nat * q as nat + rem as nat) * g) by (nonlinear_arith)
            requires
                n == ma as nat * pa * pk,
                pa * pk * v == pb * ps * u,
                ma as nat * ps == mb as nat * q as nat + rem as nat,
                g == pb * u,
        ;
        assert(q as nat * u * d == (mb as nat * q as nat) * g) by (nonlinear_arith)
            requires
                d == mb as nat * pb,
                g == pb * u,
        ;
        assert((q as nat + 1) * u * d == (mb as nat * q as nat + mb as nat) * g) by (nonlinear_arith)
            requires
                d == mb as nat * pb,
                g == pb * u,
        ;
        if rem == 0 {
            lemma_exact_rounds(c as nat, q as nat, e as int, n, d, p as nat, inf_code(p, emax));
        } else {
            let t = mb as nat * q as nat;
            assert(t * g < (t + rem as nat) * g < (t + mb as nat) * g) by (nonlinear_arith)
                requires
                    0 < rem < mb,
                    g > 0,
            ;
            lemma_gap_rounds(c as nat, q as nat, e as int, n, d, p as nat, inf_code(p, emax));
        }
        lemma_nearest_code(c as nat, n, d, p as nat, inf_code(p, emax));
    }
    c
}

/// `mb * 2^eb` in terms of `2^(eb + sh)`: the whole part and whether anything is left over.
#[inline(always)]
fn shift_down(mb: u64, sh: u32) -> (r: (u64, bool))
    ensures
        r.0 == mb as nat / pow2(sh as nat),
        r.0 <= mb,
        r.1 == (mb as nat % pow2(sh as nat) != 0),
        mb == r.0 as nat * pow2(sh as nat) + mb as nat % pow2(sh as nat),
        mb as nat % pow2(sh as nat) < pow2(sh as nat),
{
    proof {
        lemma_pow2_pos(sh as nat);
        lemma_fundamental_div_mod(mb as int, pow2(sh as nat) as int);
        let (q, d) = (mb as nat / pow2(sh as nat), pow2(sh as nat));
        assert(q * d == d * q) by (nonlinear_arith);
        assert(q <= mb) by (nonlinear_arith)
            requires
                d * q <= mb,
                d >= 1,
                q >= 0,
        ;
    }
    if sh >= 64 {
        proof {
            lemma2_to64();
            if sh > 64 {
                lemma_pow2_strictly_increases(64, sh as nat);
            }
            lemma_basic_div(mb as int, pow2(sh as nat) as int);
            lemma_small_mod(mb as nat, pow2(sh as nat));
        }
        return (0, mb != 0);
    }
    let (q, rest): (u128, u128) = split_at(mb as u128, sh);
    (q as u64, rest != 0)
}

/// The sum of two finite magnitudes.
#[inline(always)]
pub fn add_codes(x: u64, y: u64, p: u32, emax: u32) -> (c: u64)
    requires
        is_format(p, emax, 0),
        x < inf_code(p, emax),
        y < inf_code(p, emax),
    ensures
        c == nearest_code(
            code_units(x as nat, p as nat) + code_units(y as nat, p as nat),
            1,
            p as nat,
            inf_code(p, emax),
        ),
        c <= inf_code(p, emax),
{
    let (mx, ex): (u64, u32) = split_code(x, p, emax);
    let (my, ey): (u64, u32) = split_code(y, p, emax);
    let ghost n = code_units(x as nat, p as nat) + code_units(y as nat, p as nat);
    let swap: bool = ex < ey;
    let (ma, ea): (u64, u32) = if swap {
        (my, ey)
    } else {
        (mx, ex)
    };
    let (mb, eb): (u64, u32) = if swap {
        (mx, ex)
    } else {
        (my, ey)
    };
    let ghost inf = inf_code(p, emax);
    proof {
        lemma_mantissa_bound(p);
    }
    let d: u32 = ea - eb;
    if d <= 70 {
        proof {
            lemma_aligned(ma, mb, ea, eb, d);
        }
        let m: u128 = ma as u128 * power_of_two(d) + mb as u128;
        let c: u64 = round_scaled(m, eb as i32, false, p, emax);
        proof {
            lemma_up_at(eb as nat);
            lemma_exact_rounds(c as nat, m as nat, eb as int, n, 1, p as nat, inf);
            lemma_nearest_code(c as nat, n, 1, p as nat, inf);
        }
        return c;
    }
    let sh: u32 = d - 70;
    let (hi, rest): (u64, bool) = shift_down(mb, sh);
    proof {
        lemma_aligned(ma, hi, ea, (ea - 70) as u32, 70);
        lemma_far(ma, p);
    }
    let m: u128 = ma as u128 * power_of_two(70) + hi as u128;
    let e: i32 = ea as i32 - 70;
    let c: u64 = round_scaled(m, e, rest, p, emax);
    proof {
        let low = mb as nat % pow2(sh as nat);
        let (pb, ps, pe) = (pow2(eb as nat), pow2(sh as nat), pow2(e as nat));
        lemma_pow2_adds(eb as nat, sh as nat);
        lemma_pow2_pos(eb as nat);
        lemma_pow2_pos(sh as nat);
        lemma_mod_bound(mb as int, ps as int);
        assert(n == m as nat * pe + low * pb) by (nonlinear_arith)
            requires
                n == ma as nat * pow2(ea as nat) + mb as nat * pb,
                m as nat * pe == ma as nat * pow2(ea as nat) + hi as nat * pe,
                mb == hi as nat * ps + low,
                pe == pb * ps,
        ;
        assert(0 <= low * pb < pe) by (nonlinear_arith)
            requires
                0 <= low < ps,
                pb > 0,
                pe == pb * ps,
        ;
        lemma_up_at(e as nat);
        if rest {
            assert(low * pb > 0) by (nonlinear_arith)
                requires
                    low > 0,
                    pb > 0,
            ;
            assert((m as nat + 1) * pe == m as nat * pe + pe) by (nonlinear_arith);
            lemma_gap_rounds(c as nat, m as nat, e as int, n, 1, p as nat, inf);
        } else {
            assert(low * pb == 0) by (nonlinear_arith)
                requires
                    low == 0,
            ;
            lemma_exact_rounds(c as nat, m as nat, e as int, n, 1, p as nat, inf);
        }
        lemma_nearest_code(c as nat, n, 1, p as nat, inf);
    }
    c
}

/// The difference of two finite magnitudes, the larger first.
#[inline(always)]
pub fn sub_codes(x: u64, y: u64, p: u32, emax: u32) -> (c: u64)
    requires
        is_format(p, emax, 0),
        y < x < inf_code(p, emax),
    ensures
        code_units(x as nat, p as nat) > code_units(y as nat, p as nat),
        c == nearest_code(
            (code_units(x as nat, p as nat) - code_units(y as nat, p as nat)) as nat,
            1,
            p as nat,
            inf_code(p, emax),
        ),
        c <= inf_code(p, emax),
{
    let (ma, ea): (u64, u32) = split_code(x, p, emax);
    let (mb, eb): (u64, u32) = split_code(y, p, emax);
    let ghost n = (code_units(x as nat, p as nat) - code_units(y as nat, p as nat)) as nat;
    let ghost inf = inf_code(p, emax);
    proof {
        lemma_mantissa_bound(p);
        lemma_code_units_increases(y as nat, x as nat, p as nat);
        if ea < eb {
            // The larger magnitude would have the smaller exponent.
            lemma_exponents_follow(ma as nat, ea as nat, mb as nat, eb as nat, p as nat);
        }
    }
    let d: u32 = ea - eb;
    if d <= 70 {
        proof {
            lemma_aligned(ma, mb, ea, eb, d);
            let (g, pb) = (ma as nat * pow2(d as nat) - mb as nat, pow2(eb as nat));
            lemma_pow2_pos(eb as nat);
            assert(g > 0) by (nonlinear_arith)
                requires
                    g * pb == n,
                    n > 0,
                    pb > 0,
            ;
        }
        let m: u128 = ma as u128 * power_of_two(d) - mb as u128;
        let c: u64 = round_scaled(m, eb as i32, false, p, emax);
        proof {
            lemma_up_at(eb as nat);
            lemma_exact_rounds(c as nat, m as nat, eb as int, n, 1, p as nat, inf);
            lemma_nearest_code(c as nat, n, 1, p as nat, inf);
        }
        return c;
    }
    let sh: u32 = d - 70;
    let (hi, rest): (u64, bool) = shift_down(mb, sh);
    proof {
        lemma_aligned(ma, hi, ea, (ea - 70) as u32, 70);
        lemma_far(ma, p);
        lemma_pow2_unfold(54);
    }
    let m: u128 = ma as u128 * power_of_two(70) - hi as u128 - if rest {
        1u128
    } else {
        0u128
    };
    let e: i32 = ea as i32 - 70;
    let c: u64 = round_scaled(m, e, rest, p, emax);
    proof {
        let low = mb as nat % pow2(sh as nat);
        let (pb, ps, pe) = (pow2(eb as nat), pow2(sh as nat), pow2(e as nat));
        lemma_pow2_adds(eb as nat, sh as nat);
        lemma_pow2_pos(eb as nat);
        lemma_pow2_pos(sh as nat);
        lemma_mod_bound(mb as int, ps as int);
        let whole = ma as nat * pow2(70) - hi as nat;
        assert(n == whole * pe - low * pb) by (nonlinear_arith)
            requires
                n == ma as nat * pow2(ea as nat) - mb as nat * pb,
                whole * pe == ma as nat * pow2(ea as nat) - hi as nat * pe,
                mb == hi as nat * ps + low,
                pe == pb * ps,
        ;
        assert(0 <= low * pb < pe) by (nonlinear_arith)
            requires
                0 <= low < ps,
                pb > 0,
                pe == pb * ps,
        ;
        lemma_up_at(e as nat);
        if rest {
            assert(low * pb > 0) by (nonlinear_arith)
                requires
                    low > 0,
                    pb > 0,
            ;
            assert((m as nat + 1) * pe == m as nat * pe + pe) by (nonlinear_arith);
            assert(whole * pe == (m as nat + 1) * pe);
            lemma_gap_rounds(c as nat, m as nat, e as int, n, 1, p as nat, inf);
        } else {
            assert(low * pb == 0) by (nonlinear_arith)
                requires
                    low == 0,
            ;
            lemma_exact_rounds(c as nat, m as nat, e as int, n, 1, p as nat, inf);
        }
        lemma_nearest_code(c as nat, n, 1, p as nat, inf);
    }
    c
}

/// Of two magnitudes the one with the larger exponent is the larger.
proof fn lemma_exponents_follow(ma: nat, ea: nat, mb: nat, eb: nat, p: nat)
    requires
        ea < eb,
        ma < 2 * pow2(p),
        mb >= pow2(p),
    ensures
        ma * pow2(ea) < mb * pow2(eb),
{
    lemma_pow2_pos(ea);
    lemma_pow2_unfold(ea + 1);
    if ea + 1 < eb {
        lemma_pow2_strictly_increases(ea + 1, eb);
    }
    let (a, b, q) = (pow2(ea), pow2(eb), pow2(p));
    assert(ma * a < mb * b) by (nonlinear_arith)
        requires
            ma < 2 * q,
            mb >= q,
            b >= 2 * a,
            a > 0,
    ;
}

/// Two magnitudes brought to the exponent of the smaller one.
proof fn lemma_aligned(ma: u64, mb: u64, ea: u32, eb: u32, d: u32)
    requires
        d <= 70,
        eb + d == ea,
        ma < pow2(53),
        mb < pow2(53),
    ensures
        0 <= ma as nat * pow2(d as nat) < pow2(123),
        pow2(123) == 0x800_0000_0000_0000_0000_0000_0000_0000,
        (ma as nat * pow2(d as nat) + mb as nat) * pow2(eb as nat) == ma as nat * pow2(ea as nat)
            + mb as nat * pow2(eb as nat),
        (ma as nat * pow2(d as nat) - mb as nat) * pow2(eb as nat) == ma as nat * pow2(ea as nat)
            - mb as nat * pow2(eb as nat),
{
    lemma2_to64();
    lemma2_to64_rest();
    lemma_pow2_adds(eb as nat, d as nat);
    lemma_pow2_adds(59, 64);
    assert(0x800_0000_0000_0000 * 0x1_0000_0000_0000_0000
        == 0x800_0000_0000_0000_0000_0000_0000_0000int) by (nonlinear_arith);
    lemma_pow2_adds(53, 70);
    lemma_pow2_pos(d as nat);
    if d < 70 {
        lemma_pow2_strictly_increases(d as nat, 70);
    }
    let (a, b, pd, pb) = (ma as nat, mb as nat, pow2(d as nat), pow2(eb as nat));
    assert(0 <= a * pd < pow2(53) * pow2(70)) by (nonlinear_arith)
        requires
            0 <= a < pow2(53),
            0 < pd <= pow2(70),
    ;
    assert((a * pd + b) * pb == a * (pb * pd) + b * pb) by (nonlinear_arith);
    assert((a * pd - b) * pb == a * (pb * pd) - b * pb) by (nonlinear_arith);
}

proof fn lemma_far(ma: u64, p: u32)
    requires
        1 <= p <= 52,
        ma >= pow2(p as nat),
    ensures
        ma as nat * pow2(70) >= pow2((p + 70) as nat),
        pow2((p + 70) as nat) >= pow2((p + 1) as nat) + pow2(54),
{
    lemma_pow2_adds(p as nat, 70);
    lemma_pow2_pos(70);
    let (a, b, c) = (ma as nat, pow2(p as nat), pow2(70));
    assert(a * c >= b * c) by (nonlinear_arith)
        requires
            a >= b,
            c > 0,
    ;
    lemma_pow2_strictly_increases((p + 1) as nat, (p + 69) as nat);
    lemma_pow2_strictly_increases(54, (p + 69) as nat);
    lemma_pow2_unfold((p + 70) as nat);
}

/// For a value that is a whole number of units the scaling factors are trivial.
proof fn lemma_up_at(e: nat)
    ensures
        up(e as int) == pow2(e),
        up(-e) == 1,
        forall|n: nat| #[trigger] (n * up(-e)) == n,
        forall|n: nat| #[trigger] (n * 1nat) == n,
{
    lemma2_to64();
    assert(up(-e) == 1);
    assert forall|n: nat| #[trigger] (n * up(-e)) == n by {
        assert(n * up(-e) == n) by (nonlinear_arith)
            requires
                up(-e) == 1,
        ;
    }
}

pub proof fn lemma_mantissa_bound(p: u32)
    requires
        1 <= p <= 52,
    ensures
        2 * pow2(p as nat) <= 0x20_0000_0000_0000,
        pow2(127) == 0x8000_0000_0000_0000_0000_0000_0000_0000,
        pow2(53) == 0x20_0000_0000_0000,
        pow2(64) == 0x1_0000_0000_0000_0000,
{
    lemma2_to64();
    lemma2_to64_rest();
    if p < 52 {
        lemma_pow2_strictly_increases(p as nat, 52);
    }
    lemma_pow2_adds(63, 64);
    assert(0x8000_0000_0000_0000 * 0x1_0000_0000_0000_0000
        == 0x8000_0000_0000_0000_0000_0000_0000_0000int) by (nonlinear_arith);
}

} // verus!
