//! Arithmetic on signed codes: the rules for signs, zeros, infinities and NaNs around the
//! rounding of magnitudes.
use vstd::arithmetic::power2::*;
use vstd::prelude::*;

use crate::ieee::codes::{add_codes, div_codes, inf_code, is_format, mul_codes, sub_codes};
use crate::ieee::encoding::{code_units, lemma_code_units_increases};
use crate::ieee::power::power_of_two;
use crate::ieee::root::{nearest_root_code, sqrt_code};
use crate::ieee::rounding::nearest_code;

verus! {

/// The code of the one NaN that operations give.
pub open spec fn nan_code(p: nat, inf: nat) -> nat {
    inf + pow2((p - 1) as nat)
}

/// The value of a number, in units.
pub open spec fn signed_units(neg: bool, code: nat, p: nat) -> int {
    if neg {
        -(code_units(code, p) as int)
    } else {
        code_units(code, p) as int
    }
}

/// The sum of two numbers.
pub open spec fn sum_of(na: bool, a: nat, nb: bool, b: nat, p: nat, inf: nat) -> (bool, nat) {
    let s = signed_units(na, a, p) + signed_units(nb, b, p);
    if a > inf || b > inf || (a == inf && b == inf && na != nb) {
        (false, nan_code(p, inf))
    } else if a == inf {
        (na, inf)
    } else if b == inf {
        (nb, inf)
    } else if s == 0 {
        (na && nb, 0)
    } else if s < 0 {
        (true, nearest_code((-s) as nat, 1, p, inf))
    } else {
        (false, nearest_code(s as nat, 1, p, inf))
    }
}

/// The product of two numbers in a format with a unit of `2^-k`.
pub open spec fn product_of(na: bool, a: nat, nb: bool, b: nat, p: nat, inf: nat, k: nat) -> (bool, nat) {
    if a > inf || b > inf || (a == inf && b == 0) || (a == 0 && b == inf) {
        (false, nan_code(p, inf))
    } else if a == inf || b == inf {
        (na != nb, inf)
    } else {
        (na != nb, nearest_code(code_units(a, p) * code_units(b, p), pow2(k), p, inf))
    }
}

/// The quotient of two numbers.
pub open spec fn quotient_of(na: bool, a: nat, nb: bool, b: nat, p: nat, inf: nat, k: nat) -> (bool, nat) {
    if a > inf || b > inf || (a == inf && b == inf) || (a == 0 && b == 0) {
        (false, nan_code(p, inf))
    } else if a == inf || b == 0 {
        (na != nb, inf)
    } else if b == inf || a == 0 {
        (na != nb, 0)
    } else {
        (na != nb, nearest_code(code_units(a, p) * pow2(k), code_units(b, p), p, inf))
    }
}

/// The square root of a number.
pub open spec fn root_of(neg: bool, a: nat, p: nat, inf: nat, k: nat) -> (bool, nat) {
    if a > inf || (neg && a > 0) {
        (false, nan_code(p, inf))
    } else if a == 0 || a == inf {
        (neg, a)
    } else {
        (false, nearest_root_code(code_units(a, p) * pow2(k), p, inf))
    }
}

/// The codes of the special values, as machine integers.
#[inline(always)]
fn special_codes(p: u32, emax: u32) -> (r: (u64, u64))
    requires
        is_format(p, emax, 0),
    ensures
        r.0 == inf_code(p, emax),
        r.1 == nan_code(p as nat, inf_code(p, emax)),
        r.1 < 0x8000_0000_0000_0000,
{
    proof {
        lemma2_to64();
        lemma2_to64_rest();
        lemma_pow2_pos(p as nat);
        lemma_pow2_pos((p - 1) as nat);
        if p < 52 {
            lemma_pow2_strictly_increases(p as nat, 52);
            lemma_pow2_strictly_increases((p - 1) as nat, 51);
        }
        assert(emax as nat * pow2(p as nat) <= 2047 * 0x10_0000_0000_0000) by (nonlinear_arith)
            requires
                emax <= 2047,
                0 < pow2(p as nat) <= 0x10_0000_0000_0000,
        ;
    }
    let inf: u64 = emax as u64 * power_of_two(p) as u64;
    (inf, inf + power_of_two(p - 1) as u64)
}

/// Adds two numbers.
#[inline(always)]
pub fn signed_sum(na: bool, a: u64, nb: bool, b: u64, p: u32, emax: u32) -> (r: (bool, u64))
    requires
        is_format(p, emax, 0),
    ensures
        (r.0, r.1 as nat) == sum_of(na, a as nat, nb, b as nat, p as nat, inf_code(p, emax)),
        r.1 <= nan_code(p as nat, inf_code(p, emax)) < 0x8000_0000_0000_0000,
{
    let (inf, nan): (u64, u64) = special_codes(p, emax);
    if a > inf || b > inf || (a == inf && b == inf && na != nb) {
        return (false, nan);
    }
    if a == inf {
        return (na, inf);
    }
    if b == inf {
        return (nb, inf);
    }
    proof {
        lemma_pow2_pos(p as nat);
        if a > 0 {
            lemma_code_units_increases(0, a as nat, p as nat);
        }
        if b > 0 {
            lemma_code_units_increases(0, b as nat, p as nat);
        }
        if a < b {
            lemma_code_units_increases(a as nat, b as nat, p as nat);
        }
        if b < a {
            lemma_code_units_increases(b as nat, a as nat, p as nat);
        }
    }
    if na == nb {
        if a == 0 && b == 0 {
            return (na, 0);
        }
        return (na, add_codes(a, b, p, emax));
    }
    if a == b {
        return (false, 0);
    }
    if a > b {
        (na, sub_codes(a, b, p, emax))
    } else {
        (nb, sub_codes(b, a, p, emax))
    }
}

/// Multiplies two numbers.
#[inline(always)]
pub fn signed_product(na: bool, a: u64, nb: bool, b: u64, p: u32, emax: u32, k: u32) -> (r: (bool, u64))
    requires
        is_format(p, emax, k),
    ensures
        (r.0, r.1 as nat) == product_of(na, a as nat, nb, b as nat, p as nat, inf_code(p, emax), k as nat),
        r.1 <= nan_code(p as nat, inf_code(p, emax)) < 0x8000_0000_0000_0000,
{
    let (inf, nan): (u64, u64) = special_codes(p, emax);
    if a > inf || b > inf || (a == inf && b == 0) || (a == 0 && b == inf) {
        return (false, nan);
    }
    if a == inf || b == inf {
        return (na != nb, inf);
    }
    (na != nb, mul_codes(a, b, p, emax, k))
}

/// Divides two numbers.
#[inline(always)]
pub fn signed_quotient(na: bool, a: u64, nb: bool, b: u64, p: u32, emax: u32, k: u32) -> (r: (bool, u64))
    requires
        is_format(p, emax, k),
    ensures
        (r.0, r.1 as nat) == quotient_of(na, a as nat, nb, b as nat, p as nat, inf_code(p, emax), k as nat),
        r.1 <= nan_code(p as nat, inf_code(p, emax)) < 0x8000_0000_0000_0000,
{
    let (inf, nan): (u64, u64) = special_codes(p, emax);
    if a > inf || b > inf || (a == inf && b == inf) || (a == 0 && b == 0) {
        return (false, nan);
    }
    if a == inf || b == 0 {
        return (na != nb, inf);
    }
    if b == inf || a == 0 {
        return (na != nb, 0);
    }
    (na != nb, div_codes(a, b, p, emax, k))
}

/// Takes the square root of a number.
#[inline(always)]
pub fn signed_root(neg: bool, a: u64, p: u32, emax: u32, k: u32) -> (r: (bool, u64))
    requires
        is_format(p, emax, k),
    ensures
        (r.0, r.1 as nat) == root_of(neg, a as nat, p as nat, inf_code(p, emax), k as nat),
        r.1 <= nan_code(p as nat, inf_code(p, emax)) < 0x8000_0000_0000_0000,
{
    let (inf, nan): (u64, u64) = special_codes(p, emax);
    if a > inf || (neg && a > 0) {
        return (false, nan);
    }
    if a == 0 || a == inf {
        return (neg, a);
    }
    (false, sqrt_code(a, p, emax, k))
}

} // verus!
