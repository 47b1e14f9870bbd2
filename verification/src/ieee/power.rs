//! Powers of two and bit lengths of machine integers.
use vstd::arithmetic::div_mod::*;
use vstd::arithmetic::mul::*;
use vstd::arithmetic::power2::*;
use vstd::bits::*;
use vstd::prelude::*;
use vstd::std_specs::bits::axiom_u64_leading_zeros;

verus! {

proof fn lemma_one_shl(s: u128)
    requires
        s < 128,
    ensures
        1u128 << s == pow2(s as nat),
    decreases s,
{
    if s == 0 {
        assert(1u128 << 0u128 == 1) by (bit_vector);
        lemma2_to64();
    } else {
        lemma_one_shl((s - 1) as u128);
        let t = (s - 1) as u128;
        assert(1u128 << s == 2 * (1u128 << t)) by (bit_vector)
            requires
                0 < s < 128,
                t == s - 1,
        ;
        lemma_pow2_unfold(s as nat);
    }
}

/// `2^s`.
#[inline(always)]
pub fn power_of_two(s: u32) -> (r: u128)
    requires
        s < 128,
    ensures
        r == pow2(s as nat),
{
    proof {
        lemma_one_shl(s as u128);
    }
    1u128 << (s as u128)
}

/// The number of binary digits of `m`.
#[inline(always)]
fn bit_length_half(m: u64) -> (n: u32)
    ensures
        n <= 64,
        m == 0 ==> n == 0,
        m > 0 ==> n > 0 && pow2((n - 1) as nat) <= m,
        m < pow2(n as nat),
{
    let lz: u32 = m.leading_zeros();
    proof {
        axiom_u64_leading_zeros(m);
        lemma2_to64();
        if m > 0 {
            let s = (63 - lz) as u64;
            lemma_u64_shr_is_div(m, s);
            let x = m >> s;
            assert(x != 0) by (bit_vector)
                requires
                    x & 1u64 != 0,
            ;
            lemma_pow2_pos(s as nat);
            lemma_fundamental_div_mod(m as int, pow2(s as nat) as int);
            let (d, q) = (pow2(s as nat) as int, x as int);
            assert(d * q >= d) by (nonlinear_arith)
                requires
                    q >= 1,
                    d > 0,
            ;
            if lz > 0 {
                let t = (64 - lz) as u64;
                lemma_u64_shr_is_div(m, t);
                lemma_pow2_pos(t as nat);
                lemma_fundamental_div_mod(m as int, pow2(t as nat) as int);
                let d = pow2(t as nat) as int;
                assert(d * (m as int / d) == 0) by (nonlinear_arith)
                    requires
                        m as int / d == 0,
                ;
                lemma_mod_bound(m as int, d);
            }
        }
    }
    64 - lz
}

/// The number of binary digits of `m`.
#[inline(always)]
pub fn bit_length(m: u128) -> (n: u32)
    ensures
        n <= 128,
        m == 0 ==> n == 0,
        m > 0 ==> n > 0 && pow2((n - 1) as nat) <= m,
        m < pow2(n as nat),
{
    proof {
        lemma2_to64();
        lemma_u128_shr_is_div(m, 64);
        lemma_fundamental_div_mod(m as int, 0x1_0000_0000_0000_0000);
    }
    let hi: u128 = m >> 64u128;
    if hi == 0 {
        return bit_length_half(m as u64);
    }
    let n: u32 = bit_length_half(hi as u64);
    proof {
        lemma_pow2_adds(n as nat, 64);
        lemma_pow2_adds((n - 1) as nat, 64);
        let (a, b, z) = (pow2((n - 1) as nat), pow2(n as nat), 0x1_0000_0000_0000_0000int);
        assert(a * z <= hi * z) by (nonlinear_arith)
            requires
                a <= hi,
                z > 0,
        ;
        assert((hi + 1) * z <= b * z) by (nonlinear_arith)
            requires
                hi + 1 <= b,
                z > 0,
        ;
    }
    n + 64
}

/// `m` in two parts: the whole number of times that `2^s` is in it, and the rest.
#[inline(always)]
pub fn split_at(m: u128, s: u32) -> (r: (u128, u128))
    requires
        s < 128,
    ensures
        r.0 == m as nat / pow2(s as nat),
        r.1 == m as nat % pow2(s as nat),
{
    proof {
        lemma_u128_shr_is_div(m, s as u128);
        lemma_pow2_pos(s as nat);
        lemma_fundamental_div_mod(m as int, pow2(s as nat) as int);
        let (q, d) = (m as int / pow2(s as nat) as int, pow2(s as nat) as int);
        assert(q * d == d * q) by (nonlinear_arith);
        assert(q >= 0) by {
            lemma_div_pos_is_pos(m as int, d);
        }
        lemma_mod_bound(m as int, d);
    }
    let q: u128 = m >> (s as u128);
    (q, m - q * power_of_two(s))
}

} // verus!
