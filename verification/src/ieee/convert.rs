//! Conversions between `binary64` numbers, `binary32` numbers and integers.
use vstd::arithmetic::div_mod::*;
use vstd::arithmetic::mul::*;
use vstd::arithmetic::power2::*;
use vstd::prelude::*;

use crate::ieee::codes::{inf_code, is_format, lemma_mantissa_bound, split_code};
use crate::ieee::double::{double_of, lemma_double_format, DOUBLE_INF};
use crate::ieee::encoding::{code_units, lemma_code_units_increases, Double, Single};
use crate::ieee::power::{power_of_two, split_at};
use crate::ieee::rounding::{
    lemma_code_rounds_to_itself, lemma_exact_rounds, lemma_nearest_code, lemma_up_adds,
    nearest_code, round_scaled, up,
};
use crate::ieee::signed::nan_code;
use crate::ieee::single::{lemma_single_format, single_of, SINGLE_INF};

verus! {

/// The `binary64` number nearest to a whole number.
pub open spec fn double_of_int(x: int) -> Double {
    if x < 0 {
        double_of((true, nearest_code((-x) as nat * pow2(1074), 1, 52, DOUBLE_INF as nat)))
    } else {
        double_of((false, nearest_code(x as nat * pow2(1074), 1, 52, DOUBLE_INF as nat)))
    }
}

/// The whole number of `n / 2^k` that is nearest, halves upwards.
pub open spec fn half_up(n: nat, k: nat) -> nat {
    (2 * n + pow2(k)) / pow2(k + 1)
}

/// `x` brought into the range from `low` to `high`.
pub open spec fn saturated(x: int, low: int, high: int) -> int {
    if x < low {
        low
    } else if x > high {
        high
    } else {
        x
    }
}

impl Double {
    /// The nearest whole number, halves away from zero.
    pub open spec fn nearest_int(self) -> int {
        if self.negative() {
            -(half_up(code_units(self.code(), 52), 1074) as int)
        } else {
            half_up(code_units(self.code(), 52), 1074) as int
        }
    }

    /// The largest whole number that is not larger.
    pub open spec fn floor_int(self) -> int {
        self.units() / pow2(1074) as int
    }
}

/// The code nearest to the magnitude `m`.
#[inline(always)]
fn code_of_magnitude(m: u128) -> (c: u64)
    requires
        m <= pow2(127),
    ensures
        c == nearest_code(m as nat * pow2(1074), 1, 52, DOUBLE_INF as nat),
        c <= DOUBLE_INF,
{
    proof {
        lemma_double_format();
        lemma_mantissa_bound(52);
        lemma_pow2_unfold(127);
        lemma_pow2_unfold(1075);
        assert(up(1074) == pow2(1074) && up(-1074) == 1 && up(1075) == pow2(1075) && up(-1075) == 1);
    }
    let big: bool = m >= 0x8000_0000_0000_0000_0000_0000_0000_0000;
    let c: u64 = if big {
        round_scaled(m / 2, 1075, false, 52, 2047)
    } else {
        round_scaled(m, 1074, false, 52, 2047)
    };
    proof {
        if big {
            let h = (m / 2) as nat;
            assert(h * (2 * pow2(1074)) == m as nat * pow2(1074)) by (nonlinear_arith)
                requires
                    m == 2 * h,
            ;
        }
        lemma_nearest_code(c as nat, m as nat * pow2(1074), 1, 52, DOUBLE_INF as nat);
    }
    c
}

proof fn lemma_half_up_whole(m: nat, e: nat, k: nat)
    requires
        e >= k,
    ensures
        half_up(m * pow2(e), k) == m * pow2((e - k) as nat),
{
    let (a, b) = (m * pow2((e - k) as nat), pow2(k));
    lemma_pow2_adds((e - k) as nat, k);
    lemma_pow2_pos(k);
    lemma_pow2_unfold(k + 1);
    assert(2 * (m * pow2(e)) + b == a * (2 * b) + b) by (nonlinear_arith)
        requires
            a == m * pow2((e - k) as nat),
            pow2(e) == pow2((e - k) as nat) * b,
    ;
    lemma_fundamental_div_mod_converse((2 * (m * pow2(e)) + b) as int, (2 * b) as int, a as int, b as int);
}

proof fn lemma_half_up_part(m: nat, e: nat, k: nat, s: nat)
    requires
        s >= 1,
        e + s == k,
    ensures
        half_up(m * pow2(e), k) == (m + pow2((s - 1) as nat)) / pow2(s),
{
    let (h, pe, ps) = (pow2((s - 1) as nat), pow2(e), pow2(s));
    lemma_pow2_unfold(s);
    lemma_pow2_adds(e, s);
    lemma_pow2_unfold(k + 1);
    lemma_pow2_pos(e);
    lemma_pow2_pos(s);
    assert(2 * (m * pe) + pow2(k) == (2 * pe) * (m + h)) by (nonlinear_arith)
        requires
            pow2(k) == pe * ps,
            ps == 2 * h,
    ;
    assert(pow2(k + 1) == (2 * pe) * ps) by (nonlinear_arith)
        requires
            pow2(k + 1) == 2 * pow2(k),
            pow2(k) == pe * ps,
    ;
    lemma_div_denominator((2 * pe) as int * (m + h) as int, (2 * pe) as int, ps as int);
    lemma_div_multiples_vanish_fancy((m + h) as int, 0, (2 * pe) as int);
    assert((2 * pe) * (m + h) + 0 == (2 * pe) * (m + h));
}

proof fn lemma_large_whole(m: nat, e: nat, bound: nat)
    requires
        m >= pow2(52),
        52 + e >= bound,
    ensures
        m * pow2(e) >= pow2(bound),
{
    lemma_pow2_adds(52, e);
    lemma_pow2_pos(e);
    if 52 + e > bound {
        lemma_pow2_strictly_increases(bound, 52 + e);
    }
    let (a, b) = (pow2(52), pow2(e));
    assert(m * b >= a * b) by (nonlinear_arith)
        requires
            m >= a,
            b > 0,
    ;
}

proof fn lemma_small_whole(m: nat, e: nat, bound: nat)
    requires
        m < pow2(53),
        53 + e <= bound,
    ensures
        m * pow2(e) < pow2(bound),
{
    lemma_pow2_adds(53, e);
    lemma_pow2_pos(e);
    if 53 + e < bound {
        lemma_pow2_strictly_increases(53 + e, bound);
    }
    let (a, b) = (pow2(53), pow2(e));
    assert(m * b < a * b) by (nonlinear_arith)
        requires
            m < a,
            b > 0,
    ;
}

/// A finite magnitude rounded to a whole number, or `2^127` where that is larger.
#[inline(always)]
fn magnitude_to_whole(code: u64) -> (r: u128)
    requires
        code < DOUBLE_INF,
    ensures
        ({
            let w = half_up(code_units(code as nat, 52), 1074);
            r == if w > pow2(127) {
                pow2(127)
            } else {
                w
            }
        }),
{
    proof {
        lemma_double_format();
        lemma_mantissa_bound(52);
    }
    let (m, e): (u64, u32) = split_code(code, 52, 2047);
    if e >= 1074 {
        let up: u32 = e - 1074;
        proof {
            lemma_half_up_whole(m as nat, e as nat, 1074);
        }
        if up > 74 {
            proof {
                lemma_large_whole(m as nat, up as nat, 127);
            }
            return 0x8000_0000_0000_0000_0000_0000_0000_0000;
        }
        proof {
            lemma_small_whole(m as nat, up as nat, 127);
        }
        return m as u128 * power_of_two(up);
    }
    let s: u32 = 1074 - e;
    proof {
        lemma_half_up_part(m as nat, e as nat, 1074, s as nat);
        lemma_pow2_pos((s - 1) as nat);
        lemma_pow2_unfold(s as nat);
    }
    if s > 54 {
        proof {
            lemma_pow2_strictly_increases(53, (s - 1) as nat);
            lemma_basic_div((m + pow2((s - 1) as nat)) as int, pow2(s as nat) as int);
            lemma_pow2_pos(127);
        }
        return 0;
    }
    proof {
        lemma2_to64_rest();
        if s < 54 {
            lemma_pow2_strictly_increases((s - 1) as nat, 53);
        }
    }
    let t: u128 = m as u128 + power_of_two(s - 1);
    let (q, _rest): (u128, u128) = split_at(t, s);
    proof {
        lemma_pow2_pos(s as nat);
        lemma_div_is_ordered_by_denominator(t as int, 1, pow2(s as nat) as int);
        lemma_div_basics_2(t as int);
    }
    q
}

impl Double {
    /// The number nearest to `x`.
    pub fn from_i128(x: i128) -> (r: Double)
        ensures
            r == double_of_int(x as int),
    {
        proof {
            lemma_mantissa_bound(52);
        }
        if x < 0 {
            let m: u128 = if x == i128::MIN {
                0x8000_0000_0000_0000_0000_0000_0000_0000
            } else {
                (-x) as u128
            };
            Double::of_parts(true, code_of_magnitude(m))
        } else {
            Double::of_parts(false, code_of_magnitude(x as u128))
        }
    }

    /// The number nearest to `x`.
    pub fn from_u64(x: u64) -> (r: Double)
        ensures
            r == double_of_int(x as int),
    {
        Double::from_i128(x as i128)
    }

    /// The nearest whole number, halves away from zero, brought into range; zero for NaN.
    pub fn round_to_i128(self) -> (r: i128)
        ensures
            r == if self.nan() {
                0
            } else {
                saturated(self.nearest_int(), i128::MIN as int, i128::MAX as int)
            },
    {
        let code: u64 = self.signless();
        if code > DOUBLE_INF {
            return 0;
        }
        proof {
            lemma_mantissa_bound(52);
            lemma_double_format();
        }
        let w: u128 = if code == DOUBLE_INF {
            proof {
                lemma_infinity_whole();
            }
            0x8000_0000_0000_0000_0000_0000_0000_0000
        } else {
            magnitude_to_whole(code)
        };
        if w >= 0x8000_0000_0000_0000_0000_0000_0000_0000 {
            if self.is_negative() {
                i128::MIN
            } else {
                i128::MAX
            }
        } else if self.is_negative() {
            -(w as i128)
        } else {
            w as i128
        }
    }
}

proof fn lemma_infinity_whole()
    ensures
        half_up(code_units(DOUBLE_INF as nat, 52), 1074) > pow2(127),
        code_units(DOUBLE_INF as nat, 52) / pow2(1074) > pow2(127),
        code_units(DOUBLE_INF as nat, 52) % pow2(1074) == 0,
{
    lemma_double_format();
    assert(DOUBLE_INF as nat / pow2(52) == 2047 && DOUBLE_INF as nat % pow2(52) == 0);
    assert(code_units(DOUBLE_INF as nat, 52) == pow2(52) * pow2(2046));
    lemma_half_up_whole(pow2(52), 2046, 1074);
    lemma_large_whole(pow2(52), 972, 128);
    lemma_pow2_strictly_increases(127, 128);
    lemma_whole_part(pow2(52), 2046, 1074);
}

/// A whole number of units that is a multiple of `2^k`.
proof fn lemma_whole_part(m: nat, e: nat, k: nat)
    requires
        e >= k,
    ensures
        m * pow2(e) / pow2(k) == m * pow2((e - k) as nat),
        m * pow2(e) % pow2(k) == 0,
{
    let (a, b) = (m * pow2((e - k) as nat), pow2(k));
    lemma_pow2_adds((e - k) as nat, k);
    lemma_pow2_pos(k);
    assert(m * pow2(e) == a * b + 0) by (nonlinear_arith)
        requires
            a == m * pow2((e - k) as nat),
            pow2(e) == pow2((e - k) as nat) * b,
    ;
    lemma_fundamental_div_mod_converse((m * pow2(e)) as int, b as int, a as int, 0);
}

/// The whole part of a number of units below `2^k`, from its mantissa.
proof fn lemma_fraction_part(m: nat, e: nat, k: nat, s: nat)
    requires
        e + s == k,
    ensures
        m * pow2(e) / pow2(k) == m / pow2(s),
        m * pow2(e) % pow2(k) == 0 <==> m % pow2(s) == 0,
{
    let (pe, ps) = (pow2(e), pow2(s));
    lemma_pow2_adds(e, s);
    lemma_pow2_pos(e);
    lemma_pow2_pos(s);
    let (q, r) = (m / ps, m % ps);
    lemma_fundamental_div_mod(m as int, ps as int);
    assert(m * pe == q * (pe * ps) + r * pe) by (nonlinear_arith)
        requires
            m == ps * q + r,
    ;
    assert(0 <= r * pe < pe * ps) by (nonlinear_arith)
        requires
            0 <= r < ps,
            pe > 0,
    ;
    assert(r * pe == 0 <==> r == 0) by (nonlinear_arith)
        requires
            pe > 0,
            r >= 0,
    ;
    lemma_fundamental_div_mod_converse((m * pe) as int, (pe * ps) as int, q as int, (r * pe) as int);
}

/// The largest whole number not above `-(q * d + r)` is `-q`, less one if `r` is not zero.
proof fn lemma_floor_of_negative(n: nat, d: nat)
    requires
        d > 0,
    ensures
        -(n as int) / d as int == -(n / d) - if n % d == 0 {
            0int
        } else {
            1int
        },
{
    let (q, r) = (n as int / d as int, n as int % d as int);
    lemma_fundamental_div_mod(n as int, d as int);
    if r == 0 {
        assert(-(n as int) == (-q) * d + 0) by (nonlinear_arith)
            requires
                n == d * q,
        ;
        lemma_fundamental_div_mod_converse(-(n as int), d as int, -q, 0);
    } else {
        assert(-(n as int) == (-q - 1) * d + (d - r)) by (nonlinear_arith)
            requires
                n == d * q + r,
        ;
        lemma_fundamental_div_mod_converse(-(n as int), d as int, -q - 1, d - r);
    }
}

/// The whole part of a finite magnitude, or `2^127` where that is larger, and whether anything
/// is left.
#[inline(always)]
fn magnitude_floor(code: u64, p: u32, emax: u32, k: u32) -> (r: (u128, bool))
    requires
        is_format(p, emax, k),
        code < inf_code(p, emax),
    ensures
        ({
            let w = code_units(code as nat, p as nat) / pow2(k as nat);
            r.0 == if w > pow2(127) {
                pow2(127)
            } else {
                w
            }
        }),
        r.1 == (code_units(code as nat, p as nat) % pow2(k as nat) != 0),
{
    proof {
        lemma_mantissa_bound(p);
    }
    let (m, e): (u64, u32) = split_code(code, p, emax);
    if e >= k {
        let up: u32 = e - k;
        proof {
            lemma_whole_part(m as nat, e as nat, k as nat);
        }
        if up > 74 {
            if m == 0 {
                assert(0nat * pow2(up as nat) == 0) by (nonlinear_arith);
                proof {
                    lemma_pow2_pos(127);
                }
                return (0, false);
            }
            if up >= 127 {
                proof {
                    lemma_pow2_pos(up as nat);
                    if up > 127 {
                        lemma_pow2_strictly_increases(127, up as nat);
                    }
                    assert(m as nat * pow2(up as nat) >= pow2(127)) by (nonlinear_arith)
                        requires
                            m >= 1,
                            pow2(up as nat) >= pow2(127),
                    ;
                }
                return (0x8000_0000_0000_0000_0000_0000_0000_0000, false);
            }
            let room: u128 = power_of_two(127 - up);
            proof {
                lemma_pow2_adds(up as nat, (127 - up) as nat);
                lemma_pow2_pos(up as nat);
            }
            if m as u128 >= room {
                assert(m as nat * pow2(up as nat) >= pow2(127)) by (nonlinear_arith)
                    requires
                        m >= room,
                        pow2(127) == pow2(up as nat) * room,
                        pow2(up as nat) > 0,
                ;
                return (0x8000_0000_0000_0000_0000_0000_0000_0000, false);
            }
            assert(m as nat * pow2(up as nat) < pow2(127)) by (nonlinear_arith)
                requires
                    m < room,
                    pow2(127) == pow2(up as nat) * room,
                    pow2(up as nat) > 0,
            ;
            return (m as u128 * power_of_two(up), false);
        }
        proof {
            lemma_small_whole(m as nat, up as nat, 127);
        }
        return (m as u128 * power_of_two(up), false);
    }
    let s: u32 = k - e;
    proof {
        lemma_fraction_part(m as nat, e as nat, k as nat, s as nat);
        lemma_pow2_pos(s as nat);
        lemma_pow2_pos(127);
    }
    if s >= 64 {
        proof {
            lemma2_to64();
            if s > 64 {
                lemma_pow2_strictly_increases(64, s as nat);
            }
            lemma_basic_div(m as int, pow2(s as nat) as int);
            lemma_small_mod(m as nat, pow2(s as nat));
        }
        return (0, m != 0);
    }
    let (q, rest): (u128, u128) = split_at(m as u128, s);
    proof {
        lemma_div_is_ordered_by_denominator(m as int, 1, pow2(s as nat) as int);
        lemma_div_basics_2(m as int);
    }
    (q, rest != 0)
}

/// A signed magnitude brought down to a whole number in range.
#[inline(always)]
fn signed_floor(neg: bool, whole: u128, rest: bool) -> (r: i64)
    requires
        whole <= pow2(127),
    ensures
        r == saturated(
            if neg {
                -(whole as int) - if rest {
                    1int
                } else {
                    0int
                }
            } else {
                whole as int
            },
            i64::MIN as int,
            i64::MAX as int,
        ),
{
    if neg {
        if whole >= 0x8000_0000_0000_0000 {
            i64::MIN
        } else {
            let w: i64 = whole as i64;
            if rest {
                -w - 1
            } else {
                -w
            }
        }
    } else if whole > 0x7fff_ffff_ffff_ffff {
        i64::MAX
    } else {
        whole as i64
    }
}

impl Double {
    /// The largest whole number that is not larger, brought into range; zero for NaN.
    pub fn floor_to_i64(self) -> (r: i64)
        ensures
            r == if self.nan() {
                0
            } else {
                saturated(self.floor_int(), i64::MIN as int, i64::MAX as int)
            },
    {
        let code: u64 = self.signless();
        if code > DOUBLE_INF {
            return 0;
        }
        proof {
            lemma_mantissa_bound(52);
            lemma_double_format();
            lemma_pow2_pos(1074);
            lemma_floor_of_negative(code_units(code as nat, 52), pow2(1074));
        }
        let (whole, rest): (u128, bool) = if code == DOUBLE_INF {
            proof {
                lemma_infinity_whole();
            }
            (0x8000_0000_0000_0000_0000_0000_0000_0000, false)
        } else {
            magnitude_floor(code, 52, 2047, 1074)
        };
        signed_floor(self.is_negative(), whole, rest)
    }
}

impl Double {
    /// The `binary32` number that is nearest.
    pub open spec fn narrowed(self) -> Single {
        single_of(
            (
                self.negative(),
                if self.nan() {
                    nan_code(23, SINGLE_INF as nat)
                } else if !self.finite() {
                    SINGLE_INF as nat
                } else {
                    nearest_code(code_units(self.code(), 52), pow2(925), 23, SINGLE_INF as nat)
                },
            ),
        )
    }

    /// The `binary32` number that is nearest.
    pub fn to_single(self) -> (r: Single)
        ensures
            r == self.narrowed(),
    {
        let code: u64 = self.signless();
        let neg: bool = self.is_negative();
        proof {
            lemma_double_format();
            lemma_single_format();
        }
        if code > DOUBLE_INF {
            return Single::of_parts(neg, SINGLE_INF + 0x40_0000);
        }
        if code == DOUBLE_INF {
            return Single::of_parts(neg, SINGLE_INF);
        }
        let (m, e): (u64, u32) = split_code(code, 52, 2047);
        let shift: i32 = e as i32 - 925;
        proof {
            lemma_mantissa_bound(52);
            lemma_pow2_strictly_increases(53, 127);
        }
        let c: u64 = round_scaled(m as u128, shift, false, 23, 255);
        proof {
            let (u, v) = (up(shift as int), up(-shift));
            lemma_up_adds(925, shift as int);
            lemma_pow2_pos(925);
            let n = code_units(code as nat, 52);
            assert(n * v == m as nat * u * pow2(925)) by (nonlinear_arith)
                requires
                    n == m as nat * pow2(e as nat),
                    pow2(e as nat) * v == pow2(925) * u,
            ;
            lemma_exact_rounds(c as nat, m as nat, shift as int, n, pow2(925), 23, SINGLE_INF as nat);
            lemma_nearest_code(c as nat, n, pow2(925), 23, SINGLE_INF as nat);
        }
        Single::of_parts(neg, c as u32)
    }
}

/// The `binary32` number nearest to a whole number.
pub open spec fn single_of_int(x: int) -> Single {
    if x < 0 {
        single_of((true, nearest_code((-x) as nat * pow2(149), 1, 23, SINGLE_INF as nat)))
    } else {
        single_of((false, nearest_code(x as nat * pow2(149), 1, 23, SINGLE_INF as nat)))
    }
}

impl Single {
    /// The same number as `binary64`.
    pub open spec fn widened(self) -> Double {
        double_of(
            (
                self.negative(),
                if self.nan() {
                    nan_code(52, DOUBLE_INF as nat)
                } else if !self.finite() {
                    DOUBLE_INF as nat
                } else {
                    nearest_code(code_units(self.code(), 23) * pow2(925), 1, 52, DOUBLE_INF as nat)
                },
            ),
        )
    }

    /// The same number as `binary64`.
    pub fn to_double(self) -> (r: Double)
        ensures
            r == self.widened(),
    {
        let code: u32 = self.signless();
        let neg: bool = self.is_negative();
        proof {
            lemma_double_format();
            lemma_single_format();
            lemma2_to64_rest();
        }
        if code > SINGLE_INF {
            return Double::of_parts(neg, DOUBLE_INF + 0x8_0000_0000_0000);
        }
        if code == SINGLE_INF {
            return Double::of_parts(neg, DOUBLE_INF);
        }
        let (m, e): (u64, u32) = split_code(code as u64, 23, 255);
        proof {
            lemma_mantissa_bound(23);
            lemma_pow2_strictly_increases(53, 127);
            lemma_pow2_adds(e as nat, 925);
            assert(m as nat * pow2((e + 925) as nat) == m as nat * pow2(e as nat) * pow2(925))
                by (nonlinear_arith)
                requires
                    pow2((e + 925) as nat) == pow2(e as nat) * pow2(925),
            ;
        }
        let c: u64 = round_scaled(m as u128, (e + 925) as i32, false, 52, 2047);
        proof {
            lemma_nearest_code(
                c as nat,
                code_units(code as nat, 23) * pow2(925),
                1,
                52,
                DOUBLE_INF as nat,
            );
        }
        Double::of_parts(neg, c)
    }

    /// The number nearest to `x`.
    pub fn from_i64(x: i64) -> (r: Single)
        ensures
            r == single_of_int(x as int),
    {
        proof {
            lemma_single_format();
            lemma_mantissa_bound(23);
            assert(up(149) == pow2(149) && up(-149) == 1);
        }
        let neg: bool = x < 0;
        let m: u128 = if neg {
            (-(x as i128)) as u128
        } else {
            x as u128
        };
        let c: u64 = round_scaled(m, 149, false, 23, 255);
        proof {
            lemma_nearest_code(c as nat, m as nat * pow2(149), 1, 23, SINGLE_INF as nat);
        }
        Single::of_parts(neg, c as u32)
    }

    /// The largest whole number that is not larger.
    pub open spec fn floor_int(self) -> int {
        self.units() / pow2(149) as int
    }

    /// The largest whole number that is not larger, brought into range; zero for NaN.
    pub fn floor_to_i64(self) -> (r: i64)
        ensures
            r == if self.nan() {
                0
            } else {
                saturated(self.floor_int(), i64::MIN as int, i64::MAX as int)
            },
    {
        let code: u32 = self.signless();
        if code > SINGLE_INF {
            return 0;
        }
        proof {
            lemma_mantissa_bound(52);
            lemma_single_format();
            lemma_pow2_pos(149);
            lemma_floor_of_negative(code_units(code as nat, 23), pow2(149));
        }
        let (whole, rest): (u128, bool) = if code == SINGLE_INF {
            proof {
                assert(SINGLE_INF as nat / pow2(23) == 255 && SINGLE_INF as nat % pow2(23) == 0);
                lemma_pow2_adds(23, 254);
                lemma_whole_part(1, 277, 149);
                lemma_pow2_strictly_increases(127, 128);
                assert(1nat * pow2(277) == pow2(277) && 1nat * pow2(128) == pow2(128))
                    by (nonlinear_arith);
            }
            (0x8000_0000_0000_0000_0000_0000_0000_0000, false)
        } else {
            magnitude_floor(code as u64, 23, 255, 149)
        };
        signed_floor(self.is_negative(), whole, rest)
    }

    /// The largest whole number that is not larger, as a number of the same format. Zeros keep
    /// their sign.
    pub open spec fn floored(self) -> Single {
        if !self.finite() || self.code() == 0 {
            self
        } else {
            single_of_int(self.floor_int())
        }
    }

    /// The largest whole number that is not larger.
    pub fn floor(self) -> (r: Single)
        ensures
            r == self.floored(),
    {
        let code: u32 = self.signless();
        if code >= SINGLE_INF || code == 0 {
            return self;
        }
        // From 2^23 on every number is whole.
        if code >= 0x4b00_0000 {
            proof {
                self.lemma_large_is_whole();
            }
            return self;
        }
        proof {
            self.lemma_below_large();
        }
        Single::from_i64(self.floor_to_i64())
    }

    proof fn lemma_large_is_whole(self)
        requires
            0x4b00_0000 <= self.code() < SINGLE_INF,
        ensures
            self == self.floored(),
    {
        lemma_single_format();
        let (e, f) = (self.code() / pow2(23), self.code() % pow2(23));
        let m = f + pow2(23);
        assert(e >= 150);
        lemma_pow2_pos(149);
        lemma_whole_part(m, (e - 1) as nat, 149);
        lemma_floor_of_negative(m * pow2((e - 1) as nat), pow2(149));
        lemma_fundamental_div_mod((m * pow2((e - 1) as nat)) as int, pow2(149) as int);
        let (n, d) = (m * pow2((e - 1) as nat), pow2(149));
        let q = n / d;
        assert(q * d == n) by (nonlinear_arith)
            requires
                n == d * q,
        ;
        lemma_code_rounds_to_itself(self.code(), n, 1, 23, SINGLE_INF as nat);
        lemma_nearest_code(self.code(), n, 1, 23, SINGLE_INF as nat);
        lemma_code_units_increases(0, self.code(), 23);
        assert(q > 0) by (nonlinear_arith)
            requires
                q * d == n,
                n > 0,
                d > 0,
        ;
    }

    proof fn lemma_below_large(self)
        requires
            self.code() < 0x4b00_0000,
        ensures
            -0x100_0000 <= self.floor_int() <= 0x100_0000,
    {
        lemma_single_format();
        lemma_code_units_increases(self.code(), 0x4b00_0000, 23);
        assert(0x4b00_0000nat / pow2(23) == 150 && 0x4b00_0000nat % pow2(23) == 0);
        let n = code_units(self.code(), 23);
        let d = pow2(149);
        lemma_pow2_pos(149);
        assert(code_units(0x4b00_0000, 23) == pow2(23) * pow2(149));
        lemma_floor_of_negative(n, d);
        lemma_fundamental_div_mod(n as int, d as int);
        let q = n as int / d as int;
        let r = n as int % d as int;
        assert(0 <= q < pow2(23)) by (nonlinear_arith)
            requires
                n == d * q + r,
                0 <= r < d,
                0 <= n < pow2(23) * d,
        ;
    }
}

} // verus!
