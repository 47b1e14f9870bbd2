//! IEEE 754 numbers held by their encodings.
//!
//! Numbers are held by their encodings and computed with integer arithmetic, so that every
//! machine computes the same galaxy bit for bit. With the sign bit set aside, every `binary64`
//! encoding below the NaN range stands for a whole number of units of `2^-1074`, and every
//! `binary32` encoding for a whole number of units of `2^-149`: all that is said here of a
//! number is said of that whole number.
use vstd::arithmetic::div_mod::*;
use vstd::arithmetic::mul::*;
use vstd::arithmetic::power2::*;
use vstd::prelude::*;

verus! {

/// The magnitude, in units of the smallest positive number of the format, that the encoding
/// `code` (sign bit cleared) stands for in a format with `p` fraction bits.
///
/// Infinity gets the value that the first encoding past the largest finite number would have,
/// so that it lies above every finite number.
pub open spec fn code_units(code: nat, p: nat) -> nat {
    if code < pow2(p) {
        code
    } else {
        (code % pow2(p) + pow2(p)) * pow2((code / pow2(p) - 1) as nat)
    }
}

/// A `binary64` number, by its encoding.
#[derive(Clone, Copy, PartialEq, Eq, Structural, Debug, Hash)]
pub struct Double {
    pub bits: u64,
}

/// A `binary32` number, by its encoding.
#[derive(Clone, Copy, PartialEq, Eq, Structural, Debug, Hash)]
pub struct Single {
    pub bits: u32,
}

pub proof fn lemma_code_split(e: nat, m: nat, p: nat)
    requires
        pow2(p) <= m <= 2 * pow2(p),
    ensures
        code_units(e * pow2(p) + m, p) == m * pow2(e),
{
    let q = pow2(p);
    lemma_pow2_pos(p);
    let c = e * q + m;
    assert(c >= q) by (nonlinear_arith)
        requires
            c == e * q + m,
            m >= q,
            e >= 0,
            q > 0,
    ;
    if m < 2 * q {
        assert(c == (e + 1) * q + (m - q)) by (nonlinear_arith)
            requires
                c == e * q + m,
        ;
        lemma_fundamental_div_mod_converse(c as int, q as int, e as int + 1, m - q);
    } else {
        assert(c == (e + 2) * q + 0) by (nonlinear_arith)
            requires
                c == e * q + m,
                m == 2 * q,
        ;
        lemma_fundamental_div_mod_converse(c as int, q as int, e as int + 2, 0);
        lemma_pow2_unfold(e + 1);
        assert(q * (2 * pow2(e)) == (2 * q) * pow2(e)) by (nonlinear_arith);
    }
}

/// A larger encoding stands for a larger magnitude.
pub proof fn lemma_code_units_increases(a: nat, b: nat, p: nat)
    requires
        a < b,
    ensures
        code_units(a, p) < code_units(b, p),
{
    let q = pow2(p);
    lemma_pow2_pos(p);
    let (ea, fa) = (a / q, a % q);
    let (eb, fb) = (b / q, b % q);
    lemma_fundamental_div_mod(a as int, q as int);
    lemma_fundamental_div_mod(b as int, q as int);
    lemma_div_is_ordered(a as int, b as int, q as int);
    if b < q {
    } else if a < q {
        lemma_div_non_zero(b as int, q as int);
        lemma_pow2_pos((eb - 1) as nat);
        assert((fb + q) * pow2((eb - 1) as nat) >= q) by (nonlinear_arith)
            requires
                fb >= 0,
                q > 0,
                pow2((eb - 1) as nat) >= 1,
        ;
    } else {
        lemma_div_non_zero(a as int, q as int);
        lemma_div_non_zero(b as int, q as int);
        let (pa, pb) = (pow2((ea - 1) as nat), pow2((eb - 1) as nat));
        lemma_pow2_pos((ea - 1) as nat);
        if ea == eb {
            assert(fa < fb);
            assert((fa + q) * pa < (fb + q) * pa) by (nonlinear_arith)
                requires
                    fa < fb,
                    pa > 0,
            ;
        } else {
            lemma_pow2_unfold(ea);
            if ea < eb - 1 {
                lemma_pow2_strictly_increases(ea, (eb - 1) as nat);
            }
            assert(pb >= 2 * pa);
            assert((fa + q) * pa < (fb + q) * pb) by (nonlinear_arith)
                requires
                    0 <= fa < q,
                    fb >= 0,
                    pa > 0,
                    pb >= 2 * pa,
            ;
        }
    }
}

impl Double {
    /// The number whose encoding is `bits`.
    pub fn from_bits(bits: u64) -> (r: Double)
        ensures
            r.bits == bits,
    {
        Double { bits }
    }

    /// The encoding.
    pub fn to_bits(self) -> (r: u64)
        ensures
            r == self.bits,
    {
        self.bits
    }

    /// Whether the sign bit is set.
    pub open spec fn negative(self) -> bool {
        self.bits >= 0x8000_0000_0000_0000
    }

    /// The encoding without the sign bit.
    pub open spec fn code(self) -> nat {
        if self.negative() {
            (self.bits - 0x8000_0000_0000_0000) as nat
        } else {
            self.bits as nat
        }
    }

    /// Neither infinite nor NaN.
    pub open spec fn finite(self) -> bool {
        self.code() < 0x7ff0_0000_0000_0000
    }

    /// Not a number.
    pub open spec fn nan(self) -> bool {
        self.code() > 0x7ff0_0000_0000_0000
    }

    /// The value in units of `2^-1074`. For an infinity it is beyond every finite value, on the
    /// side of its sign; for a NaN it means nothing.
    pub open spec fn units(self) -> int {
        if self.negative() {
            -(code_units(self.code(), 52) as int)
        } else {
            code_units(self.code(), 52) as int
        }
    }

    /// `self` and `other` are numbers and `self` is the smaller.
    pub open spec fn less(self, other: Double) -> bool {
        !self.nan() && !other.nan() && self.units() < other.units()
    }

    /// `self` and `other` are numbers and `self` is not the larger.
    pub open spec fn at_most(self, other: Double) -> bool {
        !self.nan() && !other.nan() && self.units() <= other.units()
    }

    /// The place of `self` in the total order of all encodings: NaNs with the sign bit set, the
    /// numbers from minus infinity to minus zero, those from plus zero to infinity, other NaNs.
    pub open spec fn total_rank(self) -> int {
        if self.negative() {
            -(self.code() as int) - 1
        } else {
            self.code() as int
        }
    }

    /// Whether the sign bit is set.
    pub fn is_negative(self) -> (r: bool)
        ensures
            r == self.negative(),
    {
        self.bits >= 0x8000_0000_0000_0000
    }

    /// The encoding without the sign bit.
    pub fn signless(self) -> (r: u64)
        ensures
            r == self.code(),
            r <= 0x7fff_ffff_ffff_ffff,
    {
        if self.bits >= 0x8000_0000_0000_0000 {
            self.bits - 0x8000_0000_0000_0000
        } else {
            self.bits
        }
    }

    /// Whether this is no number.
    pub fn is_nan(self) -> (r: bool)
        ensures
            r == self.nan(),
    {
        self.signless() > 0x7ff0_0000_0000_0000
    }

    /// Whether this is a number and not infinite.
    pub fn is_finite(self) -> (r: bool)
        ensures
            r == self.finite(),
    {
        self.signless() < 0x7ff0_0000_0000_0000
    }

    /// `self < other` as numbers: false if either is NaN, and the two zeros are equal.
    pub fn lt(self, other: Double) -> (r: bool)
        ensures
            r == self.less(other),
    {
        let a: u64 = self.signless();
        let b: u64 = other.signless();
        proof {
            lemma_code_order(self.code(), other.code(), 52);
        }
        if a > 0x7ff0_0000_0000_0000 || b > 0x7ff0_0000_0000_0000 {
            return false;
        }
        let neg_a: bool = self.bits >= 0x8000_0000_0000_0000;
        let neg_b: bool = other.bits >= 0x8000_0000_0000_0000;
        if neg_a {
            if neg_b {
                b < a
            } else {
                a != 0 || b != 0
            }
        } else {
            !neg_b && a < b
        }
    }

    /// `self <= other` as numbers: false if either is NaN.
    pub fn le(self, other: Double) -> (r: bool)
        ensures
            r == self.at_most(other),
    {
        !self.is_nan() && !other.is_nan() && !other.lt(self)
    }

    /// `self > other` as numbers.
    pub fn gt(self, other: Double) -> (r: bool)
        ensures
            r == other.less(self),
    {
        other.lt(self)
    }

    /// Equal as numbers: NaN equals nothing, and the two zeros are equal.
    pub open spec fn equals(self, other: Double) -> bool {
        self.at_most(other) && other.at_most(self)
    }

    /// Equal as numbers.
    pub fn eq_number(self, other: Double) -> (r: bool)
        ensures
            r == self.equals(other),
    {
        self.le(other) && other.le(self)
    }

    /// `self` stands strictly before `other` in the total order of encodings.
    pub fn precedes(self, other: Double) -> (r: bool)
        ensures
            r == (self.total_rank() < other.total_rank()),
    {
        let a: u64 = self.signless();
        let b: u64 = other.signless();
        let neg_a: bool = self.bits >= 0x8000_0000_0000_0000;
        let neg_b: bool = other.bits >= 0x8000_0000_0000_0000;
        if neg_a {
            !neg_b || b < a
        } else {
            !neg_b && a < b
        }
    }
}

impl Single {
    /// The number whose encoding is `bits`.
    pub fn from_bits(bits: u32) -> (r: Single)
        ensures
            r.bits == bits,
    {
        Single { bits }
    }

    /// The encoding.
    pub fn to_bits(self) -> (r: u32)
        ensures
            r == self.bits,
    {
        self.bits
    }

    /// Whether the sign bit is set.
    pub open spec fn negative(self) -> bool {
        self.bits >= 0x8000_0000
    }

    /// The encoding without the sign bit.
    pub open spec fn code(self) -> nat {
        if self.negative() {
            (self.bits - 0x8000_0000) as nat
        } else {
            self.bits as nat
        }
    }

    /// Neither infinite nor NaN.
    pub open spec fn finite(self) -> bool {
        self.code() < 0x7f80_0000
    }

    /// Not a number.
    pub open spec fn nan(self) -> bool {
        self.code() > 0x7f80_0000
    }

    /// The value in units of `2^-149`, as for [`Double::units`].
    pub open spec fn units(self) -> int {
        if self.negative() {
            -(code_units(self.code(), 23) as int)
        } else {
            code_units(self.code(), 23) as int
        }
    }

    /// `self` and `other` are numbers and `self` is the smaller.
    pub open spec fn less(self, other: Single) -> bool {
        !self.nan() && !other.nan() && self.units() < other.units()
    }

    /// `self` and `other` are numbers and `self` is not the larger.
    pub open spec fn at_most(self, other: Single) -> bool {
        !self.nan() && !other.nan() && self.units() <= other.units()
    }

    /// Whether the sign bit is set.
    pub fn is_negative(self) -> (r: bool)
        ensures
            r == self.negative(),
    {
        self.bits >= 0x8000_0000
    }

    /// The encoding without the sign bit.
    pub fn signless(self) -> (r: u32)
        ensures
            r == self.code(),
            r <= 0x7fff_ffff,
    {
        if self.bits >= 0x8000_0000 {
            self.bits - 0x8000_0000
        } else {
            self.bits
        }
    }

    /// Whether this is no number.
    pub fn is_nan(self) -> (r: bool)
        ensures
            r == self.nan(),
    {
        self.signless() > 0x7f80_0000
    }

    /// Whether this is a number and not infinite.
    pub fn is_finite(self) -> (r: bool)
        ensures
            r == self.finite(),
    {
        self.signless() < 0x7f80_0000
    }

    /// `self < other` as numbers: false if either is NaN, and the two zeros are equal.
    pub fn lt(self, other: Single) -> (r: bool)
        ensures
            r == self.less(other),
    {
        let a: u32 = self.signless();
        let b: u32 = other.signless();
        proof {
            lemma_code_order(self.code(), other.code(), 23);
        }
        if a > 0x7f80_0000 || b > 0x7f80_0000 {
            return false;
        }
        let neg_a: bool = self.bits >= 0x8000_0000;
        let neg_b: bool = other.bits >= 0x8000_0000;
        if neg_a {
            if neg_b {
                b < a
            } else {
                a != 0 || b != 0
            }
        } else {
            !neg_b && a < b
        }
    }

    /// `self <= other` as numbers: false if either is NaN.
    pub fn le(self, other: Single) -> (r: bool)
        ensures
            r == self.at_most(other),
    {
        !self.is_nan() && !other.is_nan() && !other.lt(self)
    }

    /// `self > other` as numbers.
    pub fn gt(self, other: Single) -> (r: bool)
        ensures
            r == other.less(self),
    {
        other.lt(self)
    }

    /// Equal as numbers: NaN equals nothing, and the two zeros are equal.
    pub open spec fn equals(self, other: Single) -> bool {
        self.at_most(other) && other.at_most(self)
    }

    /// Equal as numbers.
    pub fn eq_number(self, other: Single) -> (r: bool)
        ensures
            r == self.equals(other),
    {
        self.le(other) && other.le(self)
    }
}

proof fn lemma_code_order(a: nat, b: nat, p: nat)
    ensures
        a < b <==> code_units(a, p) < code_units(b, p),
        a == b <==> code_units(a, p) == code_units(b, p),
        code_units(a, p) == 0 <==> a == 0,
        code_units(b, p) == 0 <==> b == 0,
{
    lemma_pow2_pos(p);
    assert(code_units(0, p) == 0);
    if a < b {
        lemma_code_units_increases(a, b, p);
    } else if b < a {
        lemma_code_units_increases(b, a, p);
    }
    if a > 0 {
        lemma_code_units_increases(0, a, p);
    }
    if b > 0 {
        lemma_code_units_increases(0, b, p);
    }
}

} // verus!
