//! Arithmetic of `binary64` numbers.
use vstd::arithmetic::div_mod::*;
use vstd::arithmetic::mul::*;
use vstd::arithmetic::power2::*;
use vstd::bits::*;
use vstd::prelude::*;

use crate::ieee::codes::inf_code;
use crate::ieee::encoding::Double;
use crate::ieee::signed::{
    product_of, quotient_of, root_of, signed_product, signed_quotient, signed_root, signed_sum,
    sum_of,
};

verus! {

/// The code of infinity.
pub const DOUBLE_INF: u64 = 0x7ff0_0000_0000_0000;

/// The sign bit.
pub const DOUBLE_SIGN: u64 = 0x8000_0000_0000_0000;

/// The number with the given sign and code.
pub open spec fn double_of(v: (bool, nat)) -> Double {
    Double { bits: (v.1 + if v.0 {
        DOUBLE_SIGN
    } else {
        0
    }) as u64 }
}

pub proof fn lemma_double_format()
    ensures
        inf_code(52, 2047) == DOUBLE_INF,
        pow2(52) == 0x10_0000_0000_0000,
        pow2(53) == 0x20_0000_0000_0000,
{
    lemma2_to64_rest();
}

impl Double {
    /// The sum, correctly rounded.
    pub open spec fn sum(self, other: Double) -> Double {
        double_of(
            sum_of(
                self.negative(),
                self.code(),
                other.negative(),
                other.code(),
                52,
                DOUBLE_INF as nat,
            ),
        )
    }

    /// The number with the other sign.
    pub open spec fn opposite(self) -> Double {
        double_of((!self.negative(), self.code()))
    }

    /// The difference, correctly rounded.
    pub open spec fn difference(self, other: Double) -> Double {
        self.sum(other.opposite())
    }

    /// The product, correctly rounded.
    pub open spec fn product(self, other: Double) -> Double {
        double_of(
            product_of(
                self.negative(),
                self.code(),
                other.negative(),
                other.code(),
                52,
                DOUBLE_INF as nat,
                1074,
            ),
        )
    }

    /// The quotient, correctly rounded.
    pub open spec fn quotient(self, other: Double) -> Double {
        double_of(
            quotient_of(
                self.negative(),
                self.code(),
                other.negative(),
                other.code(),
                52,
                DOUBLE_INF as nat,
                1074,
            ),
        )
    }

    /// The square root, correctly rounded.
    pub open spec fn root(self) -> Double {
        double_of(root_of(self.negative(), self.code(), 52, DOUBLE_INF as nat, 1074))
    }

    /// The number without its sign.
    pub open spec fn magnitude(self) -> Double {
        double_of((false, self.code()))
    }

    /// The larger of two numbers; where one is NaN, the other.
    pub open spec fn larger(self, other: Double) -> Double {
        if self.nan() || self.less(other) {
            other
        } else {
            self
        }
    }

    /// The smaller of two numbers; where one is NaN, the other.
    pub open spec fn smaller(self, other: Double) -> Double {
        if self.nan() || other.less(self) {
            other
        } else {
            self
        }
    }

    /// The number in `low ..= high` that is nearest; NaN stays NaN.
    pub open spec fn clamped(self, low: Double, high: Double) -> Double {
        let raised = if self.less(low) {
            low
        } else {
            self
        };
        if high.less(raised) {
            high
        } else {
            raised
        }
    }

    pub fn of_parts(neg: bool, code: u64) -> (r: Double)
        requires
            code < DOUBLE_SIGN,
        ensures
            r == double_of((neg, code as nat)),
            r.negative() == neg,
            r.code() == code,
    {
        if neg {
            Double { bits: code + DOUBLE_SIGN }
        } else {
            Double { bits: code }
        }
    }

    /// Adds.
    pub fn plus(self, other: Double) -> (r: Double)
        ensures
            r == self.sum(other),
    {
        proof {
            lemma_double_format();
        }
        let (neg, code): (bool, u64) = signed_sum(
            self.is_negative(),
            self.signless(),
            other.is_negative(),
            other.signless(),
            52,
            2047,
        );
        Double::of_parts(neg, code)
    }

    /// The number with the other sign.
    pub fn negated(self) -> (r: Double)
        ensures
            r == self.opposite(),
            r.code() == self.code(),
            r.negative() == !self.negative(),
            r.units() == -self.units(),
    {
        Double::of_parts(!self.is_negative(), self.signless())
    }

    /// Subtracts.
    pub fn minus(self, other: Double) -> (r: Double)
        ensures
            r == self.difference(other),
    {
        self.plus(other.negated())
    }

    /// Multiplies.
    pub fn times(self, other: Double) -> (r: Double)
        ensures
            r == self.product(other),
    {
        proof {
            lemma_double_format();
        }
        let (neg, code): (bool, u64) = signed_product(
            self.is_negative(),
            self.signless(),
            other.is_negative(),
            other.signless(),
            52,
            2047,
            1074,
        );
        Double::of_parts(neg, code)
    }

    /// Divides.
    pub fn over(self, other: Double) -> (r: Double)
        ensures
            r == self.quotient(other),
    {
        proof {
            lemma_double_format();
        }
        let (neg, code): (bool, u64) = signed_quotient(
            self.is_negative(),
            self.signless(),
            other.is_negative(),
            other.signless(),
            52,
            2047,
            1074,
        );
        Double::of_parts(neg, code)
    }

    /// The square root.
    pub fn sqrt(self) -> (r: Double)
        ensures
            r == self.root(),
    {
        proof {
            lemma_double_format();
        }
        let (neg, code): (bool, u64) = signed_root(self.is_negative(), self.signless(), 52, 2047, 1074);
        Double::of_parts(neg, code)
    }

    /// The number without its sign.
    pub fn abs(self) -> (r: Double)
        ensures
            r == self.magnitude(),
    {
        Double::of_parts(false, self.signless())
    }

    /// The larger of two numbers; where one is NaN, the other.
    pub fn max(self, other: Double) -> (r: Double)
        ensures
            r == self.larger(other),
    {
        if self.is_nan() || self.lt(other) {
            other
        } else {
            self
        }
    }

    /// The smaller of two numbers; where one is NaN, the other.
    pub fn min(self, other: Double) -> (r: Double)
        ensures
            r == self.smaller(other),
    {
        if self.is_nan() || other.lt(self) {
            other
        } else {
            self
        }
    }

    /// The number in `low ..= high` that is nearest; NaN stays NaN.
    pub fn clamp(self, low: Double, high: Double) -> (r: Double)
        ensures
            r == self.clamped(low, high),
    {
        let raised: Double = if self.lt(low) {
            low
        } else {
            self
        };
        if high.lt(raised) {
            high
        } else {
            raised
        }
    }
}

} // verus!
