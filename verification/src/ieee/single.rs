//! Arithmetic of `binary32` numbers.
use vstd::arithmetic::div_mod::*;
use vstd::arithmetic::mul::*;
use vstd::arithmetic::power2::*;
use vstd::bits::*;
use vstd::prelude::*;

use crate::ieee::codes::inf_code;
use crate::ieee::encoding::Single;
use crate::ieee::signed::{
    product_of, quotient_of, signed_product, signed_quotient, signed_sum, sum_of,
};

verus! {

/// The code of infinity.
pub const SINGLE_INF: u32 = 0x7f80_0000;

/// The sign bit.
pub const SINGLE_SIGN: u32 = 0x8000_0000;

/// The number with the given sign and code.
pub open spec fn single_of(v: (bool, nat)) -> Single {
    Single { bits: (v.1 + if v.0 {
        SINGLE_SIGN
    } else {
        0
    }) as u32 }
}

pub proof fn lemma_single_format()
    ensures
        inf_code(23, 255) == SINGLE_INF,
        pow2(23) == 0x80_0000,
        pow2(22) == 0x40_0000,
{
    lemma2_to64();
}

impl Single {
    /// The sum, correctly rounded.
    pub open spec fn sum(self, other: Single) -> Single {
        single_of(
            sum_of(
                self.negative(),
                self.code(),
                other.negative(),
                other.code(),
                23,
                SINGLE_INF as nat,
            ),
        )
    }

    /// The number with the other sign.
    pub open spec fn opposite(self) -> Single {
        single_of((!self.negative(), self.code()))
    }

    /// The difference, correctly rounded.
    pub open spec fn difference(self, other: Single) -> Single {
        self.sum(other.opposite())
    }

    /// The product, correctly rounded.
    pub open spec fn product(self, other: Single) -> Single {
        single_of(
            product_of(
                self.negative(),
                self.code(),
                other.negative(),
                other.code(),
                23,
                SINGLE_INF as nat,
                149,
            ),
        )
    }

    /// The quotient, correctly rounded.
    pub open spec fn quotient(self, other: Single) -> Single {
        single_of(
            quotient_of(
                self.negative(),
                self.code(),
                other.negative(),
                other.code(),
                23,
                SINGLE_INF as nat,
                149,
            ),
        )
    }

    /// The number without its sign.
    pub open spec fn magnitude(self) -> Single {
        single_of((false, self.code()))
    }

    /// The larger of two numbers; where one is NaN, the other.
    pub open spec fn larger(self, other: Single) -> Single {
        if self.nan() || self.less(other) {
            other
        } else {
            self
        }
    }

    /// The smaller of two numbers; where one is NaN, the other.
    pub open spec fn smaller(self, other: Single) -> Single {
        if self.nan() || other.less(self) {
            other
        } else {
            self
        }
    }

    /// The number in `low ..= high` that is nearest; NaN stays NaN.
    pub open spec fn clamped(self, low: Single, high: Single) -> Single {
        let raised = if self.less(low) {
            low
        } else {
            self
        };
        if high.less(raised) {
            high
        } else {
            raised
        }
    }

    pub fn of_parts(neg: bool, code: u32) -> (r: Single)
        requires
            code < SINGLE_SIGN,
        ensures
            r == single_of((neg, code as nat)),
            r.negative() == neg,
            r.code() == code,
    {
        if neg {
            Single { bits: code + SINGLE_SIGN }
        } else {
            Single { bits: code }
        }
    }

    /// Adds.
    pub fn plus(self, other: Single) -> (r: Single)
        ensures
            r == self.sum(other),
    {
        proof {
            lemma_single_format();
        }
        let (neg, code): (bool, u64) = signed_sum(
            self.is_negative(),
            self.signless() as u64,
            other.is_negative(),
            other.signless() as u64,
            23,
            255,
        );
        Single::of_parts(neg, code as u32)
    }

    /// The number with the other sign.
    pub fn negated(self) -> (r: Single)
        ensures
            r == self.opposite(),
            r.code() == self.code(),
            r.negative() == !self.negative(),
            r.units() == -self.units(),
    {
        Single::of_parts(!self.is_negative(), self.signless())
    }

    /// Subtracts.
    pub fn minus(self, other: Single) -> (r: Single)
        ensures
            r == self.difference(other),
    {
        self.plus(other.negated())
    }

    /// Multiplies.
    pub fn times(self, other: Single) -> (r: Single)
        ensures
            r == self.product(other),
    {
        proof {
            lemma_single_format();
        }
        let (neg, code): (bool, u64) = signed_product(
            self.is_negative(),
            self.signless() as u64,
            other.is_negative(),
            other.signless() as u64,
            23,
            255,
            149,
        );
        Single::of_parts(neg, code as u32)
    }

    /// Divides.
    pub fn over(self, other: Single) -> (r: Single)
        ensures
            r == self.quotient(other),
    {
        proof {
            lemma_single_format();
        }
        let (neg, code): (bool, u64) = signed_quotient(
            self.is_negative(),
            self.signless() as u64,
            other.is_negative(),
            other.signless() as u64,
            23,
            255,
            149,
        );
        Single::of_parts(neg, code as u32)
    }

    /// The number without its sign.
    pub fn abs(self) -> (r: Single)
        ensures
            r == self.magnitude(),
    {
        Single::of_parts(false, self.signless())
    }

    /// The larger of two numbers; where one is NaN, the other.
    pub fn max(self, other: Single) -> (r: Single)
        ensures
            r == self.larger(other),
    {
        if self.is_nan() || self.lt(other) {
            other
        } else {
            self
        }
    }

    /// The smaller of two numbers; where one is NaN, the other.
    pub fn min(self, other: Single) -> (r: Single)
        ensures
            r == self.smaller(other),
    {
        if self.is_nan() || other.lt(self) {
            other
        } else {
            self
        }
    }

    /// The number in `low ..= high` that is nearest; NaN stays NaN.
    pub fn clamp(self, low: Single, high: Single) -> (r: Single)
        ensures
            r == self.clamped(low, high),
    {
        let raised: Single = if self.lt(low) {
            low
        } else {
            self
        };
        if high.lt(raised) {
            high
        } else {
            raised
        }
    }
}

} // verus!
