//! Elementary functions, supplied by the caller.
//!
//! Sums, products, quotients and roots are computed by this library and are the same on every
//! machine. Exponentials, logarithms and the like come from the platform: every function that
//! needs one takes it as an argument and is exact about what it does with the values.
use vstd::prelude::*;

use crate::ieee::Double;

verus! {

/// An elementary function. The second argument counts only for the powers.
#[derive(Clone, Copy, PartialEq, Eq, Structural, Debug)]
pub enum Elementary {
    /// `e` to the power of the argument.
    Exp,
    /// The natural logarithm.
    Ln,
    /// The decimal logarithm.
    Log10,
    /// The sine of an angle in radians.
    Sin,
    /// The cosine of an angle in radians.
    Cos,
    /// The tangent of an angle in radians.
    Tan,
    /// The first argument to the power of the second.
    Pow,
    /// The same, computed in `binary32`, of two arguments that `binary32` holds.
    PowSingle,
}

/// The supplied functions have a value everywhere, and the same one each time.
pub open spec fn reliable<M: Fn(Elementary, Double, Double) -> Double>(maths: M) -> bool {
    &&& forall|f: Elementary, x: Double, y: Double| #[trigger] call_requires(maths, (f, x, y))
    &&& forall|f: Elementary, x: Double, y: Double, r: Double, s: Double|
        #[trigger] call_ensures(maths, (f, x, y), r) && #[trigger] call_ensures(maths, (f, x, y), s)
            ==> r == s
}

/// `r` is what the supplied function may answer.
pub open spec fn answers<M: Fn(Elementary, Double, Double) -> Double>(
    maths: M,
    f: Elementary,
    x: Double,
    y: Double,
    r: Double,
) -> bool {
    call_ensures(maths, (f, x, y), r)
}

/// The value of an elementary function; zero where there is none.
pub open spec fn value_of<M: Fn(Elementary, Double, Double) -> Double>(
    maths: M,
    f: Elementary,
    x: Double,
    y: Double,
) -> Double {
    if exists|r: Double| answers(maths, f, x, y, r) {
        choose|r: Double| answers(maths, f, x, y, r)
    } else {
        Double { bits: 0 }
    }
}

/// A reliable function has one value: what it answers.
pub proof fn lemma_answer_is_value<M: Fn(Elementary, Double, Double) -> Double>(
    maths: M,
    f: Elementary,
    x: Double,
    y: Double,
    r: Double,
)
    requires
        reliable(maths),
        call_ensures(maths, (f, x, y), r),
    ensures
        value_of(maths, f, x, y) == r,
{
    assert(answers(maths, f, x, y, r));
    assert(answers(maths, f, x, y, value_of(maths, f, x, y)));
}

/// Asks for the value of an elementary function.
pub fn evaluate<M: Fn(Elementary, Double, Double) -> Double>(
    maths: &M,
    f: Elementary,
    x: Double,
    y: Double,
) -> (r: Double)
    requires
        reliable(*maths),
    ensures
        call_ensures(*maths, (f, x, y), r),
        r == value_of(*maths, f, x, y),
{
    let r: Double = maths(f, x, y);
    proof {
        lemma_answer_is_value(*maths, f, x, y, r);
    }
    r
}

} // verus!
