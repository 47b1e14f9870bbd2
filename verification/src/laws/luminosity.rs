//! Laws of the luminosity function: where it is known, where it peaks, and that it is positive.
use vstd::arithmetic::power2::*;
use vstd::prelude::*;

use crate::ieee::bounds::{
    lemma_part_of_length, lemma_power_code, lemma_rounding_keeps_order, lemma_rounds_to_itself,
    lemma_sum_units, power_code,
};
use crate::ieee::double::{double_of, lemma_double_format, DOUBLE_INF};
use crate::ieee::encoding::{code_units, lemma_code_units_increases, Double, Single};
use crate::ieee::exact::{
    lemma_nearest_at_least, lemma_nearest_at_most, lemma_nearest_exists, lemma_nearest_of_code,
    lemma_whole_number_code,
};
use crate::ieee::rounding::lemma_code_units_ordered;
use crate::ieee::single::SINGLE_INF;
use crate::laws::photometry::{
    abs_nat, lemma_single_power_code, single_power_code, lemma_rounded_order, lemma_sum_rounds,
};
use crate::maths::{lemma_answer_is_value, reliable, Elementary};
use crate::params::{interpolated_log, log_density, luminosity_table, weight_at, TEN};

verus! {

/// The difference of two negative numbers whose codes are at most one binary order apart is
/// exact.
proof fn lemma_difference_is_exact(a: Double, b: Double)
    requires
        a.finite(),
        b.finite(),
        a.negative(),
        b.negative(),
        60 * 0x10_0000_0000_0000 <= a.code() <= 1900 * 0x10_0000_0000_0000,
        60 * 0x10_0000_0000_0000 <= b.code() <= 1900 * 0x10_0000_0000_0000,
        a.code() - b.code() <= 0x10_0000_0000_0000,
        b.code() - a.code() <= 0x10_0000_0000_0000,
    ensures
        a.difference(b).finite(),
        a.difference(b).units() == a.units() - b.units(),
{
    lemma_double_format();
    let q = 0x10_0000_0000_0000nat;
    let (lo, hi) = if a.code() <= b.code() {
        (a.code(), b.code())
    } else {
        (b.code(), a.code())
    };
    let e = (lo / q - 1) as nat;
    assert(hi / q == lo / q || hi / q == lo / q + 1);
    let scale = pow2(e);
    let x: nat;
    if hi / q == lo / q {
        x = (hi - lo) as nat;
        let (m, n) = (hi % q + q, lo % q + q);
        assert(m * scale - n * scale == x * scale) by (nonlinear_arith)
            requires
                m - n == x,
        ;
    } else {
        x = (2 * (hi % q) + q - lo % q) as nat;
        lemma_pow2_unfold(e + 1);
        let (m, n) = (hi % q + q, lo % q + q);
        assert(m * (2 * scale) - n * scale == x * scale) by (nonlinear_arith)
            requires
                2 * m - n == x,
        ;
    }
    assert(code_units(hi, 52) - code_units(lo, 52) == x * scale);
    let c = lemma_whole_number_code(x, e);
    let s = a.units() - b.units();
    let r = double_of((s < 0, c));
    assert(s == x * scale || s == -(x * scale));
    if s < 0 {
        assert(r.units() == s);
    } else {
        assert(r.units() == s);
    }
    assert(b.opposite().units() == -b.units());
    lemma_sum_units(a, b.opposite());
    lemma_rounds_to_itself(r);
    let d = a.difference(b);
    assert(d.units() == s);
    if !d.finite() {
        lemma_code_units_increases(c, d.code(), 52);
    }
}

/// A part of a difference, for a factor from zero to one, lies between zero and the difference.
proof fn lemma_part_of_difference(delta: Double, part: Double)
    requires
        delta.finite(),
        part.finite(),
        !part.negative(),
        code_units(part.code(), 52) <= pow2(1074),
    ensures
        delta.product(part).finite(),
        delta.units() >= 0 ==> 0 <= delta.product(part).units() <= delta.units(),
        delta.units() <= 0 ==> delta.units() <= delta.product(part).units() <= 0,
{
    let size = delta.magnitude();
    let (x, y) = (code_units(delta.code(), 52), code_units(part.code(), 52));
    lemma_part_of_length(part, size);
    assert(x * y == y * x) by (nonlinear_arith);
    let m = part.product(size);
    let p = delta.product(part);
    lemma_nearest_exists(x * y, pow2(1074), 52, DOUBLE_INF as nat);
    assert(p.code() == m.code());
    assert(m.units() == code_units(m.code(), 52) as int);
}

/// A point on the way from `l0` to `l1`, for a part from zero to one, lies between the two; at
/// the part one it is `l1`.
proof fn lemma_between(l0: Double, l1: Double, part: Double)
    requires
        l0.finite(),
        l1.finite(),
        l0.negative(),
        l1.negative(),
        60 * 0x10_0000_0000_0000 <= l0.code() <= 1900 * 0x10_0000_0000_0000,
        60 * 0x10_0000_0000_0000 <= l1.code() <= 1900 * 0x10_0000_0000_0000,
        l0.code() - l1.code() <= 0x10_0000_0000_0000,
        l1.code() - l0.code() <= 0x10_0000_0000_0000,
        part.finite(),
        !part.negative(),
        code_units(part.code(), 52) <= pow2(1074),
    ensures
        ({
            let r = l0.sum(l1.difference(l0).product(part));
            &&& r.finite()
            &&& l0.units() <= r.units() <= l1.units() || l1.units() <= r.units() <= l0.units()
            &&& code_units(part.code(), 52) == pow2(1074) ==> r == l1
        }),
{
    lemma_difference_is_exact(l1, l0);
    let delta = l1.difference(l0);
    lemma_part_of_difference(delta, part);
    let p = delta.product(part);
    let r = l0.sum(p);
    lemma_sum_units(l0, p);
    lemma_rounds_to_itself(l0);
    lemma_rounds_to_itself(l1);
    if delta.units() >= 0 {
        lemma_rounding_keeps_order(l0.units(), l0.units() + p.units());
        lemma_rounding_keeps_order(l0.units() + p.units(), l1.units());
    } else {
        lemma_rounding_keeps_order(l0.units() + p.units(), l0.units());
        lemma_rounding_keeps_order(l1.units(), l0.units() + p.units());
    }
    lemma_pow2_pos(52);
    lemma_code_units_increases(0, l0.code(), 52);
    lemma_code_units_increases(0, l1.code(), 52);
    assert(r.units() < 0);
    assert(r.negative());
    if !r.finite() {
        lemma_code_units_increases(l0.code(), r.code(), 52);
        lemma_code_units_increases(l1.code(), r.code(), 52);
    }
    if code_units(part.code(), 52) == pow2(1074) {
        let x = code_units(delta.code(), 52);
        lemma_pow2_pos(1074);
        lemma_nearest_of_code(delta.code(), pow2(1074), 52, DOUBLE_INF as nat);
        assert(p.units() == delta.units());
        assert(r.units() == l1.units());
        if r.code() < l1.code() {
            lemma_code_units_increases(r.code(), l1.code(), 52);
        }
        if l1.code() < r.code() {
            lemma_code_units_increases(l1.code(), r.code(), 52);
        }
    }
}

/// How far `mag` is on the way from `m0` to `m1`.
spec fn part_of(mag: Single, m0: Single, m1: Single) -> Double {
    mag.difference(m0).quotient(m1.difference(m0)).widened()
}

/// The part of the way to something between two numbers is from zero to one, and one at the end.
proof fn lemma_part(mag: Single, m0: Single, m1: Single)
    requires
        m0.finite(),
        m1.finite(),
        m0.code() > 0,
        m0.units() < m1.units(),
        -(pow2(157) as int) <= m0.units(),
        m1.units() <= pow2(157),
        !mag.nan(),
        m0.units() <= mag.units() <= m1.units(),
    ensures
        part_of(mag, m0, m1).finite(),
        !part_of(mag, m0, m1).negative(),
        code_units(part_of(mag, m0, m1).code(), 52) <= pow2(1074),
        mag == m1 ==> code_units(part_of(mag, m0, m1).code(), 52) == pow2(1074),
{
    let inf = SINGLE_INF as nat;
    lemma_pow2_pos(23);
    lemma_code_units_increases(0, m0.code(), 23);
    if !mag.finite() {
        lemma_code_units_increases(m0.code(), mag.code(), 23);
        lemma_code_units_increases(m1.code(), mag.code(), 23);
    }
    let less = m0.opposite();
    assert(less.units() == -m0.units());
    let (a, b) = (mag.difference(m0), m1.difference(m0));
    lemma_sum_rounds(mag, less);
    lemma_sum_rounds(m1, less);
    let (s, t) = (mag.units() - m0.units(), m1.units() - m0.units());
    lemma_rounded_order(false, abs_nat(s), false, abs_nat(t), 1);
    assert(0 <= a.units() <= b.units());
    assert(less.negative() == !m0.negative());
    if s == 0 {
        assert(mag.units() == m0.units());
    }
    assert(!a.negative() && !b.negative());
    // The difference of the ends is finite, and not zero.
    lemma_single_power_code(9);
    lemma_pow2_adds(1, 157);
    lemma2_to64();
    assert(abs_nat(t) <= pow2(158) * 1);
    lemma_nearest_at_most(abs_nat(t), 1, 23, inf, single_power_code(9));
    assert(b.finite());
    if !a.finite() {
        lemma_code_units_increases(b.code(), a.code(), 23);
    }
    lemma_single_power_code(0);
    let one = single_power_code(0);
    lemma_nearest_exists(abs_nat(t), 1, 23, inf);
    if b.code() == 0 {
        // Not less than one unit rounds to not less than one unit.
        lemma_nearest_at_least(abs_nat(t), 1, 23, inf, 1);
    }
    lemma_code_units_increases(0, b.code(), 23);
    let (n, d) = (code_units(a.code(), 23), code_units(b.code(), 23));
    let u = pow2(149);
    let w = a.quotient(b);
    lemma_pow2_pos(149);
    assert(n * u <= u * d) by (nonlinear_arith)
        requires
            n <= d,
    ;
    lemma_nearest_at_most(n * u, d, 23, inf, one);
    assert(w.finite() && !w.negative() && w.code() <= one);
    lemma_code_units_ordered(w.code(), one, 23);
    if mag == m1 {
        assert(n * u == u * d) by (nonlinear_arith)
            requires
                n == d,
        ;
        lemma_nearest_of_code(one, d, 23, inf);
        assert(w.code() == one);
    }
    let v = code_units(w.code(), 23);
    let full = pow2(925);
    lemma_power_code(0);
    lemma_pow2_adds(149, 925);
    assert(v * full <= u * full) by (nonlinear_arith)
        requires
            v <= u,
    ;
    assert(pow2(1074) * 1 == pow2(1074) && (v * full) * 1 == v * full);
    lemma_nearest_at_most(v * full, 1, 52, DOUBLE_INF as nat, power_code(0));
    let r = w.widened();
    lemma_code_units_ordered(r.code(), power_code(0), 52);
    if mag == m1 {
        lemma_nearest_of_code(power_code(0), 1, 52, DOUBLE_INF as nat);
    }
}

/// The brightest magnitude of the table.
pub open spec fn brightest() -> Single {
    Single { bits: 0xc128_0000 /* -10.5 */ }
}

/// The faintest magnitude of the table.
pub open spec fn faintest() -> Single {
    Single { bits: 0x4190_0000 /* 18.0 */ }
}

/// The magnitude of the most common stars.
pub open spec fn most_common() -> Single {
    Single { bits: 0x4138_0000 /* 11.5 */ }
}

/// The logarithm of the density of the rarest stars.
pub open spec fn lowest_log() -> Double {
    Double { bits: 0xc026_0000_0000_0000 /* -11.0 */ }
}

/// The logarithm of the density of the most common stars.
pub open spec fn highest_log() -> Double {
    Double { bits: 0xbffe_6666_6666_6666 /* -1.9 */ }
}

/// What each segment of the table keeps to.
proof fn lemma_segment(i: int)
    requires
        0 <= i < 28,
    ensures
        ({
            let t = luminosity_table();
            let ((m0, l0), (m1, l1)) = (t[i], t[i + 1]);
            &&& m0.finite() && m1.finite() && m0.code() > 0
            &&& m0.code() <= 0x4380_0000 && m1.code() <= 0x4380_0000
            &&& m0.negative() && m1.negative() ==> m1.code() < m0.code()
            &&& !m0.negative() ==> !m1.negative() && m0.code() < m1.code()
            &&& l0.negative() && l1.negative()
            &&& 0x3ffe_6666_6666_6666 <= l0.code() <= 0x4026_0000_0000_0000
            &&& 0x3ffe_6666_6666_6666 <= l1.code() <= 0x4026_0000_0000_0000
            &&& l0.code() - l1.code() <= 0x10_0000_0000_0000
            &&& l1.code() - l0.code() <= 0x10_0000_0000_0000
        }),
{
}

/// The magnitudes of the table increase.
proof fn lemma_magnitudes_increase(i: int, j: int)
    requires
        0 <= i < j <= 28,
    ensures
        luminosity_table()[i].0.units() < luminosity_table()[j].0.units(),
    decreases j - i,
{
    let t = luminosity_table();
    lemma_segment(j - 1);
    let (m0, m1) = (t[j - 1].0, t[j].0);
    lemma_pow2_pos(23);
    if m0.negative() && m1.negative() {
        lemma_code_units_increases(m1.code(), m0.code(), 23);
    } else if m0.negative() {
        lemma_code_units_increases(0, m0.code(), 23);
    } else {
        lemma_code_units_increases(m0.code(), m1.code(), 23);
    }
    if i < j - 1 {
        lemma_magnitudes_increase(i, j - 1);
    }
}

/// A segment's interpolation stays between the lowest and the highest logarithm, and ends at
/// that of the segment's end.
proof fn lemma_segment_stays_in_range(mag: Single, i: int)
    requires
        0 <= i < 28,
        !mag.nan(),
        luminosity_table()[i].0.at_most(mag),
        mag.at_most(luminosity_table()[i + 1].0),
    ensures
        ({
            let t = luminosity_table();
            let ((m0, l0), (m1, l1)) = (t[i], t[i + 1]);
            let r = l0.sum(l1.difference(l0).product(part_of(mag, m0, m1)));
            &&& r.finite()
            &&& lowest_log().at_most(r)
            &&& r.at_most(highest_log())
            &&& mag == m1 ==> r == l1
        }),
{
    let t = luminosity_table();
    let ((m0, l0), (m1, l1)) = (t[i], t[i + 1]);
    lemma_segment(i);
    lemma_magnitudes_increase(i, i + 1);
    lemma_single_power_code(8);
    lemma_code_units_ordered(m0.code(), single_power_code(8), 23);
    lemma_code_units_ordered(m1.code(), single_power_code(8), 23);
    lemma_part(mag, m0, m1);
    lemma_between(l0, l1, part_of(mag, m0, m1));
    lemma_code_units_ordered(l0.code(), lowest_log().code(), 52);
    lemma_code_units_ordered(l1.code(), lowest_log().code(), 52);
    lemma_code_units_ordered(highest_log().code(), l0.code(), 52);
    lemma_code_units_ordered(highest_log().code(), l1.code(), 52);
}

proof fn lemma_interpolation_stays_in_range(mag: Single, i: nat)
    requires
        i < 28,
        !mag.nan(),
        luminosity_table()[i as int].0.at_most(mag),
        mag.at_most(luminosity_table()[28].0),
    ensures
        interpolated_log(mag, i) matches Some(l) && l.finite() && lowest_log().at_most(l)
            && l.at_most(highest_log()),
    decreases 28 - i,
{
    let m1 = luminosity_table()[i as int + 1].0;
    lemma_segment(i as int);
    if mag.at_most(m1) {
        lemma_segment_stays_in_range(mag, i as int);
    } else {
        lemma_interpolation_stays_in_range(mag, i + 1);
    }
}

/// The density of stars is known at every magnitude, and largest at a magnitude of 11.5.
pub proof fn law_density_peaks_at_the_most_common_stars(mag: Single)
    requires
        !mag.nan(),
    ensures
        log_density(mag) matches Some(l) && l.finite() && lowest_log().at_most(l) && l.at_most(
            highest_log(),
        ),
        log_density(most_common()) == Some(highest_log()),
{
    let t = luminosity_table();
    lemma_segment(0);
    lemma_segment(27);
    lemma_code_units_ordered(t[28].1.code(), lowest_log().code(), 52);
    lemma_code_units_ordered(highest_log().code(), t[28].1.code(), 52);
    lemma_code_units_ordered(highest_log().code(), t[0].1.code(), 52);
    if !mag.at_most(t[0].0) && !t[28].0.at_most(mag) {
        lemma_interpolation_stays_in_range(mag, 0);
    }
    lemma_magnitudes_increase(0, 22);
    lemma_magnitudes_increase(22, 28);
    lemma_most_common(0);
}

proof fn lemma_most_common(i: nat)
    requires
        i <= 21,
    ensures
        interpolated_log(most_common(), i) == Some(highest_log()),
    decreases 21 - i,
{
    let t = luminosity_table();
    assert(t[22] == (most_common(), highest_log()));
    lemma_magnitudes_increase(i as int, 22);
    lemma_segment(i as int);
    if i < 21 {
        lemma_magnitudes_increase(i as int + 1, 22);
        lemma_most_common(i + 1);
    } else {
        lemma_segment_stays_in_range(most_common(), 21);
    }
}

/// Beyond the ends of the table the density stays what it is there.
pub proof fn law_density_is_constant_beyond_the_table(mag: Single)
    ensures
        mag.at_most(brightest()) ==> log_density(mag) == Some(lowest_log()),
        faintest().at_most(mag) ==> log_density(mag) == Some(Double { bits: 0xc00c_0000_0000_0000 /* -3.5 */ }),
{
    let t = luminosity_table();
    assert(t[0] == (brightest(), lowest_log()));
    assert(t[28].0 == faintest());
    lemma_magnitudes_increase(0, 28);
}

/// Powers of ten with exponents from -11 to -1.9 are positive and keep order.
pub open spec fn powers_of_ten_keep_order<M: Fn(Elementary, Double, Double) -> Double>(maths: M) -> bool {
    forall|x: Double, y: Double, r: Double, s: Double|
        lowest_log().at_most(x) && x.at_most(y) && y.at_most(highest_log())
            && #[trigger] call_ensures(maths, (Elementary::Pow, Double { bits: TEN }, x), r)
            && #[trigger] call_ensures(maths, (Elementary::Pow, Double { bits: TEN }, y), s)
            ==> r.finite() && s.finite() && 0 < r.units() <= s.units()
}

/// Every magnitude has a positive weight, and none a larger one than that of the most common
/// stars.
pub proof fn law_weights_are_positive_and_peak<M: Fn(Elementary, Double, Double) -> Double>(
    maths: M,
    mag: Single,
    weight: Double,
    largest: Double,
)
    requires
        reliable(maths),
        powers_of_ten_keep_order(maths),
        !mag.nan(),
        log_density(mag) matches Some(l) && call_ensures(
            maths,
            (Elementary::Pow, Double { bits: TEN }, l),
            weight,
        ),
        call_ensures(maths, (Elementary::Pow, Double { bits: TEN }, highest_log()), largest),
    ensures
        weight_at(maths, mag) == weight,
        weight_at(maths, most_common()) == largest,
        weight.finite(),
        largest.finite(),
        0 < weight.units() <= largest.units(),
{
    law_density_peaks_at_the_most_common_stars(mag);
    let ten = Double { bits: TEN };
    let l = log_density(mag)->0;
    lemma_answer_is_value(maths, Elementary::Pow, ten, l, weight);
    lemma_answer_is_value(maths, Elementary::Pow, ten, highest_log(), largest);
}

} // verus!
