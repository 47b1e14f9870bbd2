//! Laws of numbers as they are shown: digits, units, rates.
use vstd::arithmetic::power2::*;
use vstd::prelude::*;

use crate::coord::{light_years, whole_meters, METERS_PER_AU, METERS_PER_LIGHT_YEAR};
use crate::decimal::{digit_char, digits, integer_text};
use crate::ieee::accuracy::{
    lemma_double_literal, lemma_product_relative, lemma_quotient_relative, size,
};
use crate::ieee::bounds::lemma_whole_within;
use crate::ieee::Double;
use crate::laws::coord::law_rounding_is_within_half_a_meter;
use crate::laws::space::lemma_range;
use crate::viewer::{speed_in, suitable_unit, SpeedUnit};

verus! {

/// The digit of a character.
pub open spec fn digit_of(c: char) -> int {
    c as int - '0' as int
}

/// The number that decimal digits stand for.
pub open spec fn number_of(text: Seq<char>) -> int
    decreases text.len(),
{
    if text.len() == 0 {
        0
    } else {
        10 * number_of(text.drop_last()) + digit_of(text.last())
    }
}

/// The digits of a number stand for it: they are decimal digits, the first of which is zero for
/// zero alone.
pub proof fn law_digits_stand_for_the_number(n: nat)
    ensures
        number_of(digits(n)) == n,
        digits(n).len() > 0,
        digits(n).len() > 1 ==> digit_of(digits(n)[0]) > 0,
        forall|i: int| 0 <= i < digits(n).len() ==> 0 <= #[trigger] digit_of(digits(n)[i]) <= 9,
    decreases n,
{
    if n < 10 {
        let text = digits(n);
        assert(text =~= seq![digit_char(n)]);
        assert(text.drop_last() =~= Seq::empty());
        assert(number_of(text.drop_last()) == 0);
        assert(text.last() == digit_char(n));
        assert(digit_of(digit_char(n)) == n);
    } else {
        let before = digits(n / 10);
        let text = digits(n);
        law_digits_stand_for_the_number(n / 10);
        assert(text.drop_last() =~= before);
        assert(digit_of(text.last()) == n % 10);
        assert(text[0] == before[0]);
        assert forall|i: int| 0 <= i < text.len() implies 0 <= #[trigger] digit_of(text[i]) <= 9 by {
            if i < before.len() {
                assert(text[i] == before[i]);
                assert(0 <= digit_of(before[i]) <= 9);
            }
        }
        if before.len() == 1 {
            assert(before.drop_last() =~= Seq::empty());
            assert(number_of(before.drop_last()) == 0);
            assert(number_of(before) == digit_of(before[0]));
        }
    }
}

/// The text of an integer stands for it: a minus sign before the digits where it is negative, and
/// the digits alone where it is not.
pub proof fn law_texts_stand_for_the_integer(x: int)
    ensures
        x >= 0 ==> number_of(integer_text(x)) == x,
        x < 0 ==> integer_text(x).len() > 1 && integer_text(x)[0] == '-' && number_of(
            integer_text(x).skip(1),
        ) == -x,
{
    if x < 0 {
        law_digits_stand_for_the_number((-x) as nat);
        assert(integer_text(x).skip(1) =~= digits((-x) as nat));
    } else {
        law_digits_stand_for_the_number(x as nat);
    }
}

/// The length of a light-year and of an astronomical unit, in meters.
proof fn lemma_lengths()
    ensures
        (Double { bits: METERS_PER_LIGHT_YEAR }).finite(),
        (Double { bits: METERS_PER_LIGHT_YEAR }).units() == 9460730472580800 * pow2(1074),
        (Double { bits: METERS_PER_AU }).finite(),
        (Double { bits: METERS_PER_AU }).units() == 149597870700 * pow2(1074),
{
    lemma2_to64();
    lemma2_to64_rest();
    let (year, unit) = (Double { bits: METERS_PER_LIGHT_YEAR }, Double { bits: METERS_PER_AU });
    lemma_double_literal(year, 0x10_ce3d_fb91_2360, 1075);
    lemma_double_literal(unit, 0x11_6a5d_2d36_0000, 1059);
    lemma_pow2_adds(1, 1074);
    lemma_pow2_adds(15, 1059);
    let (k, l) = (pow2(1074), pow2(1059));
    assert(year.units() == 0x10_ce3d_fb91_2360 * (2 * k));
    assert(k == 0x8000 * l);
}

/// Light-years become meters, 9460730472580800 each, to the nearest meter and up to rounding.
pub proof fn law_light_years_are_meters(ly: Double)
    requires
        ly.finite(),
        size(ly.units()) <= pow2(1130),
    ensures
        ({
            let (m, u) = (whole_meters(light_years(ly)), pow2(1074) as int);
            let exact = 9460730472580800 * ly.units();
            size(m * u - exact) * pow2(52) <= size(exact) + u * pow2(52)
        }),
{
    let year = Double { bits: METERS_PER_LIGHT_YEAR };
    let (x, u) = (ly.units(), pow2(1074) as int);
    let exact = 9460730472580800 * x;
    lemma2_to64();
    lemma2_to64_rest();
    lemma_lengths();
    lemma_pow2_pos(1074);
    lemma_pow2_adds(54, 1130);
    lemma_pow2_strictly_increases(1184, 2000);
    lemma_pow2_adds(10, 1184);
    assert(size(exact) <= pow2(1184)) by (nonlinear_arith)
        requires
            exact == 9460730472580800 * x,
            size(x) <= pow2(1130),
            pow2(1184) == pow2(54) * pow2(1130),
            pow2(54) == 0x40_0000_0000_0000,
    ;
    assert(x * year.units() == exact * u) by (nonlinear_arith)
        requires
            year.units() == 9460730472580800 * u,
            exact == 9460730472580800 * x,
    ;
    assert(size(exact * u) == size(exact) * u && size(exact) * u <= pow2(2000) * u)
        by (nonlinear_arith)
        requires
            u > 0,
            size(exact) <= pow2(2000),
    ;
    lemma_product_relative(ly, year);
    let meters = light_years(ly);
    let p = meters.units();
    assert(size(p - exact) * pow2(53) <= size(exact) + pow2(53)) by (nonlinear_arith)
        requires
            size(p * u - exact * u) * pow2(53) <= size(exact) * u + pow2(53) * u,
            u > 0,
    ;
    lemma_pow2_strictly_increases(53, 1074);
    lemma_pow2_adds(1, 1184);
    lemma_pow2_strictly_increases(53, 1184);
    lemma_pow2_strictly_increases(1185, 1194);
    lemma_whole_within(meters, 120);
    lemma_range();
    lemma_pow2_strictly_increases(120, 127);
    law_rounding_is_within_half_a_meter(meters);
}

/// A threshold that stands for a part of a length: the part is one over `n`.
proof fn lemma_threshold(part: Double, length: Double, n: int, m: int)
    requires
        part.finite(),
        length.finite(),
        0 < part.units() <= pow2(1074),
        length.units() == m * pow2(1074),
        0 < m <= 0x40_0000_0000_0000,
        1 <= n <= 1000,
        size(n * part.units() - pow2(1074)) * pow2(50) <= pow2(1074),
        n * pow2(1060) <= pow2(1074),
    ensures
        ({
            let t = part.product(length);
            &&& t.finite()
            &&& size(n * t.units() - length.units()) * pow2(48) <= length.units()
        }),
{
    let (c, u) = (part.units(), pow2(1074) as int);
    let x = c * m;
    lemma2_to64();
    lemma2_to64_rest();
    lemma_pow2_pos(1074);
    lemma_pow2_adds(54, 1074);
    lemma_pow2_strictly_increases(1128, 2000);
    assert(c * length.units() == x * u) by (nonlinear_arith)
        requires
            length.units() == m * u,
            x == c * m,
    ;
    assert(0 <= x <= pow2(1128)) by (nonlinear_arith)
        requires
            x == c * m,
            0 < c <= pow2(1074),
            0 < m <= pow2(54),
            pow2(54) * pow2(1074) == pow2(1128),
    ;
    assert(x * u >= 0 && x * u <= pow2(2000) * u) by (nonlinear_arith)
        requires
            0 <= x <= pow2(2000),
            u > 0,
    ;
    lemma_product_relative(part, length);
    let t = part.product(length).units();
    assert(size(t - x) * pow2(53) <= x + pow2(53)) by (nonlinear_arith)
        requires
            size(t * u - x * u) * pow2(53) <= x * u + pow2(53) * u,
            u > 0,
    ;
    let l = m * u;
    assert(size(n * x - l) * pow2(50) <= l && n * x <= 2 * l) by (nonlinear_arith)
        requires
            size(n * c - u) * pow2(50) <= u,
            pow2(50) >= 2,
            x == c * m,
            l == m * u,
            m > 0,
            u > 0,
    ;
    lemma_pow2_strictly_increases(64, 1074);
    assert(l >= u) by (nonlinear_arith)
        requires
            l == m * u,
            m >= 1,
            u > 0,
    ;
    assert(size(n * t - n * x) * pow2(53) <= n * x + n * pow2(53)) by (nonlinear_arith)
        requires
            size(t - x) * pow2(53) <= x + pow2(53),
            n >= 1,
    ;
    assert(n * pow2(53) <= l) by (nonlinear_arith)
        requires
            n <= 1000,
            pow2(53) == 0x20_0000_0000_0000,
            pow2(64) <= l,
            pow2(64) == 0x1_0000_0000_0000_0000,
    ;
}

/// The thresholds between the units.
proof fn lemma_thresholds()
    ensures
        ({
            let (year, unit) = (
                Double { bits: METERS_PER_LIGHT_YEAR },
                Double { bits: METERS_PER_AU },
            );
            let (a, b) = ((Double { bits: 0x3f50_624d_d2f1_a9fc /* 0.001 */ }).product(year), (Double { bits: 0x3f84_7ae1_47ae_147b /* 0.01 */ }).product(unit));
            &&& a.finite() && b.finite()
            &&& size(1000 * a.units() - year.units()) * pow2(48) <= year.units()
            &&& size(100 * b.units() - unit.units()) * pow2(48) <= unit.units()
        }),
{
    let (p, q) = (Double { bits: 0x3f50_624d_d2f1_a9fc /* 0.001 */ }, Double { bits: 0x3f84_7ae1_47ae_147b /* 0.01 */ });
    lemma2_to64();
    lemma2_to64_rest();
    lemma_lengths();
    lemma_double_literal(p, 0x10_624d_d2f1_a9fc, 1012);
    lemma_double_literal(q, 0x14_7ae1_47ae_147b, 1015);
    lemma_pow2_adds(62, 1012);
    lemma_pow2_adds(59, 1015);
    lemma_pow2_pos(1012);
    lemma_pow2_pos(1015);
    lemma_pow2_pos(1060);
    lemma_pow2_adds(14, 1060);
    let (k, l, u) = (pow2(1012), pow2(1015), pow2(1074));
    assert(u == 0x4000_0000_0000_0000 * k && u == 0x800_0000_0000_0000 * l);
    assert(p.units() <= u && 1000 * p.units() - u == 96 * k) by (nonlinear_arith)
        requires
            p.units() == 0x10_624d_d2f1_a9fc * k,
            u == 0x4000_0000_0000_0000 * k,
            k > 0,
    ;
    assert(q.units() <= u && 100 * q.units() - u == 12 * l) by (nonlinear_arith)
        requires
            q.units() == 0x14_7ae1_47ae_147b * l,
            u == 0x800_0000_0000_0000 * l,
            l > 0,
    ;
    assert(96 * k * 0x4_0000_0000_0000 <= u);
    assert(12 * l * 0x4_0000_0000_0000 <= u);
    lemma_threshold(p, Double { bits: METERS_PER_LIGHT_YEAR }, 1000, 9460730472580800);
    lemma_threshold(q, Double { bits: METERS_PER_AU }, 100, 149597870700);
}

/// The length of a unit of speed, in meters.
pub open spec fn length_of(unit: SpeedUnit) -> int {
    match unit {
        SpeedUnit::LightYears => 9460730472580800,
        SpeedUnit::AstronomicalUnits => 149597870700,
        SpeedUnit::Kilometers => 1000,
        SpeedUnit::Meters => 1,
    }
}

/// A speed is clearly above the part `1 / n` of a unit.
pub open spec fn is_above(speed: Double, n: int, unit: SpeedUnit) -> bool {
    n * speed.units() * 0x100_0000_0000 >= length_of(unit) * pow2(1074) * 0x100_0000_0001
}

/// A speed is clearly below the part `1 / n` of a unit.
pub open spec fn is_below(speed: Double, n: int, unit: SpeedUnit) -> bool {
    n * speed.units() * 0x100_0000_0000 <= length_of(unit) * pow2(1074) * 0xff_ffff_ffff
}

/// A speed is shown in light-years from a thousandth of one on, else in astronomical units from a
/// hundredth of one on, else in kilometers from one on, and else in meters; and it is the number
/// that is shown times the length of the unit, up to rounding.
pub proof fn law_speeds_are_shown_in_suitable_units(speed: Double)
    requires
        speed.finite(),
        0 <= speed.units() <= pow2(1400),
    ensures
        ({
            let unit = suitable_unit(speed);
            let shown = speed_in(speed, unit);
            let (s, u) = (speed.units(), pow2(1074) as int);
            &&& is_above(speed, 1000, SpeedUnit::LightYears) ==> unit == SpeedUnit::LightYears
            &&& is_below(speed, 1000, SpeedUnit::LightYears) && is_above(
                speed,
                100,
                SpeedUnit::AstronomicalUnits,
            ) ==> unit == SpeedUnit::AstronomicalUnits
            &&& is_below(speed, 100, SpeedUnit::AstronomicalUnits) && s >= 1000 * u ==> unit
                == SpeedUnit::Kilometers
            &&& s < 1000 * u ==> unit == SpeedUnit::Meters
            &&& shown.finite()
            &&& size(shown.units() * length_of(unit) - s) * pow2(53) <= s + pow2(53) * length_of(unit)
        }),
{
    let (year, au) = (Double { bits: METERS_PER_LIGHT_YEAR }, Double { bits: METERS_PER_AU });
    let km = Double { bits: 0x408f_4000_0000_0000 /* 1000.0 */ };
    let (s, u) = (speed.units(), pow2(1074) as int);
    lemma2_to64();
    lemma2_to64_rest();
    lemma_pow2_pos(1074);
    lemma_lengths();
    lemma_thresholds();
    lemma_double_literal(km, 0x1f_4000_0000_0000, 1031);
    lemma_pow2_adds(43, 1031);
    assert(km.units() == 1000 * u);
    let (a, b) = ((Double { bits: 0x3f50_624d_d2f1_a9fc /* 0.001 */ }).product(year).units(), (Double { bits: 0x3f84_7ae1_47ae_147b /* 0.01 */ }).product(au).units());
    let (l, m) = (year.units(), au.units());
    assert(l == 9460730472580800 * u && m == 149597870700 * u);
    lemma_between(s, a, l, 1000);
    lemma_between(s, b, m, 100);
    assert(a >= 1000000 * u && b >= 1000000 * u);
    lemma_shown(speed, year, 9460730472580800);
    lemma_shown(speed, au, 149597870700);
    lemma_shown(speed, km, 1000);
}

/// A speed against a threshold.
proof fn lemma_between(s: int, t: int, l: int, n: int)
    requires
        l > 0,
        n > 0,
        size(n * t - l) * 0x1_0000_0000_0000 <= l,
    ensures
        n * s * 0x100_0000_0000 >= l * 0x100_0000_0001 ==> t <= s,
        n * s * 0x100_0000_0000 <= l * 0xff_ffff_ffff ==> s < t,
{
    let (x, y) = (n * s, n * t);
    if x * 0x100_0000_0000 >= l * 0x100_0000_0001 {
        assert(y <= x);
        assert(t <= s) by (nonlinear_arith)
            requires
                n * t <= n * s,
                n > 0,
        ;
    }
    if x * 0x100_0000_0000 <= l * 0xff_ffff_ffff {
        assert(x < y);
        assert(s < t) by (nonlinear_arith)
            requires
                n * s < n * t,
                n > 0,
        ;
    }
}

/// A speed in a unit.
proof fn lemma_shown(speed: Double, unit: Double, n: int)
    requires
        speed.finite(),
        unit.finite(),
        0 <= speed.units() <= pow2(1400),
        n >= 1,
        unit.units() == n * pow2(1074),
    ensures
        ({
            let (s, r) = (speed.units(), speed.quotient(unit));
            r.finite() && size(r.units() * n - s) * pow2(53) <= s + pow2(53) * n
        }),
{
    let (s, u) = (speed.units(), pow2(1074) as int);
    lemma_pow2_pos(1074);
    lemma_pow2_strictly_increases(1400, 2000);
    assert(unit.units() >= u) by (nonlinear_arith)
        requires
            unit.units() == n * u,
            n >= 1,
            u > 0,
    ;
    assert(s * pow2(1074) <= pow2(2000) * unit.units()) by (nonlinear_arith)
        requires
            0 <= s <= pow2(2000),
            0 < pow2(1074) <= unit.units(),
    ;
    lemma_quotient_relative(speed, unit);
    let r = speed.quotient(unit).units();
    assert(size(r * n - s) * pow2(53) <= s + pow2(53) * n) by (nonlinear_arith)
        requires
            size(r * (n * u) - s * u) * pow2(53) <= s * u + pow2(53) * (n * u),
            u > 0,
    ;
}

} // verus!
