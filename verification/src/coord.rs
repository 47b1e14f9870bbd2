//! Galactic coordinate system.
//!
//! Absolute positions across the galaxy are stored as [`GalacticCoord`], built on the [`Fixed`]
//! newtype over `i128`. The scale is one unit per meter, with no fractional part:
//!
//! * `i128` covers 1.7e38 meters to either side, about 1.8e22 light years, which leaves room
//!   for sums and differences of positions in any galaxy.
//! * Precision near objects comes from the floating origin: [`GalacticCoord::relative_f64`]
//!   subtracts a nearby origin exactly and only then converts the small difference.
use vstd::arithmetic::power2::*;
use vstd::prelude::*;
use vstd::std_specs::ops::{AddSpecImpl, MulSpecImpl, NegSpecImpl, SubSpecImpl};

use crate::decimal::{append_integer, integer_text};
use crate::ieee::convert::{double_of_int, saturated};
use crate::ieee::Double;
use crate::vector::Vector;

verus! {

/// Meters per light year: the encoding of 9.4607304725808e15.
pub const METERS_PER_LIGHT_YEAR: u64 = 0x4340_ce3d_fb91_2360;

/// Meters per parsec: the encoding of 3.085677581491367e16.
pub const METERS_PER_PARSEC: u64 = 0x435b_6804_be57_27a2;

/// Meters per astronomical unit: the encoding of 1.495978707e11.
pub const METERS_PER_AU: u64 = 0x4241_6a5d_2d36_0000;

/// `x` fits the backing integer of a coordinate.
pub open spec fn fits(x: int) -> bool {
    i128::MIN <= x <= i128::MAX
}

/// The whole number of meters that stands for `m`: the nearest, halves away from zero, brought
/// into range; zero for NaN.
pub open spec fn whole_meters(m: Double) -> int {
    if m.nan() {
        0
    } else {
        saturated(m.nearest_int(), i128::MIN as int, i128::MAX as int)
    }
}

/// A light-year value in meters.
pub open spec fn light_years(ly: Double) -> Double {
    ly.product(Double { bits: METERS_PER_LIGHT_YEAR })
}

/// Fixed-point scalar backing a single axis of a galactic coordinate: a whole number of meters.
#[derive(Clone, Copy, PartialEq, Eq, Structural, PartialOrd, Ord, Hash, Debug)]
pub struct Fixed(i128);

impl Fixed {
    /// Sub-units per whole unit. `1` means the raw value counts meters.
    pub const SCALE: i128 = 1;

    /// The value in meters.
    pub closed spec fn value(self) -> int {
        self.0 as int
    }

    /// The scalar with the given value.
    pub closed spec fn of(x: int) -> Fixed {
        Fixed(x as i128)
    }

    /// Every value that fits is met.
    pub proof fn lemma_of(x: int)
        requires
            fits(x),
        ensures
            Fixed::of(x).value() == x,
    {
    }

    /// Every scalar is the one with its value, which fits.
    pub proof fn lemma_is_of_its_value(self)
        ensures
            fits(self.value()),
            Fixed::of(self.value()) == self,
    {
    }

    /// Scalars with the same value are the same.
    pub proof fn lemma_same_value(self, other: Fixed)
        requires
            self.value() == other.value(),
        ensures
            self == other,
    {
    }

    /// Zero value.
    pub fn zero() -> (r: Fixed)
        ensures
            r.value() == 0,
    {
        Fixed(0)
    }

    /// Wrap a raw backing value (in sub-units) directly.
    pub fn from_raw(raw: i128) -> (r: Fixed)
        ensures
            r.value() == raw,
    {
        Fixed(raw)
    }

    /// The raw backing integer (sub-units).
    pub fn raw(self) -> (r: i128)
        ensures
            r == self.value(),
    {
        self.0
    }

    /// Construct from a whole number of meters.
    pub fn from_meters_i128(m: i128) -> (r: Fixed)
        ensures
            r.value() == m,
    {
        Fixed(m * Self::SCALE)
    }

    /// Construct from a (possibly fractional) meter value, rounded to the nearest meter.
    pub fn from_meters_f64(m: Double) -> (r: Fixed)
        ensures
            r.value() == whole_meters(m),
    {
        Fixed(m.round_to_i128())
    }

    /// Construct from a light-year value.
    pub fn from_light_years(ly: Double) -> (r: Fixed)
        ensures
            r.value() == whole_meters(light_years(ly)),
    {
        Self::from_meters_f64(ly.times(Double { bits: METERS_PER_LIGHT_YEAR }))
    }

    /// Value expressed in meters (the nearest number, where it is huge).
    pub fn to_meters_f64(self) -> (r: Double)
        ensures
            r == double_of_int(self.value()),
    {
        Double::from_i128(self.0)
    }

    /// Difference `self - other` expressed in meters.
    ///
    /// The subtraction happens on whole numbers, so that only a difference of more than
    /// fifty-three digits is rounded.
    pub fn delta_meters_f64(self, other: Fixed) -> (r: Double)
        requires
            fits(self.value() - other.value()),
        ensures
            r == double_of_int(self.value() - other.value()),
    {
        Double::from_i128(self.0 - other.0)
    }

    /// The text that shows the scalar in diagnostics, as in `Fixed(42 m)`.
    pub fn debug_text(self) -> (r: String)
        ensures
            r@ == "Fixed("@ + integer_text(self.value()) + " m)"@,
    {
        let mut text: String = String::from_str("Fixed(");
        append_integer(&mut text, self.0);
        text.append(" m)");
        text
    }
}

impl std::ops::Add for Fixed {
    type Output = Fixed;

    fn add(self, rhs: Fixed) -> Fixed {
        Fixed(self.0 + rhs.0)
    }
}

impl AddSpecImpl for Fixed {
    open spec fn obeys_add_spec() -> bool {
        true
    }

    open spec fn add_req(self, rhs: Fixed) -> bool {
        fits(self.value() + rhs.value())
    }

    open spec fn add_spec(self, rhs: Fixed) -> Fixed {
        Fixed::of(self.value() + rhs.value())
    }
}

impl std::ops::Sub for Fixed {
    type Output = Fixed;

    fn sub(self, rhs: Fixed) -> Fixed {
        Fixed(self.0 - rhs.0)
    }
}

impl SubSpecImpl for Fixed {
    open spec fn obeys_sub_spec() -> bool {
        true
    }

    open spec fn sub_req(self, rhs: Fixed) -> bool {
        fits(self.value() - rhs.value())
    }

    open spec fn sub_spec(self, rhs: Fixed) -> Fixed {
        Fixed::of(self.value() - rhs.value())
    }
}

impl std::ops::Neg for Fixed {
    type Output = Fixed;

    fn neg(self) -> Fixed {
        Fixed(-self.0)
    }
}

impl NegSpecImpl for Fixed {
    open spec fn obeys_neg_spec() -> bool {
        true
    }

    open spec fn neg_req(self) -> bool {
        fits(-self.value())
    }

    open spec fn neg_spec(self) -> Fixed {
        Fixed::of(-self.value())
    }
}

impl std::ops::Mul<i128> for Fixed {
    type Output = Fixed;

    fn mul(self, rhs: i128) -> Fixed {
        Fixed(self.0 * rhs)
    }
}

impl MulSpecImpl<i128> for Fixed {
    open spec fn obeys_mul_spec() -> bool {
        true
    }

    open spec fn mul_req(self, rhs: i128) -> bool {
        fits(self.value() * rhs)
    }

    open spec fn mul_spec(self, rhs: i128) -> Fixed {
        Fixed::of(self.value() * rhs)
    }
}

impl Default for Fixed {
    fn default() -> (r: Fixed)
        ensures
            r.value() == 0,
    {
        Fixed(0)
    }
}

/// An absolute position in the galaxy.
#[derive(Clone, Copy, PartialEq, Eq, Structural, Hash, Debug)]
pub struct GalacticCoord {
    pub x: Fixed,
    pub y: Fixed,
    pub z: Fixed,
}

impl GalacticCoord {
    /// The position with the given coordinates, in meters.
    pub open spec fn at(x: int, y: int, z: int) -> GalacticCoord {
        GalacticCoord { x: Fixed::of(x), y: Fixed::of(y), z: Fixed::of(z) }
    }

    /// The coordinates in meters are those of `v`, rounded.
    pub open spec fn nearest_to(v: Vector) -> GalacticCoord {
        GalacticCoord::at(whole_meters(v.x), whole_meters(v.y), whole_meters(v.z))
    }

    /// The position at these light-years.
    pub open spec fn in_light_years(x: Double, y: Double, z: Double) -> GalacticCoord {
        GalacticCoord::nearest_to(
            Vector { x: light_years(x), y: light_years(y), z: light_years(z) },
        )
    }

    /// The differences to `origin` fit a coordinate.
    pub open spec fn measurable_from(self, origin: GalacticCoord) -> bool {
        &&& fits(self.x.value() - origin.x.value())
        &&& fits(self.y.value() - origin.y.value())
        &&& fits(self.z.value() - origin.z.value())
    }

    /// The position seen from `origin`.
    pub open spec fn relative(self, origin: GalacticCoord) -> Vector {
        Vector {
            x: double_of_int(self.x.value() - origin.x.value()),
            y: double_of_int(self.y.value() - origin.y.value()),
            z: double_of_int(self.z.value() - origin.z.value()),
        }
    }

    /// The distance between two positions.
    pub open spec fn distance(self, other: GalacticCoord) -> Double {
        self.relative(other).norm()
    }

    /// The center of the coordinate system.
    pub fn origin() -> (r: GalacticCoord)
        ensures
            r == GalacticCoord::at(0, 0, 0),
    {
        GalacticCoord { x: Fixed(0), y: Fixed(0), z: Fixed(0) }
    }

    /// The position with the given coordinates.
    pub fn new(x: Fixed, y: Fixed, z: Fixed) -> (r: GalacticCoord)
        ensures
            r == (GalacticCoord { x, y, z }),
    {
        GalacticCoord { x, y, z }
    }

    /// Build from whole-meter integer components.
    pub fn from_meters_i128(x: i128, y: i128, z: i128) -> (r: GalacticCoord)
        ensures
            r == GalacticCoord::at(x as int, y as int, z as int),
    {
        GalacticCoord {
            x: Fixed::from_meters_i128(x),
            y: Fixed::from_meters_i128(y),
            z: Fixed::from_meters_i128(z),
        }
    }

    /// Build from a meter position (coarse global placement).
    pub fn from_meters_f64(v: Vector) -> (r: GalacticCoord)
        ensures
            r == GalacticCoord::nearest_to(v),
    {
        GalacticCoord {
            x: Fixed::from_meters_f64(v.x),
            y: Fixed::from_meters_f64(v.y),
            z: Fixed::from_meters_f64(v.z),
        }
    }

    /// Build from light-year components.
    pub fn from_light_years_vec(x: Double, y: Double, z: Double) -> (r: GalacticCoord)
        ensures
            r == GalacticCoord::in_light_years(x, y, z),
    {
        GalacticCoord {
            x: Fixed::from_light_years(x),
            y: Fixed::from_light_years(y),
            z: Fixed::from_light_years(z),
        }
    }

    /// Whether the differences to `origin` fit a coordinate.
    pub fn is_measurable_from(self, origin: GalacticCoord) -> (r: bool)
        ensures
            r == self.measurable_from(origin),
    {
        self.x.0.checked_sub(origin.x.0).is_some() && self.y.0.checked_sub(origin.y.0).is_some()
            && self.z.0.checked_sub(origin.z.0).is_some()
    }

    /// Position relative to `origin`, in meters.
    ///
    /// This is the heart of the floating origin: it removes the huge absolute magnitude before
    /// any rounding takes place.
    pub fn relative_f64(self, origin: GalacticCoord) -> (r: Vector)
        requires
            self.measurable_from(origin),
        ensures
            r == self.relative(origin),
    {
        Vector::new(
            self.x.delta_meters_f64(origin.x),
            self.y.delta_meters_f64(origin.y),
            self.z.delta_meters_f64(origin.z),
        )
    }

    /// Add a small meter offset to an absolute position.
    pub fn offset_f64(self, delta: Vector) -> (r: GalacticCoord)
        requires
            fits(self.x.value() + whole_meters(delta.x)),
            fits(self.y.value() + whole_meters(delta.y)),
            fits(self.z.value() + whole_meters(delta.z)),
        ensures
            r == GalacticCoord::at(
                self.x.value() + whole_meters(delta.x),
                self.y.value() + whole_meters(delta.y),
                self.z.value() + whole_meters(delta.z),
            ),
    {
        GalacticCoord {
            x: self.x + Fixed::from_meters_f64(delta.x),
            y: self.y + Fixed::from_meters_f64(delta.y),
            z: self.z + Fixed::from_meters_f64(delta.z),
        }
    }

    /// Squared distance in meters.
    pub fn distance_sq_meters(self, other: GalacticCoord) -> (r: Double)
        requires
            self.measurable_from(other),
        ensures
            r == self.relative(other).square(),
    {
        let d: Vector = self.relative_f64(other);
        d.length_squared()
    }

    /// Distance in meters.
    pub fn distance_meters(self, other: GalacticCoord) -> (r: Double)
        requires
            self.measurable_from(other),
        ensures
            r == self.distance(other),
    {
        self.distance_sq_meters(other).sqrt()
    }
}

impl Default for GalacticCoord {
    fn default() -> (r: GalacticCoord)
        ensures
            r == GalacticCoord::at(0, 0, 0),
    {
        GalacticCoord::origin()
    }
}

} // verus!
