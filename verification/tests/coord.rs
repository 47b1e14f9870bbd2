use galaxy::coord::{Fixed, GalacticCoord, METERS_PER_AU, METERS_PER_LIGHT_YEAR, METERS_PER_PARSEC};
use galaxy::ieee::Double;
use galaxy::vector::Vector;

fn d(x: f64) -> Double {
    Double::from_bits(x.to_bits())
}

fn f(x: Double) -> f64 {
    f64::from_bits(x.to_bits())
}

fn vector(x: f64, y: f64, z: f64) -> Vector {
    Vector::new(d(x), d(y), d(z))
}

#[test]
fn galaxy_scale_fits_without_overflow() {
    // Radius of the Milky Way ~ 50_000 ly. Two stars on opposite edges.
    let r = Fixed::from_light_years(d(50_000.0));
    let a = GalacticCoord::new(r, r, r);
    let b = GalacticCoord::new(-r, -r, -r);
    let dist = f(a.distance_meters(b));
    assert!(dist > 0.0);
    // ~ sqrt(3) * 100_000 ly in meters.
    let expected = (3.0_f64).sqrt() * 100_000.0 * f64::from_bits(METERS_PER_LIGHT_YEAR);
    assert!((dist - expected).abs() / expected < 1e-6);
}

#[test]
fn floating_origin_preserves_submeter_near_origin() {
    // Two points 1 meter apart, but a galactic distance from absolute zero.
    let base = Fixed::from_light_years(d(10_000.0));
    let p1 = GalacticCoord::new(base, Fixed::zero(), Fixed::zero());
    let p2 = GalacticCoord::new(base + Fixed::from_meters_i128(1), Fixed::zero(), Fixed::zero());
    let rel = p2.relative_f64(p1);
    assert_eq!(rel, vector(1.0, 0.0, 0.0));
}

#[test]
fn relative_is_antisymmetric() {
    let a = GalacticCoord::from_meters_i128(1_000, -2_000, 3_000);
    let b = GalacticCoord::from_meters_i128(-4_000, 5_000, -6_000);
    let ab = a.relative_f64(b);
    let ba = b.relative_f64(a);
    assert_eq!(ab, Vector::new(ba.x.negated(), ba.y.negated(), ba.z.negated()));
}

#[test]
fn offset_roundtrip() {
    let p = GalacticCoord::from_light_years_vec(d(1_000.0), d(2_000.0), d(3_000.0));
    let moved = p.offset_f64(vector(10.0, -20.0, 30.0));
    let back = moved.relative_f64(p);
    assert_eq!(back, vector(10.0, -20.0, 30.0));
}

#[test]
fn from_meters_f64_rounds() {
    assert_eq!(Fixed::from_meters_f64(d(2.4)).raw(), 2);
    assert_eq!(Fixed::from_meters_f64(d(2.6)).raw(), 3);
    assert_eq!(Fixed::from_meters_f64(d(-2.6)).raw(), -3);
}

#[test]
fn constants_are_those_of_astronomy() {
    assert_eq!(f64::from_bits(METERS_PER_LIGHT_YEAR), 9.460_730_472_580_8e15);
    assert_eq!(f64::from_bits(METERS_PER_PARSEC), 3.085_677_581_491_367e16);
    assert_eq!(f64::from_bits(METERS_PER_AU), 1.495_978_707e11);
    assert_eq!(Fixed::SCALE, 1);
}

#[test]
fn rounding_follows_the_cast_of_the_language() {
    for x in [
        0.0,
        -0.0,
        0.49999999999999994,
        0.5,
        -0.5,
        1.5,
        2.5,
        -2.5,
        4503599627370495.5,
        9007199254740993.0,
        1e20,
        -1e30,
        1.7e38,
        -1.7e38,
        1e39,
        -1e39,
        f64::INFINITY,
        f64::NEG_INFINITY,
        f64::NAN,
        f64::MIN_POSITIVE,
        5e-324,
    ] {
        assert_eq!(Fixed::from_meters_f64(d(x)).raw(), x.round() as i128, "{x}");
    }
}

#[test]
fn integers_convert_to_the_nearest_number() {
    for x in [
        0i128,
        1,
        -1,
        (1 << 53) - 1,
        (1 << 53) + 1,
        -(1 << 53) - 3,
        (1 << 90) + 12345,
        i128::MAX,
        i128::MIN,
        i128::MAX - (1 << 70),
    ] {
        assert_eq!(Fixed::from_raw(x).to_meters_f64().to_bits(), (x as f64).to_bits(), "{x}");
    }
}

#[test]
fn differences_are_taken_before_rounding() {
    let far: i128 = 1 << 100;
    let a = Fixed::from_raw(far + 7);
    let b = Fixed::from_raw(far);
    assert_eq!(f(a.delta_meters_f64(b)), 7.0);
    assert_eq!(f(b.delta_meters_f64(a)), -7.0);
}

#[test]
fn scalars_add_subtract_negate_and_scale() {
    let a = Fixed::from_raw(40);
    let b = Fixed::from_raw(2);
    assert_eq!((a + b).raw(), 42);
    assert_eq!((a - b).raw(), 38);
    assert_eq!((-a).raw(), -40);
    assert_eq!((a * -3).raw(), -120);
    assert_eq!(Fixed::default(), Fixed::zero());
    assert!(b < a);
}

#[test]
fn origin_is_the_default_position() {
    assert_eq!(GalacticCoord::default(), GalacticCoord::origin());
    assert_eq!(GalacticCoord::origin(), GalacticCoord::from_meters_i128(0, 0, 0));
    assert_eq!(
        GalacticCoord::from_meters_f64(vector(1.6, -2.4, 0.0)),
        GalacticCoord::from_meters_i128(2, -2, 0)
    );
}

#[test]
fn distances_are_symmetric_and_zero_at_home() {
    let a = GalacticCoord::from_meters_i128(3, 4, 0);
    let b = GalacticCoord::origin();
    assert_eq!(f(a.distance_sq_meters(b)), 25.0);
    assert_eq!(f(a.distance_meters(b)), 5.0);
    assert_eq!(a.distance_meters(b), b.distance_meters(a));
    assert_eq!(f(a.distance_meters(a)), 0.0);
}

#[test]
fn debug_text_shows_meters() {
    assert_eq!(Fixed::from_raw(42).debug_text(), "Fixed(42 m)");
    assert_eq!(Fixed::from_raw(0).debug_text(), "Fixed(0 m)");
    assert_eq!(Fixed::from_raw(-1234567890).debug_text(), "Fixed(-1234567890 m)");
    assert_eq!(
        Fixed::from_raw(i128::MIN).debug_text(),
        "Fixed(-170141183460469231731687303715884105728 m)"
    );
}

#[test]
fn distances_tell_positions_apart() {
    let far = i128::MAX / 2;
    let places = [
        GalacticCoord::origin(),
        GalacticCoord::from_meters_i128(1, 0, 0),
        GalacticCoord::from_meters_i128(0, -1, 0),
        GalacticCoord::from_meters_i128(far, far, far),
        GalacticCoord::from_meters_i128(far, far, far - 1),
        GalacticCoord::from_meters_i128(-far, -far, -far),
    ];
    for (i, a) in places.iter().enumerate() {
        for (j, b) in places.iter().enumerate() {
            let d = f(a.distance_meters(*b));
            assert!(d.is_finite());
            assert_eq!(d == 0.0, i == j);
            assert!(i == j || d >= 1.0);
        }
    }
    assert_eq!(f(places[0].distance_meters(places[1])), 1.0);
    assert_eq!(f(places[3].distance_meters(places[4])), 1.0);
}
