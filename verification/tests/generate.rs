use galaxy::coord::{Fixed, GalacticCoord, METERS_PER_LIGHT_YEAR};
use galaxy::generate::generate_stars;
use galaxy::ieee::{Double, Single};
use galaxy::maths::Elementary;
use galaxy::node::NodeKey;
use galaxy::params::{luminosity_log, luminosity_weight, GalaxyParams, Star};
use galaxy::seed::node_seed;
use rand::Rng;
use rand_chacha::rand_core::SeedableRng;
use rand_chacha::ChaCha8Rng;

fn d(x: f64) -> Double {
    Double::from_bits(x.to_bits())
}

fn s(x: f32) -> Single {
    Single::from_bits(x.to_bits())
}

fn f(x: Double) -> f64 {
    f64::from_bits(x.to_bits())
}

fn fs(x: Single) -> f32 {
    f32::from_bits(x.to_bits())
}

fn maths(function: Elementary, x: Double, y: Double) -> Double {
    let (a, b) = (f(x), f(y));
    d(match function {
        Elementary::Exp => a.exp(),
        Elementary::Ln => a.ln(),
        Elementary::Log10 => a.log10(),
        Elementary::Sin => a.sin(),
        Elementary::Cos => a.cos(),
        Elementary::Tan => a.tan(),
        Elementary::Pow => a.powf(b),
        Elementary::PowSingle => (a as f32).powf(b as f32) as f64,
    })
}

fn params() -> GalaxyParams {
    GalaxyParams {
        root_seed: 12345,
        universe_size_m: d(1.0e18),
        total_stars: d(1.0e13),
        max_depth: 10,
    }
}

#[test]
fn generation_is_deterministic() {
    let p = params();
    let key = NodeKey::new(3, 2, 5, 1);
    let a = generate_stars(&maths, &p, key);
    let b = generate_stars(&maths, &p, key);
    assert_eq!(a, b);
    assert!(!a.is_empty(), "expected some stars in a mid-depth node");
}

#[test]
fn different_nodes_differ() {
    let p = params();
    let a = generate_stars(&maths, &p, NodeKey::new(3, 2, 5, 1));
    let b = generate_stars(&maths, &p, NodeKey::new(3, 2, 5, 2));
    assert_ne!(a, b);
}

/// Every star of the node lies in the band that its depth owns.
fn check_band(depth: u8, i: u64) {
    let p = params();
    let (lo, hi) = p.mag_band(depth);
    let stars = generate_stars(&maths, &p, NodeKey::new(depth, i, i, i));
    for s in &stars {
        assert!(
            fs(s.abs_mag) > fs(lo) && fs(s.abs_mag) <= fs(hi),
            "depth {depth}: mag {} outside band ({}, {}]",
            fs(s.abs_mag),
            fs(lo),
            fs(hi)
        );
    }
}

// A handful of nodes at each depth. The nodes hold millions of stars, so the depths are spread
// over several tests.

#[test]
fn stars_respect_their_depth_magnitude_band() {
    for depth in 0..2u8 {
        for i in 0..4u64 {
            check_band(depth, i);
        }
    }
}

#[test]
fn stars_respect_the_band_of_depth_2_in_nodes_0_to_1() {
    for i in 0u64..2 {
        check_band(2, i);
    }
}

#[test]
fn stars_respect_the_band_of_depth_2_in_nodes_2_to_3() {
    for i in 2u64..4 {
        check_band(2, i);
    }
}

#[test]
fn stars_respect_the_band_of_depth_3_in_nodes_0_to_1() {
    for i in 0u64..2 {
        check_band(3, i);
    }
}

#[test]
fn stars_respect_the_band_of_depth_3_in_nodes_2_to_3() {
    for i in 2u64..4 {
        check_band(3, i);
    }
}

#[test]
fn stars_respect_the_band_of_depth_4_in_nodes_0_to_1() {
    for i in 0u64..2 {
        check_band(4, i);
    }
}

#[test]
fn stars_respect_the_band_of_depth_4_in_nodes_2_to_3() {
    for i in 2u64..4 {
        check_band(4, i);
    }
}

#[test]
fn stars_respect_the_band_of_depth_5_in_nodes_0_to_1() {
    for i in 0u64..2 {
        check_band(5, i);
    }
}

#[test]
fn stars_respect_the_band_of_depth_5_in_nodes_2_to_3() {
    for i in 2u64..4 {
        check_band(5, i);
    }
}

#[test]
fn stars_respect_the_band_of_depth_6_in_nodes_0_to_1() {
    for i in 0u64..2 {
        check_band(6, i);
    }
}

#[test]
fn stars_respect_the_band_of_depth_6_in_nodes_2_to_3() {
    for i in 2u64..4 {
        check_band(6, i);
    }
}

#[test]
fn stars_respect_the_band_of_depth_7_in_nodes_0_to_3() {
    for i in 0u64..4 {
        check_band(7, i);
    }
}

#[test]
fn stars_lie_inside_node_cube() {
    let p = params();
    let key = NodeKey::new(4, 3, 7, 2);
    let node_size = f(p.node_size_m(key.depth));
    let half = f(p.universe_size_m) * 0.5;
    let min = [
        key.ix as f64 * node_size - half,
        key.iy as f64 * node_size - half,
        key.iz as f64 * node_size - half,
    ];
    let max = [min[0] + node_size, min[1] + node_size, min[2] + node_size];
    for s in generate_stars(&maths, &p, key) {
        let x = f(s.pos.x.to_meters_f64());
        let y = f(s.pos.y.to_meters_f64());
        let z = f(s.pos.z.to_meters_f64());
        assert!(x >= min[0] - 1.0 && x <= max[0] + 1.0);
        assert!(y >= min[1] - 1.0 && y <= max[1] + 1.0);
        assert!(z >= min[2] - 1.0 && z <= max[2] + 1.0);
    }
}


const TABLE: [(f32, f64); 29] = [
    (-10.5, -11.00),
    (-9.5, -9.80),
    (-8.5, -8.70),
    (-7.5, -7.60),
    (-6.5, -6.60),
    (-5.5, -5.70),
    (-4.5, -4.90),
    (-3.5, -4.20),
    (-2.5, -3.70),
    (-1.5, -3.30),
    (-0.5, -3.00),
    (0.5, -2.80),
    (1.5, -2.60),
    (2.5, -2.45),
    (3.5, -2.35),
    (4.5, -2.30),
    (5.5, -2.30),
    (6.5, -2.25),
    (7.5, -2.20),
    (8.5, -2.15),
    (9.5, -2.05),
    (10.5, -1.95),
    (11.5, -1.90),
    (12.5, -1.95),
    (13.5, -2.05),
    (14.5, -2.20),
    (15.5, -2.45),
    (16.5, -2.80),
    (18.0, -3.50),
];

// The same computations in the platform's own floating point.

fn plain_weight(mag: f32) -> f64 {
    let (first, last) = (TABLE[0], TABLE[28]);
    if mag <= first.0 {
        return 10f64.powf(first.1);
    }
    if mag >= last.0 {
        return 10f64.powf(last.1);
    }
    for seg in TABLE.windows(2) {
        let ((m0, l0), (m1, l1)) = (seg[0], seg[1]);
        if mag >= m0 && mag <= m1 {
            let t = ((mag - m0) / (m1 - m0)) as f64;
            return 10f64.powf(l0 + (l1 - l0) * t);
        }
    }
    0.0
}

fn plain_limit(depth: u8) -> f32 {
    -9.0 + depth as f32 * 1.05
}

fn plain_mid(depth: u8) -> f32 {
    if depth == 0 {
        -10.5
    } else {
        (plain_limit(depth - 1) + plain_limit(depth)) * 0.5
    }
}

fn plain_expected(total_stars: f64, max_depth: u8, depth: u8) -> f64 {
    let d = depth.min(max_depth);
    let total: f64 = (0..=max_depth).map(|k| plain_weight(plain_mid(k))).sum();
    total_stars * (plain_weight(plain_mid(d)) / total) / 8.0f64.powi(d as i32)
}

fn plain_count(rng: &mut ChaCha8Rng, lambda: f64) -> usize {
    if lambda <= 0.0 {
        return 0;
    }
    if lambda < 30.0 {
        let l = (-lambda).exp();
        let mut k = 0usize;
        let mut p = 1.0;
        loop {
            k += 1;
            p *= rng.random::<f64>();
            if p <= l {
                return k - 1;
            }
        }
    }
    let u1: f64 = rng.random::<f64>().max(1e-12);
    let u2: f64 = rng.random::<f64>();
    let z = (-2.0 * u1.ln()).sqrt() * (std::f64::consts::TAU * u2).cos();
    (lambda + z * lambda.sqrt()).round().max(0.0) as usize
}

fn plain_color(temp_k: f32) -> [f32; 3] {
    let t = (temp_k / 100.0) as f64;
    let (r, g) = if t <= 66.0 {
        (1.0, (0.39008157 * t.ln() - 0.63184144).clamp(0.0, 1.0))
    } else {
        (
            (1.292936 * (t - 60.0).powf(-0.1332047)).clamp(0.0, 1.0),
            (1.129890 * (t - 60.0).powf(-0.0755148)).clamp(0.0, 1.0),
        )
    };
    let b = if t >= 66.0 {
        1.0
    } else if t <= 19.0 {
        0.0
    } else {
        (0.5432067 * (t - 10.0).ln() - 1.196254).clamp(0.0, 1.0)
    };
    [r as f32, g as f32, b as f32]
}

fn plain_radius(abs_mag: f32, temp_k: f32) -> f32 {
    let l_rel = 10f64.powf((4.83 - abs_mag as f64) / 2.5).clamp(1e-4, 1e8);
    let t = temp_k as f64;
    let area = 4.0 * std::f64::consts::PI * 5.670_374_419e-8 * ((t * t) * (t * t));
    (l_rel * 3.828e26 / area).sqrt() as f32
}

fn plain_stars(p: &GalaxyParams, key: NodeKey) -> Vec<Star> {
    let mut rng = ChaCha8Rng::seed_from_u64(node_seed(p.root_seed, key));
    let universe = f(p.universe_size_m);
    let size = universe / (1u64 << key.depth) as f64;
    let half = universe * 0.5;
    let origin = [
        key.ix as f64 * size - half,
        key.iy as f64 * size - half,
        key.iz as f64 * size - half,
    ];
    let count = plain_count(&mut rng, plain_expected(f(p.total_stars), p.max_depth, key.depth));
    let hi = plain_limit(key.depth);
    let lo = if key.depth == 0 { -12.0 } else { plain_limit(key.depth - 1) };
    let mut stars = Vec::new();
    for _ in 0..count {
        let u: f32 = rng.random::<f32>();
        let mut abs_mag = lo + (hi - lo) * u.powf(1.6);
        if abs_mag <= lo {
            abs_mag = lo + (hi - lo) * 1.0e-4;
        }
        let x = origin[0] + rng.random::<f64>() * size;
        let y = origin[1] + rng.random::<f64>() * size;
        let z = origin[2] + rng.random::<f64>() * size;
        let temp_k = (2500.0 + 27_500.0 * rng.random::<f64>().powf(2.2)) as f32;
        stars.push(Star {
            pos: GalacticCoord::new(
                Fixed::from_raw(x.round() as i128),
                Fixed::from_raw(y.round() as i128),
                Fixed::from_raw(z.round() as i128),
            ),
            abs_mag: Single::from_bits(abs_mag.to_bits()),
            color: plain_color(temp_k).map(|c| Single::from_bits(c.to_bits())),
            radius: Single::from_bits(plain_radius(abs_mag, temp_k).to_bits()),
        });
    }
    stars
}

#[test]
fn stars_agree_with_plain_floating_point() {
    let p = GalaxyParams {
        root_seed: 99,
        universe_size_m: d(1.0e18),
        total_stars: d(2.0e10),
        max_depth: 14,
    };
    let mut seen = 0;
    // Few stars and many, so that both ways of drawing the count are met.
    for (depth, n) in [(0u8, 1u64), (1, 2), (3, 3), (6, 3), (8, 4), (9, 8), (10, 20), (14, 5)] {
        for i in 0..n {
            let key = NodeKey::new(depth, i % (1 << depth), 0, (i * 7) % (1 << depth));
            let ours = generate_stars(&maths, &p, key);
            assert_eq!(ours, plain_stars(&p, key), "{key:?}");
            seen += ours.len();
        }
    }
    assert!(seen > 1000);
}

#[test]
fn bands_and_weights_agree_with_plain_floating_point() {
    let p = params();
    for depth in 0..=40u8 {
        assert_eq!(fs(p.mag_limit(depth)), plain_limit(depth));
        assert_eq!(fs(p.band_mid(depth)), plain_mid(depth));
        assert_eq!(f(luminosity_weight(&maths, p.band_mid(depth))), plain_weight(plain_mid(depth)));
        assert_eq!(f(p.expected_stars(&maths, depth)), plain_expected(1.0e13, 10, depth));
    }
    assert_eq!(f(luminosity_weight(&maths, Single::from_bits(0x7fc0_0000))), 0.0);
    assert_eq!(p.mag_band(0).0, Single::from_bits(f32::NEG_INFINITY.to_bits()));
    assert_eq!(p.mag_band(3), (p.mag_limit(2), p.mag_limit(3)));
}

#[test]
fn band_shares_add_up_to_one() {
    let p = params();
    let sum: f64 = (0..=10u8).map(|depth| f(p.band_weight(&maths, depth))).sum();
    assert!((sum - 1.0).abs() < 1e-12);
}

#[test]
fn no_stars_are_expected_of_an_empty_galaxy() {
    let p = GalaxyParams { total_stars: d(0.0), ..params() };
    assert_eq!(f(p.expected_stars(&maths, 3)), 0.0);
    assert!(generate_stars(&maths, &p, NodeKey::new(3, 1, 1, 1)).is_empty());
}

#[test]
fn default_galaxy_is_a_power_of_two_of_light_years() {
    let p = GalaxyParams::default();
    assert_eq!(p.root_seed, 0x5347_414C_4158_5921);
    assert_eq!(f(p.total_stars), 2.0e11);
    assert_eq!(p.max_depth, 24);
    let ly = f64::from_bits(METERS_PER_LIGHT_YEAR);
    assert_eq!(f(p.universe_size_m), 131_072.0 * ly);
    assert_eq!(f(p.node_size_m(17)), ly);
}

#[test]
fn density_peaks_at_the_most_common_stars() {
    assert_eq!(luminosity_log(s(11.5)).map(f), Some(-1.9));
    let top = f(luminosity_weight(&maths, s(11.5)));
    let mut mag = -15.0f32;
    while mag < 25.0 {
        let log = f(luminosity_log(s(mag)).unwrap());
        assert!((-11.0..=-1.9).contains(&log), "magnitude {mag}");
        let weight = f(luminosity_weight(&maths, s(mag)));
        assert!(weight > 0.0 && weight <= top, "magnitude {mag}");
        mag += 0.03;
    }
}

#[test]
fn density_is_constant_beyond_the_table() {
    for mag in [-10.5f32, -11.0, -1.0e30, f32::NEG_INFINITY] {
        assert_eq!(luminosity_log(s(mag)).map(f), Some(-11.0));
    }
    for mag in [18.0f32, 18.5, 1.0e30, f32::INFINITY] {
        assert_eq!(luminosity_log(s(mag)).map(f), Some(-3.5));
    }
}

#[test]
fn nodes_hold_all_the_stars() {
    for max_depth in [0u8, 1, 12, 40] {
        let p = GalaxyParams {
            root_seed: 5,
            universe_size_m: d(1.0e18),
            total_stars: d(2.0e11),
            max_depth,
        };
        let mut shares = 0.0;
        let mut stars = 0.0;
        for depth in 0..=max_depth {
            let share = f(p.band_weight(&maths, depth));
            assert!(share > 0.0 && share <= 1.0);
            shares += share;
            stars += f(p.expected_stars(&maths, depth)) * 8f64.powi(depth as i32);
        }
        assert!((shares - 1.0).abs() < 1e-9, "max depth {max_depth}");
        assert!((stars / 2.0e11 - 1.0).abs() < 1e-9, "max depth {max_depth}");
        let deepest = p.expected_stars(&maths, max_depth);
        assert_eq!(p.expected_stars(&maths, max_depth + 1), deepest);
        assert_eq!(p.expected_stars(&maths, 255), deepest);
    }
}

#[test]
fn stars_compare_by_their_numbers() {
    let star = generate_stars(&maths, &params(), NodeKey::new(3, 2, 5, 1))[0];
    assert!(star == star);
    // Zero has two encodings.
    let (plus, minus) = (Star { abs_mag: s(0.0), ..star }, Star { abs_mag: s(-0.0), ..star });
    assert!(plus == minus);
    assert!(plus.abs_mag.to_bits() != minus.abs_mag.to_bits());
    assert!(plus != Star { abs_mag: s(1.0), ..star });
    // What is not a number is not equal to itself.
    let broken = Star { radius: s(f32::NAN), ..star };
    assert!(broken != broken);
}
