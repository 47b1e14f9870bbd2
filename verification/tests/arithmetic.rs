use galaxy::ieee::{Double, Single};

/// Encodings that reach every branch: zeros, subnormals, ones, extremes, infinities and NaN,
/// then a spread of others.
fn samples() -> Vec<u64> {
    let mut out: Vec<u64> = Vec::new();
    for m in [
        0u64,
        1,
        2,
        3,
        0x000f_ffff_ffff_ffff,
        0x0010_0000_0000_0000,
        0x0010_0000_0000_0001,
        0x3fef_ffff_ffff_ffff,
        0x3ff0_0000_0000_0000,
        0x3ff0_0000_0000_0001,
        0x4000_0000_0000_0000,
        0x4340_0000_0000_0000,
        0x4340_0000_0000_0001,
        0x7fef_ffff_ffff_ffff,
        0x7ff0_0000_0000_0000,
        0x7ff8_0000_0000_0000,
    ] {
        out.push(m);
        out.push(m | 0x8000_0000_0000_0000);
    }
    let mut state: u64 = 0x1234_5678_9abc_def1;
    for i in 0..120u64 {
        state ^= state << 13;
        state ^= state >> 7;
        state ^= state << 17;
        // Half of them near one, so that sums cancel and products stay in range.
        if i % 2 == 0 {
            out.push((state & 0x800f_ffff_ffff_ffff) | ((1000 + state % 48) << 52));
        } else {
            out.push(state);
        }
    }
    out
}

fn same(ours: Double, theirs: f64, what: &str) {
    if theirs.is_nan() {
        assert!(ours.is_nan(), "{what}: expected NaN, got {:#x}", ours.to_bits());
    } else {
        assert_eq!(ours.to_bits(), theirs.to_bits(), "{what}");
    }
}

#[test]
fn sums_products_and_quotients_are_correctly_rounded() {
    let all = samples();
    for &a in &all {
        for &b in &all {
            let (x, y) = (f64::from_bits(a), f64::from_bits(b));
            let (p, q) = (Double::from_bits(a), Double::from_bits(b));
            same(p.plus(q), x + y, "sum");
            same(p.minus(q), x - y, "difference");
            same(p.times(q), x * y, "product");
            same(p.over(q), x / y, "quotient");
            assert_eq!(p.lt(q), x < y);
            assert_eq!(p.precedes(q), x.total_cmp(&y) == std::cmp::Ordering::Less);
        }
    }
}

#[test]
fn roots_are_correctly_rounded() {
    for a in samples() {
        same(Double::from_bits(a).sqrt(), f64::from_bits(a).sqrt(), "root");
    }
}

/// Encodings of the narrow format, chosen in the same way.
fn narrow_samples() -> Vec<u32> {
    let mut out: Vec<u32> = Vec::new();
    for m in [
        0u32,
        1,
        2,
        0x007f_ffff,
        0x0080_0000,
        0x0080_0001,
        0x3f7f_ffff,
        0x3f80_0000,
        0x3f80_0001,
        0x4b00_0000,
        0x4b7f_ffff,
        0x4b80_0000,
        0x5f00_0000,
        0x7f7f_ffff,
        0x7f80_0000,
        0x7fc0_0000,
    ] {
        out.push(m);
        out.push(m | 0x8000_0000);
    }
    let mut state: u32 = 0x9abc_def1;
    for i in 0..120u32 {
        state ^= state << 13;
        state ^= state >> 17;
        state ^= state << 5;
        if i % 2 == 0 {
            out.push((state & 0x807f_ffff) | ((112 + state % 32) << 23));
        } else {
            out.push(state);
        }
    }
    out
}

fn same_narrow(ours: Single, theirs: f32, what: &str) {
    if theirs.is_nan() {
        assert!(ours.is_nan(), "{what}: expected NaN, got {:#x}", ours.to_bits());
    } else {
        assert_eq!(ours.to_bits(), theirs.to_bits(), "{what}");
    }
}

#[test]
fn narrow_arithmetic_is_correctly_rounded() {
    let all = narrow_samples();
    for &a in &all {
        for &b in &all {
            let (x, y) = (f32::from_bits(a), f32::from_bits(b));
            let (p, q) = (Single::from_bits(a), Single::from_bits(b));
            same_narrow(p.plus(q), x + y, "sum");
            same_narrow(p.minus(q), x - y, "difference");
            same_narrow(p.times(q), x * y, "product");
            same_narrow(p.over(q), x / y, "quotient");
            assert_eq!(p.lt(q), x < y);
            assert_eq!(p.le(q), x <= y);
            assert_eq!(p.gt(q), x > y);
            assert_eq!(p.eq_number(q), x == y);
            if x != y {
                same_narrow(p.max(q), x.max(y), "larger");
                same_narrow(p.min(q), x.min(y), "smaller");
            }
        }
    }
}

#[test]
fn wide_comparisons_are_those_of_the_language() {
    let all = samples();
    for &a in &all {
        for &b in &all {
            let (x, y) = (f64::from_bits(a), f64::from_bits(b));
            let (p, q) = (Double::from_bits(a), Double::from_bits(b));
            assert_eq!(p.lt(q), x < y);
            assert_eq!(p.le(q), x <= y);
            assert_eq!(p.gt(q), x > y);
            assert_eq!(p.eq_number(q), x == y);
            assert_eq!(p.precedes(q), x.total_cmp(&y) == std::cmp::Ordering::Less);
            if x != y {
                same(p.max(q), x.max(y), "larger");
                same(p.min(q), x.min(y), "smaller");
            }
        }
    }
}

#[test]
fn formats_convert_to_each_other() {
    for a in samples() {
        let x = f64::from_bits(a);
        let p = Double::from_bits(a);
        same_narrow(p.to_single(), x as f32, "narrowed");
        assert_eq!(p.floor_to_i64(), x.floor() as i64, "whole part of {x}");
        assert_eq!(p.round_to_i128(), x.round() as i128, "nearest to {x}");
        same(p.negated(), -x, "opposite");
        same(p.abs(), x.abs(), "magnitude");
        assert_eq!(p.is_finite(), x.is_finite());
    }
    for a in narrow_samples() {
        let x = f32::from_bits(a);
        let p = Single::from_bits(a);
        same(p.to_double(), x as f64, "widened");
        same_narrow(p.floor(), x.floor(), "floor");
        assert_eq!(p.floor_to_i64(), x.floor() as i64, "whole part of {x}");
        same_narrow(p.negated(), -x, "opposite");
        same_narrow(p.abs(), x.abs(), "magnitude");
        assert_eq!(p.is_finite(), x.is_finite());
    }
    for n in [0i64, 1, -1, 255, 16_777_217, -16_777_219, i64::MAX, i64::MIN] {
        same_narrow(Single::from_i64(n), n as f32, "whole number");
    }
    for n in [0u64, 1, 1 << 53, (1 << 53) + 1, u64::MAX] {
        same(Double::from_u64(n), n as f64, "whole number");
    }
}

#[test]
fn clamping_keeps_not_a_number() {
    let (low, high) = (Single::from_bits(0f32.to_bits()), Single::from_bits(1f32.to_bits()));
    for (x, expected) in [(-3.0f32, 0.0), (0.25, 0.25), (7.0, 1.0)] {
        same_narrow(Single::from_bits(x.to_bits()).clamp(low, high), expected, "clamped");
    }
    assert!(Single::from_bits(0x7fc0_0000).clamp(low, high).is_nan());
    let (low, high) = (Double::from_bits(0f64.to_bits()), Double::from_bits(1f64.to_bits()));
    assert!(Double::from_bits(0x7ff8_0000_0000_0000).clamp(low, high).is_nan());
}
