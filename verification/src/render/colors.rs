//! Colors of the octree overlay.
use vstd::prelude::*;

use crate::ieee::convert::{saturated, single_of_int};
use crate::ieee::Single;

verus! {

/// The part of a color wheel, of six, that a hue lies in.
pub open spec fn sextant(h: Single) -> int {
    let i = h.product(Single { bits: 0x40c0_0000 /* 6.0 */ }).floored();
    if i.nan() {
        0
    } else {
        saturated(i.floor_int(), i64::MIN as int, i64::MAX as int) % 6
    }
}

/// The red, green and blue of a hue, saturation and value.
pub open spec fn rgb_of(h: Single, s: Single, v: Single) -> (Single, Single, Single) {
    let one = Single { bits: 0x3f80_0000 /* 1.0 */ };
    let h6 = h.product(Single { bits: 0x40c0_0000 /* 6.0 */ });
    let f = h6.difference(h6.floored());
    let p = v.product(one.difference(s));
    let q = v.product(one.difference(f.product(s)));
    let t = v.product(one.difference(one.difference(f).product(s)));
    let i = sextant(h);
    if i == 0 {
        (v, t, p)
    } else if i == 1 {
        (q, v, p)
    } else if i == 2 {
        (p, v, t)
    } else if i == 3 {
        (p, q, v)
    } else if i == 4 {
        (t, p, v)
    } else {
        (v, p, q)
    }
}

/// The hue of a depth: as many golden-ratio steps around the color wheel.
pub open spec fn depth_hue(depth: u8) -> Single {
    let turns = single_of_int(depth as int).product(Single { bits: 0x3f1e_377a /* 0.618034 */ });
    turns.difference(turns.floored())
}

/// The color of a depth.
pub open spec fn color_at(depth: u8) -> [Single; 4] {
    let (r, g, b) = rgb_of(depth_hue(depth), Single { bits: 0x3f26_6666 /* 0.65 */ }, Single { bits: 0x3f80_0000 /* 1.0 */ });
    [r, g, b, Single { bits: 0x3f0c_cccd /* 0.55 */ }]
}

/// Minimal HSV to RGB conversion (`h`, `s`, `v` in `[0, 1]`).
pub fn hsv_to_rgb(h: Single, s: Single, v: Single) -> (r: (Single, Single, Single))
    ensures
        r == rgb_of(h, s, v),
{
    let one: Single = Single { bits: 0x3f80_0000 /* 1.0 */ };
    let h6: Single = h.times(Single { bits: 0x40c0_0000 /* 6.0 */ });
    let i: Single = h6.floor();
    let f: Single = h6.minus(i);
    let p: Single = v.times(one.minus(s));
    let q: Single = v.times(one.minus(f.times(s)));
    let t: Single = v.times(one.minus(one.minus(f).times(s)));
    // The remainder of a number that may be negative: the smallest one is two more than a
    // multiple of six.
    let shifted: u128 = (i.floor_to_i64() as i128 + 0x8000_0000_0000_0000) as u128;
    let part: u128 = (shifted + 4) % 6;
    if part == 0 {
        (v, t, p)
    } else if part == 1 {
        (q, v, p)
    } else if part == 2 {
        (p, v, t)
    } else if part == 3 {
        (p, q, v)
    } else if part == 4 {
        (t, p, v)
    } else {
        (v, p, q)
    }
}

/// Deterministic, well-separated color per octree depth level.
///
/// Uses a golden-angle hue rotation so colors stay visually distinct however many depth levels
/// are actually visited, without a fixed-size palette.
pub fn depth_color(depth: u8) -> (r: [Single; 4])
    ensures
        r == color_at(depth),
{
    let turns: Single = Single::from_i64(depth as i64).times(Single { bits: 0x3f1e_377a /* 0.618034 */ });
    let hue: Single = turns.minus(turns.floor());
    let (r, g, b): (Single, Single, Single) = hsv_to_rgb(hue, Single { bits: 0x3f26_6666 /* 0.65 */ }, Single { bits: 0x3f80_0000 /* 1.0 */ });
    [r, g, b, Single { bits: 0x3f0c_cccd /* 0.55 */ }]
}

} // verus!
