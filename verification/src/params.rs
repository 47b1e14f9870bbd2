//! Shape of the generated galaxy: its size, its magnitude bands and how many stars they hold.
use vstd::arithmetic::power2::*;
use vstd::prelude::*;

use crate::coord::{GalacticCoord, METERS_PER_LIGHT_YEAR};
use crate::ieee::convert::{double_of_int, single_of_int};
use crate::ieee::power::power_of_two;
use crate::ieee::{Double, Single};
use crate::maths::{evaluate, reliable, value_of, Elementary};
use crate::node::NodeKey;
use crate::vector::Vector;

verus! {

/// 0.0
pub const ZERO: u64 = 0x0000_0000_0000_0000;

/// 0.5
pub const HALF: u64 = 0x3fe0_0000_0000_0000;

/// 1.0
pub const ONE: u64 = 0x3ff0_0000_0000_0000;

/// 10.0
pub const TEN: u64 = 0x4024_0000_0000_0000;

/// -9.0: the faintest absolute magnitude at the root, in `binary32`.
pub const ROOT_MAGNITUDE: u32 = 0xc110_0000;

/// 1.05: the magnitudes that each level adds, in `binary32`.
pub const MAGNITUDE_STEP: u32 = 0x3f86_6666;

/// -10.5: the magnitude that stands for the root's band, in `binary32`.
pub const ROOT_BAND_MID: u32 = 0xc128_0000;

/// 0.5 in `binary32`.
pub const HALF_SINGLE: u32 = 0x3f00_0000;

/// Minus infinity in `binary32`.
pub const MINUS_INFINITY_SINGLE: u32 = 0xff80_0000;

/// A generated star (a point light with color and intrinsic brightness).
#[derive(Clone, Copy, Debug)]
pub struct Star {
    /// Absolute galactic position.
    pub pos: GalacticCoord,
    /// Absolute magnitude (smaller = intrinsically brighter).
    pub abs_mag: Single,
    /// Linear RGB color derived from spectral class.
    pub color: [Single; 3],
    /// Display radius hint in meters (stellar radius, coarse).
    pub radius: Single,
}

impl vstd::std_specs::cmp::PartialEqSpecImpl for Star {
    open spec fn obeys_eq_spec() -> bool {
        true
    }

    open spec fn eq_spec(&self, other: &Star) -> bool {
        &&& self.pos == other.pos
        &&& self.abs_mag.equals(other.abs_mag)
        &&& self.color@[0].equals(other.color@[0])
        &&& self.color@[1].equals(other.color@[1])
        &&& self.color@[2].equals(other.color@[2])
        &&& self.radius.equals(other.radius)
    }
}

/// Stars are equal where their numbers are: NaN equals nothing, and the two zeros are equal.
impl PartialEq for Star {
    fn eq(&self, other: &Star) -> (r: bool) {
        self.pos == other.pos && self.abs_mag.eq_number(other.abs_mag)
            && self.color[0].eq_number(other.color[0]) && self.color[1].eq_number(other.color[1])
            && self.color[2].eq_number(other.color[2]) && self.radius.eq_number(other.radius)
    }
}

/// Parameters controlling the shape of the generated galaxy.
#[derive(Clone, Copy, Debug)]
pub struct GalaxyParams {
    /// Root random seed.
    pub root_seed: u64,
    /// Edge length of the whole modeled cube, in meters (root node span).
    ///
    /// The default is 131072 light years, a power of two, so that every node edge is a power of
    /// two of light years.
    pub universe_size_m: Double,
    /// Total number of stars the galaxy would contain if fully resolved to `max_depth`.
    pub total_stars: Double,
    /// Deepest octree level whose (faintest) magnitude band is populated.
    pub max_depth: u8,
}

/// Field luminosity function: for an absolute magnitude, the decimal logarithm of the relative
/// density of such stars.
///
/// The shape approximates the solar neighborhood: a steep falloff for luminous giants, a slow
/// rise through the main sequence, a red-dwarf peak near magnitude 11.5, then a decline into
/// the faintest dwarfs.
pub open spec fn luminosity_table() -> Seq<(Single, Double)> {
    seq![
        // -10.5: -11.0
        (Single { bits: 0xc128_0000 }, Double { bits: 0xc026_0000_0000_0000 }),
        // -9.5: -9.8
        (Single { bits: 0xc118_0000 }, Double { bits: 0xc023_9999_9999_999a }),
        // -8.5: -8.7
        (Single { bits: 0xc108_0000 }, Double { bits: 0xc021_6666_6666_6666 }),
        // -7.5: -7.6
        (Single { bits: 0xc0f0_0000 }, Double { bits: 0xc01e_6666_6666_6666 }),
        // -6.5: -6.6
        (Single { bits: 0xc0d0_0000 }, Double { bits: 0xc01a_6666_6666_6666 }),
        // -5.5: -5.7
        (Single { bits: 0xc0b0_0000 }, Double { bits: 0xc016_cccc_cccc_cccd }),
        // -4.5: -4.9
        (Single { bits: 0xc090_0000 }, Double { bits: 0xc013_9999_9999_999a }),
        // -3.5: -4.2
        (Single { bits: 0xc060_0000 }, Double { bits: 0xc010_cccc_cccc_cccd }),
        // -2.5: -3.7
        (Single { bits: 0xc020_0000 }, Double { bits: 0xc00d_9999_9999_999a }),
        // -1.5: -3.3
        (Single { bits: 0xbfc0_0000 }, Double { bits: 0xc00a_6666_6666_6666 }),
        // -0.5: -3.0
        (Single { bits: 0xbf00_0000 }, Double { bits: 0xc008_0000_0000_0000 }),
        // 0.5: -2.8
        (Single { bits: 0x3f00_0000 }, Double { bits: 0xc006_6666_6666_6666 }),
        // 1.5: -2.6
        (Single { bits: 0x3fc0_0000 }, Double { bits: 0xc004_cccc_cccc_cccd }),
        // 2.5: -2.45
        (Single { bits: 0x4020_0000 }, Double { bits: 0xc003_9999_9999_999a }),
        // 3.5: -2.35
        (Single { bits: 0x4060_0000 }, Double { bits: 0xc002_cccc_cccc_cccd }),
        // 4.5: -2.3
        (Single { bits: 0x4090_0000 }, Double { bits: 0xc002_6666_6666_6666 }),
        // 5.5: -2.3
        (Single { bits: 0x40b0_0000 }, Double { bits: 0xc002_6666_6666_6666 }),
        // 6.5: -2.25
        (Single { bits: 0x40d0_0000 }, Double { bits: 0xc002_0000_0000_0000 }),
        // 7.5: -2.2
        (Single { bits: 0x40f0_0000 }, Double { bits: 0xc001_9999_9999_999a }),
        // 8.5: -2.15
        (Single { bits: 0x4108_0000 }, Double { bits: 0xc001_3333_3333_3333 }),
        // 9.5: -2.05
        (Single { bits: 0x4118_0000 }, Double { bits: 0xc000_6666_6666_6666 }),
        // 10.5: -1.95
        (Single { bits: 0x4128_0000 }, Double { bits: 0xbfff_3333_3333_3333 }),
        // 11.5: -1.9
        (Single { bits: 0x4138_0000 }, Double { bits: 0xbffe_6666_6666_6666 }),
        // 12.5: -1.95
        (Single { bits: 0x4148_0000 }, Double { bits: 0xbfff_3333_3333_3333 }),
        // 13.5: -2.05
        (Single { bits: 0x4158_0000 }, Double { bits: 0xc000_6666_6666_6666 }),
        // 14.5: -2.2
        (Single { bits: 0x4168_0000 }, Double { bits: 0xc001_9999_9999_999a }),
        // 15.5: -2.45
        (Single { bits: 0x4178_0000 }, Double { bits: 0xc003_9999_9999_999a }),
        // 16.5: -2.8
        (Single { bits: 0x4184_0000 }, Double { bits: 0xc006_6666_6666_6666 }),
        // 18.0: -3.5
        (Single { bits: 0x4190_0000 }, Double { bits: 0xc00c_0000_0000_0000 }),
    ]
}

fn luminosity_entries() -> (r: [(Single, Double); 29])
    ensures
        r@ == luminosity_table(),
{
    [
        // -10.5: -11.0
        (Single { bits: 0xc128_0000 }, Double { bits: 0xc026_0000_0000_0000 }),
        // -9.5: -9.8
        (Single { bits: 0xc118_0000 }, Double { bits: 0xc023_9999_9999_999a }),
        // -8.5: -8.7
        (Single { bits: 0xc108_0000 }, Double { bits: 0xc021_6666_6666_6666 }),
        // -7.5: -7.6
        (Single { bits: 0xc0f0_0000 }, Double { bits: 0xc01e_6666_6666_6666 }),
        // -6.5: -6.6
        (Single { bits: 0xc0d0_0000 }, Double { bits: 0xc01a_6666_6666_6666 }),
        // -5.5: -5.7
        (Single { bits: 0xc0b0_0000 }, Double { bits: 0xc016_cccc_cccc_cccd }),
        // -4.5: -4.9
        (Single { bits: 0xc090_0000 }, Double { bits: 0xc013_9999_9999_999a }),
        // -3.5: -4.2
        (Single { bits: 0xc060_0000 }, Double { bits: 0xc010_cccc_cccc_cccd }),
        // -2.5: -3.7
        (Single { bits: 0xc020_0000 }, Double { bits: 0xc00d_9999_9999_999a }),
        // -1.5: -3.3
        (Single { bits: 0xbfc0_0000 }, Double { bits: 0xc00a_6666_6666_6666 }),
        // -0.5: -3.0
        (Single { bits: 0xbf00_0000 }, Double { bits: 0xc008_0000_0000_0000 }),
        // 0.5: -2.8
        (Single { bits: 0x3f00_0000 }, Double { bits: 0xc006_6666_6666_6666 }),
        // 1.5: -2.6
        (Single { bits: 0x3fc0_0000 }, Double { bits: 0xc004_cccc_cccc_cccd }),
        // 2.5: -2.45
        (Single { bits: 0x4020_0000 }, Double { bits: 0xc003_9999_9999_999a }),
        // 3.5: -2.35
        (Single { bits: 0x4060_0000 }, Double { bits: 0xc002_cccc_cccc_cccd }),
        // 4.5: -2.3
        (Single { bits: 0x4090_0000 }, Double { bits: 0xc002_6666_6666_6666 }),
        // 5.5: -2.3
        (Single { bits: 0x40b0_0000 }, Double { bits: 0xc002_6666_6666_6666 }),
        // 6.5: -2.25
        (Single { bits: 0x40d0_0000 }, Double { bits: 0xc002_0000_0000_0000 }),
        // 7.5: -2.2
        (Single { bits: 0x40f0_0000 }, Double { bits: 0xc001_9999_9999_999a }),
        // 8.5: -2.15
        (Single { bits: 0x4108_0000 }, Double { bits: 0xc001_3333_3333_3333 }),
        // 9.5: -2.05
        (Single { bits: 0x4118_0000 }, Double { bits: 0xc000_6666_6666_6666 }),
        // 10.5: -1.95
        (Single { bits: 0x4128_0000 }, Double { bits: 0xbfff_3333_3333_3333 }),
        // 11.5: -1.9
        (Single { bits: 0x4138_0000 }, Double { bits: 0xbffe_6666_6666_6666 }),
        // 12.5: -1.95
        (Single { bits: 0x4148_0000 }, Double { bits: 0xbfff_3333_3333_3333 }),
        // 13.5: -2.05
        (Single { bits: 0x4158_0000 }, Double { bits: 0xc000_6666_6666_6666 }),
        // 14.5: -2.2
        (Single { bits: 0x4168_0000 }, Double { bits: 0xc001_9999_9999_999a }),
        // 15.5: -2.45
        (Single { bits: 0x4178_0000 }, Double { bits: 0xc003_9999_9999_999a }),
        // 16.5: -2.8
        (Single { bits: 0x4184_0000 }, Double { bits: 0xc006_6666_6666_6666 }),
        // 18.0: -3.5
        (Single { bits: 0x4190_0000 }, Double { bits: 0xc00c_0000_0000_0000 }),
    ]
}

/// The logarithm at `mag` by linear interpolation in the first segment of the table from `i` on
/// that holds it, if there is one.
pub open spec fn interpolated_log(mag: Single, i: nat) -> Option<Double>
    decreases 29 - i,
{
    let t = luminosity_table();
    if i + 1 >= 29 {
        None
    } else {
        let (m0, l0) = t[i as int];
        let (m1, l1) = t[(i + 1) as int];
        if m0.at_most(mag) && mag.at_most(m1) {
            let part = mag.difference(m0).quotient(m1.difference(m0)).widened();
            Some(l0.sum(l1.difference(l0).product(part)))
        } else {
            interpolated_log(mag, i + 1)
        }
    }
}

/// The decimal logarithm of the relative density of stars at an absolute magnitude:
/// interpolated in the table, constant beyond its ends, none for NaN.
pub open spec fn log_density(mag: Single) -> Option<Double> {
    let t = luminosity_table();
    if mag.at_most(t[0].0) {
        Some(t[0].1)
    } else if t[28].0.at_most(mag) {
        Some(t[28].1)
    } else {
        interpolated_log(mag, 0)
    }
}

/// Relative luminosity-function weight at an absolute magnitude.
pub open spec fn weight_at<M: Fn(Elementary, Double, Double) -> Double>(maths: M, mag: Single) -> Double {
    match log_density(mag) {
        Some(log) => value_of(maths, Elementary::Pow, Double { bits: TEN }, log),
        None => Double { bits: ZERO },
    }
}

/// The decimal logarithm of the relative density of stars at an absolute magnitude.
pub fn luminosity_log(abs_mag: Single) -> (r: Option<Double>)
    ensures
        r == log_density(abs_mag),
{
    let table: [(Single, Double); 29] = luminosity_entries();
    let first: (Single, Double) = table[0];
    let last: (Single, Double) = table[28];
    if abs_mag.le(first.0) {
        return Some(first.1);
    }
    if last.0.le(abs_mag) {
        return Some(last.1);
    }
    let mut i: usize = 0;
    while i < 28
        invariant
            i <= 28,
            table@ == luminosity_table(),
            !abs_mag.at_most(luminosity_table()[0].0),
            !luminosity_table()[28].0.at_most(abs_mag),
            interpolated_log(abs_mag, 0) == interpolated_log(abs_mag, i as nat),
        decreases 28 - i,
    {
        let (m0, l0): (Single, Double) = table[i];
        let (m1, l1): (Single, Double) = table[i + 1];
        if m0.le(abs_mag) && abs_mag.le(m1) {
            let part: Double = abs_mag.minus(m0).over(m1.minus(m0)).to_double();
            return Some(l0.plus(l1.minus(l0).times(part)));
        }
        i = i + 1;
    }
    None
}

/// Relative luminosity-function weight at an absolute magnitude.
pub fn luminosity_weight<M: Fn(Elementary, Double, Double) -> Double>(maths: &M, abs_mag: Single) -> (r: Double)
    requires
        reliable(*maths),
    ensures
        r == weight_at(*maths, abs_mag),
{
    match luminosity_log(abs_mag) {
        Some(log) => evaluate(maths, Elementary::Pow, Double { bits: TEN }, log),
        None => Double { bits: ZERO },
    }
}

/// The share that `weight` has in `total`; nothing of nothing.
pub open spec fn share_of(weight: Double, total: Double) -> Double {
    if total.at_most(Double { bits: ZERO }) {
        Double { bits: ZERO }
    } else {
        weight.quotient(total)
    }
}

/// The share that `weight` has in `total`; nothing of nothing.
pub fn weight_share(weight: Double, total: Double) -> (r: Double)
    ensures
        r == share_of(weight, total),
{
    if total.le(Double { bits: ZERO }) {
        Double { bits: ZERO }
    } else {
        weight.over(total)
    }
}

impl GalaxyParams {
    /// The edge length of a node at `depth`: the universe halved `depth` times.
    pub open spec fn node_size(self, depth: u8) -> Double {
        self.universe_size_m.quotient(double_of_int(pow2(depth as nat) as int))
    }

    /// The coordinate of the lower side of the cells with index `i` at `depth`, in a universe
    /// centered on zero.
    pub open spec fn side(self, depth: u8, i: u64) -> Double {
        double_of_int(i as int).product(self.node_size(depth)).difference(
            self.universe_size_m.product(Double { bits: HALF }),
        )
    }

    /// The min corner of a node.
    pub open spec fn corner(self, key: NodeKey) -> Vector {
        Vector {
            x: self.side(key.depth, key.ix),
            y: self.side(key.depth, key.iy),
            z: self.side(key.depth, key.iz),
        }
    }

    /// The faintest magnitude shown at `depth`.
    pub open spec fn magnitude_limit(depth: u8) -> Single {
        Single { bits: ROOT_MAGNITUDE }.sum(
            single_of_int(depth as int).product(Single { bits: MAGNITUDE_STEP }),
        )
    }

    /// The band of magnitudes that `depth` owns: the first excluded, the second included.
    pub open spec fn magnitude_band(depth: u8) -> (Single, Single) {
        (
            if depth == 0 {
                Single { bits: MINUS_INFINITY_SINGLE }
            } else {
                Self::magnitude_limit((depth - 1) as u8)
            },
            Self::magnitude_limit(depth),
        )
    }

    /// The midpoint of the band of `depth`.
    pub open spec fn magnitude_mid(depth: u8) -> Single {
        if depth == 0 {
            Single { bits: ROOT_BAND_MID }
        } else {
            Self::magnitude_limit((depth - 1) as u8).sum(Self::magnitude_limit(depth)).product(
                Single { bits: HALF_SINGLE },
            )
        }
    }

    /// The weights of the first `n` bands together.
    pub open spec fn total_weight<M: Fn(Elementary, Double, Double) -> Double>(maths: M, n: nat) -> Double
        decreases n,
    {
        if n == 0 {
            Double { bits: ZERO }
        } else {
            Self::total_weight(maths, (n - 1) as nat).sum(
                weight_at(maths, Self::magnitude_mid((n - 1) as u8)),
            )
        }
    }

    /// The share of all stars that the band of `depth` holds.
    pub open spec fn band_share<M: Fn(Elementary, Double, Double) -> Double>(self, maths: M, depth: u8) -> Double {
        share_of(
            weight_at(maths, Self::magnitude_mid(depth)),
            Self::total_weight(maths, (self.max_depth + 1) as nat),
        )
    }

    /// Eight to the power of `depth`: the number of nodes at that level.
    pub open spec fn nodes_at(depth: u8) -> Double {
        Double { bits: ((1023 + 3 * depth) * 0x10_0000_0000_0000) as u64 }
    }

    /// The number of stars in a node at `depth` whose band holds a given share of all stars.
    pub open spec fn stars_per_node(self, depth: u8, share: Double) -> Double {
        self.total_stars.product(share).quotient(Self::nodes_at(depth))
    }

    /// The expected number of stars in a node at `depth`.
    pub open spec fn expected<M: Fn(Elementary, Double, Double) -> Double>(self, maths: M, depth: u8) -> Double {
        let d = if depth < self.max_depth {
            depth
        } else {
            self.max_depth
        };
        self.stars_per_node(d, self.band_share(maths, d))
    }

    /// Edge length in meters of a node at `depth`.
    pub fn node_size_m(&self, depth: u8) -> (r: Double)
        requires
            depth < 64,
        ensures
            r == self.node_size(depth),
    {
        proof {
            lemma2_to64_rest();
            lemma2_to64();
            lemma_pow2_strictly_increases(depth as nat, 64);
        }
        self.universe_size_m.over(Double::from_u64(power_of_two(depth as u32) as u64))
    }

    /// Min corner of a node in absolute meters (root cube centered on the origin).
    pub fn node_min_m(&self, key: NodeKey) -> (r: Vector)
        requires
            key.depth < 64,
        ensures
            r == self.corner(key),
    {
        let size: Double = self.node_size_m(key.depth);
        let half: Double = self.universe_size_m.times(Double { bits: HALF });
        Vector::new(
            Double::from_u64(key.ix).times(size).minus(half),
            Double::from_u64(key.iy).times(size).minus(half),
            Double::from_u64(key.iz).times(size).minus(half),
        )
    }

    /// Absolute-magnitude upper bound (inclusive) shown first at `depth`.
    ///
    /// Depth 0 shows only the very brightest (small magnitude); each deeper level raises the
    /// limit, revealing dimmer stars.
    pub fn mag_limit(&self, depth: u8) -> (r: Single)
        ensures
            r == Self::magnitude_limit(depth),
    {
        Single { bits: ROOT_MAGNITUDE }.plus(
            Single::from_i64(depth as i64).times(Single { bits: MAGNITUDE_STEP }),
        )
    }

    /// The half-open absolute-magnitude band owned exclusively by `depth`.
    pub fn mag_band(&self, depth: u8) -> (r: (Single, Single))
        ensures
            r == Self::magnitude_band(depth),
    {
        let hi: Single = self.mag_limit(depth);
        let lo: Single = if depth == 0 {
            Single { bits: MINUS_INFINITY_SINGLE }
        } else {
            self.mag_limit(depth - 1)
        };
        (lo, hi)
    }

    /// Midpoint of the absolute-magnitude band owned by `depth`.
    pub fn band_mid(&self, depth: u8) -> (r: Single)
        ensures
            r == Self::magnitude_mid(depth),
    {
        if depth == 0 {
            Single { bits: ROOT_BAND_MID }
        } else {
            self.mag_limit(depth - 1).plus(self.mag_limit(depth)).times(Single { bits: HALF_SINGLE })
        }
    }

    /// The number of stars the whole galaxy should contain in `depth`'s magnitude band, as a
    /// fraction of `total_stars`.
    pub fn band_weight<M: Fn(Elementary, Double, Double) -> Double>(&self, maths: &M, depth: u8) -> (r: Double)
        requires
            reliable(*maths),
        ensures
            r == self.band_share(*maths, depth),
    {
        let mut total: Double = Double { bits: ZERO };
        let mut d: u32 = 0;
        while d <= self.max_depth as u32
            invariant
                d <= self.max_depth + 1,
                reliable(*maths),
                total == Self::total_weight(*maths, d as nat),
            decreases self.max_depth + 1 - d,
        {
            total = total.plus(luminosity_weight(maths, self.band_mid(d as u8)));
            d = d + 1;
        }
        weight_share(luminosity_weight(maths, self.band_mid(depth)), total)
    }

    /// The number of stars in a node at `depth` whose band holds a given share of all stars.
    pub fn spread_over_nodes(&self, depth: u8, share: Double) -> (r: Double)
        ensures
            r == self.stars_per_node(depth, share),
    {
        let nodes: Double = Double { bits: (1023 + 3 * depth as u64) * 0x10_0000_0000_0000 };
        self.total_stars.times(share).over(nodes)
    }

    /// Expected number of stars emitted by a single node at `depth`: the band's share of all
    /// stars, spread over the nodes of that level.
    pub fn expected_stars<M: Fn(Elementary, Double, Double) -> Double>(&self, maths: &M, depth: u8) -> (r: Double)
        requires
            reliable(*maths),
        ensures
            r == self.expected(*maths, depth),
    {
        let d: u8 = if depth < self.max_depth {
            depth
        } else {
            self.max_depth
        };
        self.spread_over_nodes(d, self.band_weight(maths, d))
    }
}

impl GalaxyParams {
    /// The galaxy that a viewer starts with.
    pub open spec fn usual() -> GalaxyParams {
        GalaxyParams {
            root_seed: 0x5347_414C_4158_5921,
            universe_size_m: (Double { bits: 0x4100_0000_0000_0000 /* 131072.0 */ }).product(Double { bits: METERS_PER_LIGHT_YEAR }),
            total_stars: Double { bits: 0x4247_4876_e800_0000 /* 2e11 */ },
            max_depth: 24,
        }
    }
}

impl Default for GalaxyParams {
    fn default() -> (r: GalaxyParams)
        ensures
            r == GalaxyParams::usual(),
    {
        GalaxyParams {
            root_seed: 0x5347_414C_4158_5921,
            universe_size_m: Double { bits: 0x4100_0000_0000_0000 /* 131072.0 */ }.times(Double { bits: METERS_PER_LIGHT_YEAR }),
            total_stars: Double { bits: 0x4247_4876_e800_0000 /* 2e11 */ },
            max_depth: 24,
        }
    }
}

} // verus!
