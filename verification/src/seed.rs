//! Seeds of octree nodes.
use vstd::prelude::*;

use crate::node::NodeKey;

verus! {

/// The bits of `x` moved `k` places to the left, those that leave coming back on the right.
pub open spec fn rotated(x: u64, k: u64) -> u64 {
    (x << k) | (x >> ((64 - k) as u64))
}

/// One round of the SplitMix64 avalanche.
pub open spec fn mixed(z: u64) -> u64 {
    let a = z.wrapping_add(0x9E37_79B9_7F4A_7C15);
    let b = (a ^ (a >> 30)).wrapping_mul(0xBF58_476D_1CE4_E5B9);
    let c = (b ^ (b >> 27)).wrapping_mul(0x94D0_49BB_1331_11EB);
    c ^ (c >> 31)
}

/// The seed of a node: the root seed mixed with the level and then with each index.
pub open spec fn seed_of(root_seed: u64, key: NodeKey) -> u64 {
    let h0 = mixed(root_seed ^ 0x9E37_79B9_7F4A_7C15 ^ (key.depth as u64));
    let h1 = mixed(h0 ^ rotated(key.ix, 17));
    let h2 = mixed(h1 ^ rotated(key.iy, 31));
    mixed(h2 ^ rotated(key.iz, 47))
}

fn rotate(x: u64, k: u64) -> (r: u64)
    requires
        0 < k < 64,
    ensures
        r == rotated(x, k),
{
    (x << k) | (x >> (64 - k))
}

/// One round of the SplitMix64 avalanche.
pub fn mix(z: u64) -> (r: u64)
    ensures
        r == mixed(z),
{
    let a: u64 = z.wrapping_add(0x9E37_79B9_7F4A_7C15);
    let b: u64 = (a ^ (a >> 30)).wrapping_mul(0xBF58_476D_1CE4_E5B9);
    let c: u64 = (b ^ (b >> 27)).wrapping_mul(0x94D0_49BB_1331_11EB);
    c ^ (c >> 31)
}

/// Deterministic per-node seed derived from the root seed and node key, with an avalanche in
/// between so that neighboring nodes decorrelate well.
pub fn node_seed(root_seed: u64, key: NodeKey) -> (r: u64)
    ensures
        r == seed_of(root_seed, key),
{
    let h0: u64 = mix(root_seed ^ 0x9E37_79B9_7F4A_7C15 ^ (key.depth as u64));
    let h1: u64 = mix(h0 ^ rotate(key.ix, 17));
    let h2: u64 = mix(h1 ^ rotate(key.iy, 31));
    mix(h2 ^ rotate(key.iz, 47))
}

} // verus!
