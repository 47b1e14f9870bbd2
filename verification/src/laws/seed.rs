//! Laws of node seeds.
use vstd::arithmetic::div_mod::*;
use vstd::prelude::*;

use crate::node::NodeKey;
use crate::seed::{mixed, rotated, seed_of};

verus! {

/// Multiplying by `c` and then by its inverse modulo 2^64 gives the factor back.
proof fn lemma_product_undone(x: u64, c: u64, inverse: u64)
    requires
        (c * inverse) % 0x1_0000_0000_0000_0000 == 1,
    ensures
        x.wrapping_mul(c).wrapping_mul(inverse) == x,
{
    let m = 0x1_0000_0000_0000_0000int;
    let (xi, ci, ii) = (x as int, c as int, inverse as int);
    lemma_mul_mod_noop_left(xi * ci, ii, m);
    assert(xi * ci * ii == xi * (ci * ii)) by (nonlinear_arith);
    lemma_mul_mod_noop_right(xi, ci * ii, m);
    lemma_small_mod(x as nat, m as nat);
    assert(xi * 1 == xi);
}

/// The avalanche maps different numbers to different numbers.
pub proof fn law_mix_is_injective(y: u64, z: u64)
    requires
        y != z,
    ensures
        mixed(y) != mixed(z),
{
    let (ay, az) = (y.wrapping_add(0x9E37_79B9_7F4A_7C15), z.wrapping_add(0x9E37_79B9_7F4A_7C15));
    assert(ay != az);
    let (sy, sz) = (ay ^ (ay >> 30), az ^ (az >> 30));
    assert(ay ^ (ay >> 30) == az ^ (az >> 30) ==> ay == az) by (bit_vector);
    let (by, bz) = (
        sy.wrapping_mul(0xBF58_476D_1CE4_E5B9),
        sz.wrapping_mul(0xBF58_476D_1CE4_E5B9),
    );
    lemma_product_undone(sy, 0xBF58_476D_1CE4_E5B9, 0x96DE_1B17_3F11_9089);
    lemma_product_undone(sz, 0xBF58_476D_1CE4_E5B9, 0x96DE_1B17_3F11_9089);
    let (ty, tz) = (by ^ (by >> 27), bz ^ (bz >> 27));
    assert(by ^ (by >> 27) == bz ^ (bz >> 27) ==> by == bz) by (bit_vector);
    let (cy, cz) = (
        ty.wrapping_mul(0x94D0_49BB_1331_11EB),
        tz.wrapping_mul(0x94D0_49BB_1331_11EB),
    );
    lemma_product_undone(ty, 0x94D0_49BB_1331_11EB, 0x3196_42B2_D24D_8EC3);
    lemma_product_undone(tz, 0x94D0_49BB_1331_11EB, 0x3196_42B2_D24D_8EC3);
    assert(cy ^ (cy >> 31) == cz ^ (cz >> 31) ==> cy == cz) by (bit_vector);
}

proof fn lemma_rotation_is_injective(x: u64, y: u64)
    requires
        x != y,
    ensures
        rotated(x, 17) != rotated(y, 17),
        rotated(x, 31) != rotated(y, 31),
        rotated(x, 47) != rotated(y, 47),
{
    assert((x << 17u64) | (x >> 47u64) == (y << 17u64) | (y >> 47u64) ==> x == y) by (bit_vector);
    assert((x << 31u64) | (x >> 33u64) == (y << 31u64) | (y >> 33u64) ==> x == y) by (bit_vector);
    assert((x << 47u64) | (x >> 17u64) == (y << 47u64) | (y >> 17u64) ==> x == y) by (bit_vector);
}

/// A round of mixing keeps two states apart that differ, or that take in different words.
proof fn lemma_round_keeps_apart(g: u64, h: u64, v: u64, w: u64)
    requires
        (g != h && v == w) || (g == h && v != w),
    ensures
        mixed(g ^ v) != mixed(h ^ w),
{
    assert((g != h && v == w) || (g == h && v != w) ==> g ^ v != h ^ w) by (bit_vector);
    law_mix_is_injective(g ^ v, h ^ w);
}

/// Nodes that differ in exactly one index or in the level alone have different seeds: no node
/// shares its seed with a neighbor along an axis.
pub proof fn law_neighbors_have_different_seeds(root_seed: u64, a: NodeKey, b: NodeKey)
    requires
        ({
            ||| a.depth != b.depth && a.ix == b.ix && a.iy == b.iy && a.iz == b.iz
            ||| a.depth == b.depth && a.ix != b.ix && a.iy == b.iy && a.iz == b.iz
            ||| a.depth == b.depth && a.ix == b.ix && a.iy != b.iy && a.iz == b.iz
            ||| a.depth == b.depth && a.ix == b.ix && a.iy == b.iy && a.iz != b.iz
        }),
    ensures
        seed_of(root_seed, a) != seed_of(root_seed, b),
{
    let s = root_seed ^ 0x9E37_79B9_7F4A_7C15;
    let (a0, b0) = (mixed(s ^ (a.depth as u64)), mixed(s ^ (b.depth as u64)));
    let (a1, b1) = (mixed(a0 ^ rotated(a.ix, 17)), mixed(b0 ^ rotated(b.ix, 17)));
    let (a2, b2) = (mixed(a1 ^ rotated(a.iy, 31)), mixed(b1 ^ rotated(b.iy, 31)));
    if a.depth != b.depth {
        lemma_round_keeps_apart(s, s, a.depth as u64, b.depth as u64);
    }
    if a.ix != b.ix {
        lemma_rotation_is_injective(a.ix, b.ix);
    }
    if a0 != b0 || a.ix != b.ix {
        lemma_round_keeps_apart(a0, b0, rotated(a.ix, 17), rotated(b.ix, 17));
    }
    if a.iy != b.iy {
        lemma_rotation_is_injective(a.iy, b.iy);
    }
    if a1 != b1 || a.iy != b.iy {
        lemma_round_keeps_apart(a1, b1, rotated(a.iy, 31), rotated(b.iy, 31));
    }
    if a.iz != b.iz {
        lemma_rotation_is_injective(a.iz, b.iz);
    }
    lemma_round_keeps_apart(a2, b2, rotated(a.iz, 47), rotated(b.iz, 47));
}

/// The same node has different seeds under different root seeds.
pub proof fn law_root_seeds_separate_galaxies(r: u64, s: u64, key: NodeKey)
    requires
        r != s,
    ensures
        seed_of(r, key) != seed_of(s, key),
{
    let c = 0x9E37_79B9_7F4A_7C15u64;
    assert(r != s ==> r ^ c != s ^ c) by (bit_vector);
    lemma_round_keeps_apart(r ^ c, s ^ c, key.depth as u64, key.depth as u64);
    let (r0, s0) = (mixed(r ^ c ^ (key.depth as u64)), mixed(s ^ c ^ (key.depth as u64)));
    lemma_round_keeps_apart(r0, s0, rotated(key.ix, 17), rotated(key.ix, 17));
    let (r1, s1) = (mixed(r0 ^ rotated(key.ix, 17)), mixed(s0 ^ rotated(key.ix, 17)));
    lemma_round_keeps_apart(r1, s1, rotated(key.iy, 31), rotated(key.iy, 31));
    let (r2, s2) = (mixed(r1 ^ rotated(key.iy, 31)), mixed(s1 ^ rotated(key.iy, 31)));
    lemma_round_keeps_apart(r2, s2, rotated(key.iz, 47), rotated(key.iz, 47));
}

} // verus!
