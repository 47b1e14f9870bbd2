use galaxy::node::NodeKey;
use galaxy::seed::{mix, node_seed};

#[test]
fn children_partition_parent() {
    let parent = NodeKey::new(2, 1, 1, 1);
    let kids = parent.children();
    assert_eq!(kids.len(), 8);
    for k in kids {
        assert_eq!(k.depth, 3);
        assert!(k.ix / 2 == parent.ix && k.iy / 2 == parent.iy && k.iz / 2 == parent.iz);
    }
}

/// The avalanche and the chain of mixes, with the rotations of the language.
fn plain_mix(z: u64) -> u64 {
    let z = z.wrapping_add(0x9E37_79B9_7F4A_7C15);
    let z = (z ^ (z >> 30)).wrapping_mul(0xBF58_476D_1CE4_E5B9);
    let z = (z ^ (z >> 27)).wrapping_mul(0x94D0_49BB_1331_11EB);
    z ^ (z >> 31)
}

fn plain_seed(root_seed: u64, key: NodeKey) -> u64 {
    let mut h = plain_mix(root_seed ^ 0x9E37_79B9_7F4A_7C15 ^ key.depth as u64);
    h = plain_mix(h ^ key.ix.rotate_left(17));
    h = plain_mix(h ^ key.iy.rotate_left(31));
    plain_mix(h ^ key.iz.rotate_left(47))
}

#[test]
fn mixing_is_the_known_avalanche() {
    // The first output of the generator of that name, started at zero.
    assert_eq!(mix(0), 0xE220_A839_7B1D_CDAF);
    assert_eq!(mix(0x9E37_79B9_7F4A_7C15), 0x6E78_9E6A_A1B9_65F4);
}

#[test]
fn seeds_rotate_the_indices() {
    for (root, key) in [
        (0, NodeKey::root()),
        (7, NodeKey::new(3, 1, 2, 3)),
        (u64::MAX, NodeKey::new(63, u64::MAX >> 1, 1 << 62, 12345)),
    ] {
        assert_eq!(node_seed(root, key), plain_seed(root, key));
    }
}

#[test]
fn neighbors_and_galaxies_have_different_seeds() {
    let mut seeds: Vec<u64> = Vec::new();
    for i in 0..6 {
        seeds.push(node_seed(1, NodeKey::new(4, i, 0, 0)));
        seeds.push(node_seed(2, NodeKey::new(4, i, 0, 0)));
        seeds.push(node_seed(1, NodeKey::new(5, i, 0, 0)));
    }
    let n = seeds.len();
    seeds.sort();
    seeds.dedup();
    assert_eq!(seeds.len(), n);
}

#[test]
fn children_take_the_octants_in_order() {
    let kids = NodeKey::new(1, 1, 0, 1).children();
    let indices: Vec<(u64, u64, u64)> = kids.iter().map(|k| (k.ix, k.iy, k.iz)).collect();
    assert_eq!(
        indices,
        [
            (2, 0, 2),
            (3, 0, 2),
            (2, 1, 2),
            (3, 1, 2),
            (2, 0, 3),
            (3, 0, 3),
            (2, 1, 3),
            (3, 1, 3),
        ]
    );
    assert_eq!(NodeKey::root(), NodeKey::new(0, 0, 0, 0));
}
