use galaxy::cache::NodeCache;
use galaxy::coord::{GalacticCoord, METERS_PER_LIGHT_YEAR, METERS_PER_PARSEC};
use galaxy::generate::generate_stars;
use galaxy::ieee::{Double, Single};
use galaxy::maths::Elementary;
use galaxy::node::NodeKey;
use galaxy::octree::{
    apparent_magnitude, distance_in_parsecs, magnitude_at_log_distance, Galaxy, ViewParams,
};
use galaxy::params::{GalaxyParams, Star};
use galaxy::queue::{NodeQueue, QueuedNode};
use galaxy::vector::Vector;

fn d(x: f64) -> Double {
    Double::from_bits(x.to_bits())
}

fn s(x: f32) -> Single {
    Single::from_bits(x.to_bits())
}

fn f(x: Double) -> f64 {
    f64::from_bits(x.to_bits())
}

fn fs(x: Single) -> f32 {
    f32::from_bits(x.to_bits())
}

fn maths(function: Elementary, x: Double, y: Double) -> Double {
    let (a, b) = (f(x), f(y));
    d(match function {
        Elementary::Exp => a.exp(),
        Elementary::Ln => a.ln(),
        Elementary::Log10 => a.log10(),
        Elementary::Sin => a.sin(),
        Elementary::Cos => a.cos(),
        Elementary::Tan => a.tan(),
        Elementary::Pow => a.powf(b),
        Elementary::PowSingle => (a as f32).powf(b as f32) as f64,
    })
}

fn params(root_seed: u64, universe: f64, total: f64, max_depth: u8) -> GalaxyParams {
    GalaxyParams {
        root_seed,
        universe_size_m: d(universe),
        total_stars: d(total),
        max_depth,
    }
}

#[test]
fn apparent_magnitude_at_10pc_equals_absolute() {
    let m = apparent_magnitude(&maths, s(5.0), d(10.0 * f64::from_bits(METERS_PER_PARSEC)));
    assert!((fs(m) - 5.0).abs() < 1e-4);
}

#[test]
fn farther_stars_are_fainter() {
    let parsec = f64::from_bits(METERS_PER_PARSEC);
    let near = apparent_magnitude(&maths, s(0.0), d(10.0 * parsec));
    let far = apparent_magnitude(&maths, s(0.0), d(1000.0 * parsec));
    assert!(fs(far) > fs(near));
}

#[test]
fn cache_produces_hits_on_repeat() {
    let mut g = Galaxy::new(params(1, 1.0e18, 2.0e10, 12), 8192);
    let cam = g.node_center(NodeKey::root());
    // Bounded traversal so the whole visited set fits in the cache and is stable between passes.
    let view = ViewParams {
        mag_limit: s(12.0),
        fade_width: s(1.5),
        subdivide_angle: d(0.5),
        max_depth: 6,
        max_nodes: 2_000,
    };
    let (_, s1, _) = g.collect_visible(&maths, cam, &view);
    let (_, s2, _) = g.collect_visible(&maths, cam, &view);
    assert!(s1.cache_misses > 0);
    assert!(s2.cache_hits > 0, "second pass should hit the cache");
    assert!(s2.cache_misses == 0, "second identical pass should be fully cached");
}

#[test]
fn near_dist_is_zero_inside_and_positive_outside() {
    let g = Galaxy::new(params(3, 1.0e18, 2.0e10, 12), 16);
    let key = NodeKey::new(3, 2, 2, 2);
    // Camera at the node center -> inside -> distance 0.
    let inside = g.node_center(key);
    assert_eq!(f(g.node_near_dist(key, inside)), 0.0);
    // Camera far outside -> positive distance.
    let far = GalacticCoord::from_meters_f64(Vector::splat(d(1.0e17)));
    assert!(f(g.node_near_dist(key, far)) > 0.0);
}

#[test]
fn shallow_bright_stars_are_stable_across_subdivide_angle() {
    let params = params(42, 1.0e18, 2.0e10, 14);
    let cam = GalacticCoord::from_meters_f64(Vector::splat(d(1.0e16)));

    let collect_shallow = |angle: f64| -> Vec<[i128; 3]> {
        let mut g = Galaxy::new(params, 200_000);
        let view = ViewParams {
            mag_limit: s(20.0),
            fade_width: s(1.5),
            subdivide_angle: d(angle),
            max_depth: 14,
            // Deliberately small budget to force truncation of the deep, unimportant tail.
            max_nodes: 1_500,
        };
        let (stars, _, _) = g.collect_visible(&maths, cam, &view);
        // Keep only intrinsically bright stars (shallow bands: abs_mag < 0).
        let mut ids: Vec<[i128; 3]> = stars
            .iter()
            .filter(|v| fs(v.star.abs_mag) < 0.0)
            .map(|v| [v.star.pos.x.raw(), v.star.pos.y.raw(), v.star.pos.z.raw()])
            .collect();
        ids.sort();
        ids
    };

    let a = collect_shallow(0.1);
    let b = collect_shallow(0.4);
    assert!(!a.is_empty(), "expected some bright stars");
    assert_eq!(
        a, b,
        "bright shallow stars changed with subdivide_angle (traversal not stable)"
    );
}

#[test]
fn collect_visible_is_fully_deterministic() {
    let params = params(99, 1.0e18, 2.0e10, 14);
    let cam = GalacticCoord::from_meters_f64(Vector::new(d(3.1e15), d(-2.2e15), d(1.7e15)));
    let view = ViewParams {
        mag_limit: s(18.0),
        fade_width: s(1.5),
        subdivide_angle: d(0.13),
        max_depth: 14,
        max_nodes: 2_000, // force truncation
    };
    let run = || {
        let mut g = Galaxy::new(params, 300_000);
        let (stars, _, _) = g.collect_visible(&maths, cam, &view);
        stars
            .iter()
            .map(|v| {
                (
                    [v.star.pos.x.raw(), v.star.pos.y.raw(), v.star.pos.z.raw()],
                    v.star.abs_mag.to_bits(),
                    v.fade.to_bits(),
                )
            })
            .collect::<Vec<_>>()
    };
    assert_eq!(run(), run(), "collect_visible not deterministic");
}


#[test]
fn traversal_counts_what_it_visits() {
    let ly = f64::from_bits(METERS_PER_LIGHT_YEAR);
    let mut g = Galaxy::new(params(7, 131_072.0 * ly, 2.0e10, 12), 4096);
    let cam = g.node_center(NodeKey::new(6, 30, 30, 30));
    let view = ViewParams {
        mag_limit: s(15.0),
        fade_width: s(1.5),
        subdivide_angle: d(0.2),
        max_depth: 12,
        max_nodes: 1_500,
    };
    let (stars, stats, nodes) = g.collect_visible(&maths, cam, &view);
    assert_eq!(stats.nodes_visited, 1_500);
    // The visited-node list must mirror the visit count (wireframe source).
    assert_eq!(nodes.len(), stats.nodes_visited);
    // Visible set is a subset of generated.
    assert!(stats.stars_visible <= stats.stars_generated);
    assert_eq!(stars.len(), stats.stars_visible);
    assert_eq!(stats.cache_hits + stats.cache_misses, stats.nodes_visited);
    assert!(stats.nodes_subdivided <= stats.nodes_visited);
    assert_eq!(nodes[0], NodeKey::root());
    assert!(stars.iter().all(|v| fs(v.fade) > 0.0 && fs(v.fade) <= 1.0));
    // No node is visited twice.
    let mut seen: Vec<(u8, u64, u64, u64)> =
        nodes.iter().map(|k| (k.depth, k.ix, k.iy, k.iz)).collect();
    seen.sort();
    seen.dedup();
    assert_eq!(seen.len(), nodes.len());
}

#[test]
fn nothing_is_visited_without_a_budget() {
    let mut g = Galaxy::new(params(7, 1.0e18, 2.0e10, 12), 16);
    let view = ViewParams {
        max_nodes: 0,
        ..Default::default()
    };
    let (stars, stats, nodes) = g.collect_visible(&maths, GalacticCoord::origin(), &view);
    assert!(stars.is_empty() && nodes.is_empty());
    assert_eq!(stats.nodes_visited, 0);
}

#[test]
fn a_node_is_split_only_when_it_looks_large() {
    let mut g = Galaxy::new(params(7, 1.0e18, 2.0e8, 12), 16);
    let mut view = ViewParams {
        subdivide_angle: d(0.5),
        max_depth: 1,
        max_nodes: 100,
        ..Default::default()
    };
    // From inside, the root fills the sky and its children are visited; not theirs.
    let (_, stats, nodes) = g.collect_visible(&maths, GalacticCoord::origin(), &view);
    assert_eq!((stats.nodes_visited, stats.nodes_subdivided), (9, 1));
    assert!(nodes[1..].iter().all(|k| k.depth == 1));
    // From afar it is one node.
    let far = GalacticCoord::from_meters_f64(Vector::splat(d(1.0e19)));
    let (_, stats, _) = g.collect_visible(&maths, far, &view);
    assert_eq!((stats.nodes_visited, stats.nodes_subdivided), (1, 0));
    view.max_depth = 0;
    let (_, stats, _) = g.collect_visible(&maths, GalacticCoord::origin(), &view);
    assert_eq!(stats.nodes_visited, 1);
}

#[test]
fn fade_ramps_from_the_limit() {
    let view = ViewParams {
        mag_limit: s(10.0),
        fade_width: s(2.0),
        ..Default::default()
    };
    for (m, expected) in [(4.0, 1.0), (8.0, 1.0), (9.0, 0.5), (9.5, 0.25), (10.0, 0.0), (12.0, 0.0)] {
        assert_eq!(fs(view.fade(s(m))), expected, "magnitude {m}");
    }
    // A width of nothing still divides.
    let sharp = ViewParams {
        fade_width: s(0.0),
        ..view
    };
    assert_eq!(fs(sharp.fade(s(9.9))), 1.0);
    assert_eq!(fs(sharp.fade(s(10.0))), 0.0);
}

#[test]
fn magnitudes_follow_the_distance_modulus() {
    assert_eq!(fs(magnitude_at_log_distance(s(4.83), d(1.0))), 4.83);
    assert_eq!(fs(magnitude_at_log_distance(s(0.0), d(3.0))), 10.0);
    let parsec = f64::from_bits(METERS_PER_PARSEC);
    assert_eq!(f(distance_in_parsecs(d(10.0 * parsec))), 10.0);
    // Nothing is nearer than a millionth of a parsec.
    assert_eq!(f(distance_in_parsecs(d(0.0))), 1.0e-6);
    let expected = 1.5f32 + 5.0 * ((123.0 * parsec / parsec).max(1.0e-6).log10() - 1.0) as f32;
    assert_eq!(fs(apparent_magnitude(&maths, s(1.5), d(123.0 * parsec))), expected);
}

#[test]
fn node_bounds_tile_the_universe() {
    let g = Galaxy::new(params(1, 1024.0, 1.0, 8), 4);
    let (min, size) = g.node_bounds(NodeKey::new(3, 7, 0, 4));
    assert_eq!((f(min.x), f(min.y), f(min.z)), (384.0, -512.0, 0.0));
    assert_eq!(f(size), 128.0);
    let center = g.node_center(NodeKey::new(3, 7, 0, 4));
    assert_eq!(center, GalacticCoord::from_meters_i128(448, -448, 64));
}

#[test]
fn near_distance_is_to_the_nearest_face_edge_or_corner() {
    let g = Galaxy::new(params(1, 8.0, 1.0, 8), 4);
    let root = NodeKey::root();
    let at = |x, y, z| f(g.node_near_dist(root, GalacticCoord::from_meters_i128(x, y, z)));
    assert_eq!(at(0, 0, 20), 16.0);
    assert_eq!(at(7, 8, 0), 5.0);
    assert_eq!(at(-5, 6, -6), 3.0);
    assert_eq!(at(4, -4, 4), 0.0);
}

/// The search in plain terms: the cell of the camera and its neighbors, level by level.
fn plain_nearest(p: &GalaxyParams, camera: GalacticCoord, depth: u8) -> Option<(f64, Star)> {
    let mut best: Option<(f64, Star)> = None;
    let universe = f(p.universe_size_m);
    for level in 0..=depth.min(p.max_depth) {
        let size = universe / (1u64 << level) as f64;
        let rel = |v: i128| ((v as f64 + universe * 0.5) / size).floor() as i64;
        let cell = [rel(camera.x.raw()), rel(camera.y.raw()), rel(camera.z.raw())];
        for dz in -1..=1 {
            for dy in -1..=1 {
                for dx in -1..=1 {
                    let at = [cell[0] + dx, cell[1] + dy, cell[2] + dz];
                    if at.iter().any(|i| *i < 0 || *i >= 1 << level) {
                        continue;
                    }
                    let key = NodeKey::new(level, at[0] as u64, at[1] as u64, at[2] as u64);
                    for star in generate_stars(&maths, p, key) {
                        let distance = f(star.pos.distance_meters(camera));
                        if best.as_ref().map_or(true, |(b, _)| distance < *b) {
                            best = Some((distance, star));
                        }
                    }
                }
            }
        }
    }
    best
}

#[test]
fn nearest_star_is_the_nearest_of_the_probed_nodes() {
    let p = params(5, 1.0e18, 2.0e5, 9);
    let mut g = Galaxy::new(p, 64);
    for (x, y, z) in [(0.0, 0.0, 0.0), (3.0e17, -1.0e17, 2.0e17), (-4.9e17, 4.9e17, 0.0)] {
        let camera = GalacticCoord::from_meters_f64(Vector::new(d(x), d(y), d(z)));
        for depth in [0, 3, 5, 200] {
            let found = g.nearest_star(&maths, camera, depth);
            let expected = plain_nearest(&p, camera, depth).map(|(_, star)| star);
            assert_eq!(found, expected, "depth {depth}");
        }
    }
}

#[test]
fn an_empty_galaxy_has_no_nearest_star() {
    let mut g = Galaxy::new(params(5, 1.0e18, 0.0, 9), 64);
    assert_eq!(g.nearest_star(&maths, GalacticCoord::origin(), 4), None);
}

#[test]
fn queue_gives_the_largest_first() {
    let node = |angular: f64, depth: u8, ix: u64| QueuedNode {
        key: NodeKey::new(depth, ix, 0, 0),
        angular: d(angular),
    };
    let mut queue = NodeQueue::new();
    let mut expected: Vec<QueuedNode> = Vec::new();
    let mut state = 88172645463325252u64;
    for _ in 0..300 {
        state ^= state << 13;
        state ^= state >> 7;
        state ^= state << 17;
        let n = node((state % 17) as f64 * 0.25, (state >> 8) as u8 % 5, (state >> 20) % 7);
        queue.push(n);
        expected.push(n);
    }
    expected.sort_by(|a, b| {
        f(b.angular)
            .total_cmp(&f(a.angular))
            .then((b.key.depth, b.key.ix).cmp(&(a.key.depth, a.key.ix)))
    });
    let mut popped: Vec<QueuedNode> = Vec::new();
    while let Some(n) = queue.pop() {
        popped.push(n);
    }
    assert_eq!(popped, expected);
    assert_eq!(queue.pop(), None);
}

#[test]
fn cache_forgets_what_was_used_longest_ago() {
    let star = |x: i128| {
        vec![Star {
            pos: GalacticCoord::from_meters_i128(x, 0, 0),
            abs_mag: s(1.0),
            color: [s(1.0), s(1.0), s(1.0)],
            radius: s(1.0),
        }]
    };
    let key = |i: u64| NodeKey::new(5, i, 0, 0);
    let mut cache = NodeCache::new(2);
    assert!(cache.get(key(1)).is_none());
    assert_eq!(*cache.insert(key(1), star(1)), star(1));
    cache.insert(key(2), star(2));
    // Using the first makes the second the one to go.
    assert_eq!(*cache.get(key(1)).unwrap(), star(1));
    cache.insert(key(3), star(3));
    assert!(cache.get(key(2)).is_none());
    assert_eq!(*cache.get(key(3)).unwrap(), star(3));
    assert_eq!(*cache.get(key(1)).unwrap(), star(1));
    // The levels are part of the key.
    assert!(cache.get(NodeKey::new(4, 1, 0, 0)).is_none());
}

#[test]
fn a_small_cache_changes_nothing_but_the_counts() {
    let p = params(11, 1.0e18, 2.0e8, 10);
    let cam = GalacticCoord::from_meters_f64(Vector::splat(d(1.0e16)));
    let view = ViewParams {
        subdivide_angle: d(0.4),
        max_nodes: 300,
        ..Default::default()
    };
    let (mut small, mut large) = (Galaxy::new(p, 0), Galaxy::new(p, 1000));
    for pass in 0..2 {
        let (a, sa, na) = small.collect_visible(&maths, cam, &view);
        let (b, sb, nb) = large.collect_visible(&maths, cam, &view);
        assert_eq!((a, na), (b, nb));
        assert_eq!(sa.stars_generated, sb.stars_generated);
        assert_eq!(sa.cache_hits, 0);
        assert_eq!(sb.cache_hits, if pass == 0 { 0 } else { 300 });
    }
}

#[test]
fn checked_traversals_refuse_what_would_overflow() {
    let p = params(11, 1.0e18, 2.0e6, 10);
    let view = ViewParams {
        max_nodes: 50,
        ..Default::default()
    };
    let (mut checked, mut plain) = (Galaxy::new(p, 100), Galaxy::new(p, 100));
    let home = GalacticCoord::from_meters_i128(5, 6, 7);
    let found = checked.try_collect_visible(&maths, home, &view);
    assert_eq!(found, Some(plain.collect_visible(&maths, home, &view)));
    let star = checked.try_nearest_star(&maths, home, 4);
    assert_eq!(star, Some(plain.nearest_star(&maths, home, 4)));
    // Far away, and in a vast universe, what is visited can still be measured.
    let far = GalacticCoord::from_meters_i128(0, (1 << 125) + 1, 0);
    assert!(checked.try_collect_visible(&maths, far, &view).is_some());
    let outside = GalacticCoord::from_meters_i128(0, 0, 1 << 80);
    assert_eq!(checked.try_nearest_star(&maths, outside, 4), Some(None));
    // There are more cells on the way than can be counted.
    assert_eq!(checked.try_nearest_star(&maths, far, 4), None);
    let vast = params(11, 2f64.powi(121), 2.0e6, 10);
    assert!(Galaxy::new(vast, 4).try_collect_visible(&maths, home, &view).is_some());
    // Too far away, or too deep.
    let end = GalacticCoord::from_meters_i128(i128::MAX, 0, 0);
    assert_eq!(checked.try_collect_visible(&maths, end, &view), None);
    assert_eq!(checked.try_nearest_star(&maths, end, 4), None);
    let mut deep = Galaxy::new(params(11, 2f64.powi(100), 2.0e6, 200), 4);
    let inside = GalacticCoord::from_meters_i128(1 << 36, 1 << 36, 1 << 36);
    let endless = ViewParams {
        max_depth: 200,
        ..view
    };
    // The depth of the tree is no hindrance where the walk does not reach it.
    assert!(deep.try_collect_visible(&maths, inside, &endless).is_some());
    assert_eq!(deep.try_nearest_star(&maths, inside, 64), None);
    // A universe of no size has no cells.
    let mut point = Galaxy::new(params(11, 0.0, 2.0e6, 10), 4);
    assert_eq!(point.try_nearest_star(&maths, home, 4), None);
}

#[test]
fn levels_halve_the_edge() {
    let p = params(1, 131_072.0 * f64::from_bits(METERS_PER_LIGHT_YEAR), 1.0, 24);
    for depth in 0..64u8 {
        let edge = f(p.node_size_m(depth));
        assert_eq!(edge * 2f64.powi(depth as i32), f(p.universe_size_m), "depth {depth}");
    }
}

#[test]
fn apparent_magnitudes_are_finite_and_ordered() {
    let distances = [0.0, 1.0e-300, 1.0, 3.0e10, 3.0e10, 1.0e16, 1.0e18, 1.0e40, f64::MAX];
    for abs_mag in [-1000.0f32, -26.7, 0.0, 4.83, 1000.0] {
        let mut before = f32::NEG_INFINITY;
        for distance in distances {
            let m = fs(apparent_magnitude(&maths, s(abs_mag), d(distance)));
            assert!(m.is_finite() && m >= before, "{abs_mag} at {distance}");
            before = m;
        }
    }
}

#[test]
fn search_descends_to_the_deepest_level() {
    let mut g = Galaxy::new(params(1, 2f64.powi(70), 0.0, 63), 4096);
    let star = Star {
        pos: GalacticCoord::from_meters_i128(3, 0, 4),
        abs_mag: s(1.0),
        color: [s(1.0), s(1.0), s(1.0)],
        radius: s(1.0),
    };
    // The node that holds the camera, and one that is not next to it.
    let (own, other) = (1u64 << 62, (1u64 << 62) + 2);
    g.cache.insert(NodeKey::new(63, other, own, own), vec![star]);
    assert_eq!(g.nearest_star(&maths, GalacticCoord::origin(), 63), None);
    assert!(g.cache.get(NodeKey::new(63, own, own, own)).is_some());
    let mut g = Galaxy::new(params(1, 2f64.powi(70), 0.0, 63), 4096);
    g.cache.insert(NodeKey::new(63, own - 1, own, own + 1), vec![star]);
    assert_eq!(g.nearest_star(&maths, GalacticCoord::origin(), 62), None);
    assert_eq!(g.nearest_star(&maths, GalacticCoord::origin(), 63), Some(star));
}
