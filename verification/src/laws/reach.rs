//! Laws of what a galaxy caches, and of where it can be traversed and searched.
//!
//! A traversal measures distances between the camera and everything that it visits, and a
//! difference of coordinates has to fit. In a universe of up to 2^120 meters, seen from within
//! 2^125 meters of its center, all of them do.
use vstd::arithmetic::power2::*;
use vstd::multiset::Multiset;
use vstd::prelude::*;

use crate::cache::{after_look_up, entry_index, has_entry, is_entry_of, key_of, CacheKey};
use crate::coord::GalacticCoord;
use crate::generate::stars_of;
use crate::ieee::bounds::{
    lemma_opposite_within, lemma_power_code, lemma_product_within, lemma_within_grows, power_code,
    within,
};
use crate::ieee::encoding::Double;
use crate::laws::octree::lemma_first_exists;
use crate::laws::space::{
    is_central, is_ordinary, law_ordinary_galaxies_are_in_reach, lemma_measurable,
};
use crate::maths::Elementary;
use crate::nearest::{
    cells_in_range, nearest_in, search_in_reach, neighbors, nodes_around, probe_cap, probed_nodes,
};
use crate::node::NodeKey;
use crate::octree::{
    all_measurable, cache_in_reach, depth_cap, first_in, is_split, next_queue, root_queue, survey,
    tree_in_reach, walk_in_reach, can_queue, lemma_look_up_keeps_reach, with_children, Galaxy,
    TraverseStats, ViewParams, VisibleStar,
};
use crate::params::{GalaxyParams, Star, HALF};
use crate::queue::QueuedNode;
use crate::vector::Vector;

verus! {

/// The node of a cache key.
pub open spec fn node_of(key: CacheKey) -> NodeKey {
    NodeKey { depth: key.0, ix: key.1, iy: key.2, iz: key.3 }
}

/// Every cache entry is a node of the tree with the stars that generation gives it.
pub open spec fn are_native<M: Fn(Elementary, Double, Double) -> Double>(
    maths: M,
    params: GalaxyParams,
    entries: Seq<(CacheKey, Seq<Star>)>,
) -> bool {
    forall|i: int|
        0 <= i < entries.len() ==> {
            &&& node_of((#[trigger] entries[i]).0).is_down_to(63)
            &&& entries[i].1 == stars_of(maths, params, node_of(entries[i].0))
        }
}

impl Galaxy {
    /// The cache holds nothing but generated stars of nodes of the tree.
    pub open spec fn is_native<M: Fn(Elementary, Double, Double) -> Double>(self, maths: M) -> bool {
        are_native(maths, self.params, self.entries())
    }
}

/// Native entries can be measured from every central position of an ordinary universe.
proof fn lemma_native_is_in_reach<M: Fn(Elementary, Double, Double) -> Double>(
    maths: M,
    params: GalaxyParams,
    entries: Seq<(CacheKey, Seq<Star>)>,
    camera: GalacticCoord,
)
    requires
        are_native(maths, params, entries),
        is_ordinary(params),
        is_central(camera),
    ensures
        cache_in_reach(entries, camera),
{
    law_ordinary_galaxies_are_in_reach(maths, params, camera, 63);
    assert forall|i: int| 0 <= i < entries.len() implies all_measurable((#[trigger] entries[i]).1, camera) by {
        assert(node_of(entries[i].0).is_down_to(63));
    }
}

proof fn lemma_look_up_keeps_native<M: Fn(Elementary, Double, Double) -> Double>(
    maths: M,
    params: GalaxyParams,
    limit: nat,
    entries: Seq<(CacheKey, Seq<Star>)>,
    key: NodeKey,
)
    requires
        are_native(maths, params, entries),
        key.is_down_to(63),
    ensures
        are_native(
            maths,
            params,
            after_look_up(entries, limit, key, stars_of(maths, params, key)),
        ),
{
    let fresh = stars_of(maths, params, key);
    let next = after_look_up(entries, limit, key, fresh);
    let k = key_of(key);
    assert(node_of(k) == key);
    let j = entry_index(entries, k);
    if has_entry(entries, k) {
        assert(is_entry_of(entries, k, j));
    }
    assert forall|i: int| 0 <= i < next.len() implies {
        &&& node_of((#[trigger] next[i]).0).is_down_to(63)
        &&& next[i].1 == stars_of(maths, params, node_of(next[i].0))
    } by {
        if has_entry(entries, k) {
            if i == 0 {
                assert(next[0] == entries[j]);
            } else if i - 1 < j {
                assert(next[i] == entries[i - 1]);
            } else {
                assert(next[i] == entries[i]);
            }
        } else if i > 0 {
            assert(next[i] == entries[i - 1]);
        }
    }
}

/// Every queued node lies in the tree.
spec fn all_down(queue: Multiset<QueuedNode>, cap: u8) -> bool {
    forall|n: QueuedNode| #[trigger] queue.count(n) > 0 ==> n.key.is_down_to(cap)
}

proof fn lemma_children_keep_down(
    params: GalaxyParams,
    camera: GalacticCoord,
    queue: Multiset<QueuedNode>,
    key: NodeKey,
    i: nat,
    cap: u8,
)
    requires
        all_down(queue, cap),
        i <= 8,
        forall|c: int| 0 <= c < 8 ==> (#[trigger] key.child(c)).is_down_to(cap),
    ensures
        all_down(with_children(params, camera, queue, key, i), cap),
    decreases i,
{
    if i > 0 {
        lemma_children_keep_down(params, camera, queue, key, (i - 1) as nat, cap);
        assert(key.child(i - 1).is_down_to(cap));
        let before = with_children(params, camera, queue, key, (i - 1) as nat);
        let after = with_children(params, camera, queue, key, i);
        let kid = params.queued(key.child(i - 1), camera);
        assert forall|n: QueuedNode| #[trigger] after.count(n) > 0 implies n.key.is_down_to(cap) by {
            if n != kid {
                assert(before.count(n) > 0);
            }
        }
    }
}

proof fn lemma_survey_keeps_native<M: Fn(Elementary, Double, Double) -> Double>(
    maths: M,
    params: GalaxyParams,
    camera: GalacticCoord,
    view: ViewParams,
    limit: nat,
    queue: Multiset<QueuedNode>,
    entries: Seq<(CacheKey, Seq<Star>)>,
    budget: nat,
)
    requires
        depth_cap(params, view) < 64,
        are_native(maths, params, entries),
        all_down(queue, depth_cap(params, view)),
    ensures
        are_native(
            maths,
            params,
            survey(maths, params, camera, view, limit, queue, entries, budget).entries,
        ),
    decreases budget,
{
    if budget > 0 && queue.len() > 0 {
        let cap = depth_cap(params, view);
        lemma_first_exists(queue);
        let n = first_in(queue);
        assert(queue.count(n) > 0);
        let held = after_look_up(entries, limit, n.key, stars_of(maths, params, n.key));
        lemma_look_up_keeps_native(maths, params, limit, entries, n.key);
        let next = next_queue(params, camera, view, queue);
        let rest = queue.remove(n);
        assert forall|m: QueuedNode| #[trigger] rest.count(m) > 0 implies m.key.is_down_to(cap) by {
            assert(queue.count(m) > 0);
        }
        if is_split(params, view, n) {
            n.key.lemma_children_are_down(cap);
            lemma_children_keep_down(params, camera, rest, n.key, 8, cap);
        }
        lemma_survey_keeps_native(
            maths,
            params,
            camera,
            view,
            limit,
            next,
            held,
            (budget - 1) as nat,
        );
    }
}

/// A traversal of a native galaxy leaves it native: what it caches is what it generates.
pub proof fn law_traversal_keeps_the_galaxy_native<M: Fn(Elementary, Double, Double) -> Double>(
    maths: M,
    before: Galaxy,
    camera: GalacticCoord,
    view: ViewParams,
    stars: Seq<VisibleStar>,
    stats: TraverseStats,
    nodes: Seq<NodeKey>,
    after: Galaxy,
)
    requires
        before.is_native(maths),
        depth_cap(before.params, view) < 64,
        before.finds(maths, camera, view, stars, stats, nodes, after),
    ensures
        after.is_native(maths),
{
    let cap = depth_cap(before.params, view);
    let queue = root_queue(before.params, camera);
    NodeKey::lemma_root_is_down(cap);
    let root = before.params.queued(NodeKey { depth: 0, ix: 0, iy: 0, iz: 0 }, camera);
    assert forall|n: QueuedNode| #[trigger] queue.count(n) > 0 implies n.key.is_down_to(cap) by {
        assert(n == root);
    }
    lemma_survey_keeps_native(
        maths,
        before.params,
        camera,
        view,
        before.capacity(),
        queue,
        before.entries(),
        view.max_nodes as nat,
    );
}

proof fn lemma_search_keeps_native<M: Fn(Elementary, Double, Double) -> Double>(
    maths: M,
    params: GalaxyParams,
    camera: GalacticCoord,
    limit: nat,
    entries: Seq<(CacheKey, Seq<Star>)>,
    nodes: Seq<NodeKey>,
)
    requires
        are_native(maths, params, entries),
        forall|i: int| 0 <= i < nodes.len() ==> (#[trigger] nodes[i]).is_down_to(63),
    ensures
        are_native(maths, params, nearest_in(maths, params, camera, limit, entries, nodes).1),
    decreases nodes.len(),
{
    if nodes.len() > 0 {
        let before = nodes.drop_last();
        assert forall|i: int| 0 <= i < before.len() implies (#[trigger] before[i]).is_down_to(63) by {
            assert(before[i] == nodes[i]);
        }
        lemma_search_keeps_native(maths, params, camera, limit, entries, before);
        let held = nearest_in(maths, params, camera, limit, entries, before).1;
        assert(nodes[nodes.len() - 1].is_down_to(63));
        lemma_look_up_keeps_native(maths, params, limit, held, nodes.last());
    }
}

proof fn lemma_neighbors_are_down(depth: u8, i: int, j: int, k: int, n: nat)
    requires
        depth < 64,
    ensures
        forall|m: int|
            0 <= m < neighbors(depth, i, j, k, n).len() ==> (#[trigger] neighbors(
                depth,
                i,
                j,
                k,
                n,
            )[m]).is_down_to(63),
    decreases n,
{
    if n > 0 {
        lemma_neighbors_are_down(depth, i, j, k, (n - 1) as nat);
        let before = neighbors(depth, i, j, k, (n - 1) as nat);
        let after = neighbors(depth, i, j, k, n);
        lemma2_to64_rest();
        if depth < 63 {
            lemma_pow2_strictly_increases(depth as nat, 63);
        }
        assert forall|m: int| 0 <= m < after.len() implies (#[trigger] after[m]).is_down_to(63) by {
            if m < before.len() {
                assert(after[m] == before[m]);
            }
        }
    }
}

proof fn lemma_probed_are_down(params: GalaxyParams, camera: GalacticCoord, n: nat)
    requires
        n <= 64,
    ensures
        forall|i: int|
            0 <= i < probed_nodes(params, camera, n).len() ==> (#[trigger] probed_nodes(
                params,
                camera,
                n,
            )[i]).is_down_to(63),
    decreases n,
{
    if n > 0 {
        lemma_probed_are_down(params, camera, (n - 1) as nat);
        let rel = camera.relative(params.universe_corner());
        let depth = (n - 1) as u8;
        lemma_neighbors_are_down(
            depth,
            params.cell_index(rel.x, depth),
            params.cell_index(rel.y, depth),
            params.cell_index(rel.z, depth),
            27,
        );
        let (a, b) = (probed_nodes(params, camera, (n - 1) as nat), nodes_around(params, camera, depth));
        let all = probed_nodes(params, camera, n);
        assert forall|i: int| 0 <= i < all.len() implies (#[trigger] all[i]).is_down_to(63) by {
            if i < a.len() {
                assert(all[i] == a[i]);
            } else {
                assert(all[i] == b[i - a.len()]);
            }
        }
    }
}

/// A search for the nearest star leaves a native galaxy native.
pub proof fn law_search_keeps_the_galaxy_native<M: Fn(Elementary, Double, Double) -> Double>(
    maths: M,
    before: Galaxy,
    camera: GalacticCoord,
    probe_depth: u8,
    star: Option<Star>,
    after: Galaxy,
)
    requires
        before.is_native(maths),
        probe_cap(before.params, probe_depth) < 64,
        before.nearest_is(maths, camera, probe_depth, star, after),
    ensures
        after.is_native(maths),
{
    let n = (probe_cap(before.params, probe_depth) + 1) as nat;
    lemma_probed_are_down(before.params, camera, n);
    lemma_search_keeps_native(
        maths,
        before.params,
        camera,
        before.capacity(),
        before.entries(),
        probed_nodes(before.params, camera, n),
    );
}

proof fn lemma_corner_is_measurable(params: GalaxyParams, camera: GalacticCoord)
    requires
        is_ordinary(params),
        is_central(camera),
    ensures
        camera.measurable_from(params.universe_corner()),
{
    let half = Double { bits: HALF };
    lemma_power_code(-1);
    assert(half.code() == power_code(-1));
    lemma_product_within(params.universe_size_m, 120, half, -1);
    let h = params.universe_size_m.product(half);
    lemma_within_grows(h, 119, 122);
    lemma_opposite_within(h, 122);
    lemma_measurable(Vector::even(h.opposite()), camera);
}

proof fn lemma_walk_fits<M: Fn(Elementary, Double, Double) -> Double>(
    maths: M,
    params: GalaxyParams,
    camera: GalacticCoord,
    view: ViewParams,
    limit: nat,
    queue: Multiset<QueuedNode>,
    entries: Seq<(CacheKey, Seq<Star>)>,
    budget: nat,
)
    requires
        depth_cap(params, view) < 64,
        tree_in_reach(maths, params, camera, depth_cap(params, view)),
        cache_in_reach(entries, camera),
        all_down(queue, depth_cap(params, view)),
    ensures
        walk_in_reach(maths, params, camera, view, limit, queue, entries, budget),
    decreases budget,
{
    if budget > 0 && queue.len() > 0 {
        let cap = depth_cap(params, view);
        lemma_first_exists(queue);
        let n = first_in(queue);
        assert(queue.count(n) > 0);
        assert(n.key.is_down_to(cap));
        let fresh = stars_of(maths, params, n.key);
        lemma_look_up_keeps_reach(entries, limit, camera, n.key, fresh);
        let rest = queue.remove(n);
        assert forall|m: QueuedNode| #[trigger] rest.count(m) > 0 implies m.key.is_down_to(cap) by {
            assert(queue.count(m) > 0);
        }
        if is_split(params, view, n) {
            n.key.lemma_children_are_down(cap);
            lemma_children_keep_down(params, camera, rest, n.key, 8, cap);
            assert forall|i: int| 0 <= i < 8 implies can_queue(
                params,
                camera,
                #[trigger] n.key.child(i),
            ) by {
                assert(n.key.child(i).is_down_to(cap));
            }
        }
        lemma_walk_fits(
            maths,
            params,
            camera,
            view,
            limit,
            next_queue(params, camera, view, queue),
            after_look_up(entries, limit, n.key, fresh),
            (budget - 1) as nat,
        );
    }
}

/// A traversal of a native galaxy of at most 2^120 meters, seen from within 2^125 meters of its
/// center, overflows nothing.
pub proof fn law_ordinary_galaxies_can_be_traversed<M: Fn(Elementary, Double, Double) -> Double>(
    maths: M,
    galaxy: Galaxy,
    camera: GalacticCoord,
    view: ViewParams,
)
    requires
        galaxy.is_native(maths),
        is_ordinary(galaxy.params),
        is_central(camera),
        depth_cap(galaxy.params, view) < 64,
    ensures
        galaxy.walk_fits(maths, camera, view),
{
    let params = galaxy.params;
    let cap = depth_cap(params, view);
    law_ordinary_galaxies_are_in_reach(maths, params, camera, cap);
    lemma_native_is_in_reach(maths, params, galaxy.entries(), camera);
    NodeKey::lemma_root_is_down(cap);
    let queue = root_queue(params, camera);
    let root = params.queued(NodeKey { depth: 0, ix: 0, iy: 0, iz: 0 }, camera);
    assert forall|n: QueuedNode| #[trigger] queue.count(n) > 0 implies n.key.is_down_to(cap) by {
        assert(n == root);
    }
    lemma_walk_fits(
        maths,
        params,
        camera,
        view,
        galaxy.capacity(),
        queue,
        galaxy.entries(),
        view.max_nodes as nat,
    );
}

proof fn lemma_search_fits<M: Fn(Elementary, Double, Double) -> Double>(
    maths: M,
    params: GalaxyParams,
    camera: GalacticCoord,
    limit: nat,
    entries: Seq<(CacheKey, Seq<Star>)>,
    nodes: Seq<NodeKey>,
)
    requires
        is_ordinary(params),
        is_central(camera),
        are_native(maths, params, entries),
        forall|i: int| 0 <= i < nodes.len() ==> (#[trigger] nodes[i]).is_down_to(63),
    ensures
        search_in_reach(maths, params, camera, limit, entries, nodes),
    decreases nodes.len(),
{
    if nodes.len() > 0 {
        let before = nodes.drop_last();
        assert forall|i: int| 0 <= i < before.len() implies (#[trigger] before[i]).is_down_to(63) by {
            assert(before[i] == nodes[i]);
        }
        lemma_search_fits(maths, params, camera, limit, entries, before);
        lemma_search_keeps_native(maths, params, camera, limit, entries, before);
        let held = nearest_in(maths, params, camera, limit, entries, before).1;
        lemma_native_is_in_reach(maths, params, held, camera);
        law_ordinary_galaxies_are_in_reach(maths, params, camera, 63);
        assert(nodes[nodes.len() - 1].is_down_to(63));
        lemma_look_up_keeps_reach(
            held,
            limit,
            camera,
            nodes.last(),
            stars_of(maths, params, nodes.last()),
        );
    }
}

/// A search in a native galaxy of at most 2^120 meters, from within 2^125 meters of its center,
/// overflows nothing where the indices of the cells around the camera do not.
pub proof fn law_ordinary_galaxies_can_be_searched<M: Fn(Elementary, Double, Double) -> Double>(
    maths: M,
    galaxy: Galaxy,
    camera: GalacticCoord,
    probe_depth: u8,
)
    requires
        galaxy.is_native(maths),
        is_ordinary(galaxy.params),
        is_central(camera),
        probe_cap(galaxy.params, probe_depth) < 64,
        forall|d: u8|
            d <= probe_cap(galaxy.params, probe_depth) ==> #[trigger] cells_in_range(
                galaxy.params,
                camera,
                d,
            ),
    ensures
        galaxy.search_fits(maths, camera, probe_depth),
{
    let n = (probe_cap(galaxy.params, probe_depth) + 1) as nat;
    lemma_corner_is_measurable(galaxy.params, camera);
    lemma_probed_are_down(galaxy.params, camera, n);
    lemma_search_fits(
        maths,
        galaxy.params,
        camera,
        galaxy.capacity(),
        galaxy.entries(),
        probed_nodes(galaxy.params, camera, n),
    );
}

} // verus!
