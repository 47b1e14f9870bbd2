//! Octree traversal, level-of-detail selection, physical visibility culling, and the cache of
//! generated node contents.
//!
//! The traversal walks the tree top-down. A node is subdivided when it is both large enough on
//! screen (angular-size heuristic) and shallow enough to still own dimmer stars worth revealing.
//! For every visited node we generate (or fetch from cache) its stars, then keep only those
//! whose apparent magnitude, computed from absolute magnitude and true distance to the camera,
//! passes a configurable limit.
use std::sync::Arc;

use vstd::arithmetic::power2::*;
use vstd::multiset::Multiset;
use vstd::prelude::*;

use crate::cache::{
    after_look_up, entry_index, has_entry, is_entry_of, key_of, looked_up, CacheKey, NodeCache,
};
use crate::coord::{GalacticCoord, METERS_PER_PARSEC};
use crate::generate::{exp_has_floor, generate_stars, stars_of};
use crate::ieee::convert::saturated;
use crate::ieee::{Double, Single};
use crate::maths::{evaluate, reliable, value_of, Elementary};
use crate::node::NodeKey;
use crate::params::{GalaxyParams, Star, HALF, ONE, ZERO};
use crate::queue::{lemma_ranks_are_total, NodeQueue, QueuedNode};
use crate::vector::Vector;

verus! {

/// A distance in parsecs, at least a millionth of one.
pub open spec fn parsecs(distance_m: Double) -> Double {
    distance_m.quotient(Double { bits: METERS_PER_PARSEC }).larger(Double { bits: 0x3eb0_c6f7_a0b5_ed8d /* 1e-6 */ })
}

/// Apparent magnitude of a star of absolute magnitude `abs_mag` at a distance with the decimal
/// logarithm `log` in parsecs: five magnitudes for every factor of ten beyond ten parsecs.
pub open spec fn dimmed(abs_mag: Single, log: Double) -> Single {
    abs_mag.sum((Single { bits: 0x40a0_0000 /* 5.0 */ }).product(log.difference(Double { bits: ONE }).narrowed()))
}

/// Apparent magnitude of a star of absolute magnitude `abs_mag` seen from `distance_m` meters.
pub open spec fn apparent<M: Fn(Elementary, Double, Double) -> Double>(
    maths: M,
    abs_mag: Single,
    distance_m: Double,
) -> Single {
    dimmed(
        abs_mag,
        value_of(maths, Elementary::Log10, parsecs(distance_m), Double { bits: ZERO }),
    )
}

/// A distance in parsecs, at least a millionth of one.
pub fn distance_in_parsecs(distance_m: Double) -> (r: Double)
    ensures
        r == parsecs(distance_m),
{
    distance_m.over(Double { bits: METERS_PER_PARSEC }).max(Double { bits: 0x3eb0_c6f7_a0b5_ed8d /* 1e-6 */ })
}

/// Apparent magnitude at a distance with the decimal logarithm `log` in parsecs.
pub fn magnitude_at_log_distance(abs_mag: Single, log: Double) -> (r: Single)
    ensures
        r == dimmed(abs_mag, log),
{
    abs_mag.plus(Single { bits: 0x40a0_0000 /* 5.0 */ }.times(log.minus(Double { bits: ONE }).to_single()))
}

/// Apparent magnitude of a star of absolute magnitude `abs_mag` seen from `distance_m` meters.
pub fn apparent_magnitude<M: Fn(Elementary, Double, Double) -> Double>(
    maths: &M,
    abs_mag: Single,
    distance_m: Double,
) -> (r: Single)
    requires
        reliable(*maths),
    ensures
        r == apparent(*maths, abs_mag, distance_m),
{
    let d_pc: Double = distance_in_parsecs(distance_m);
    magnitude_at_log_distance(
        abs_mag,
        evaluate(maths, Elementary::Log10, d_pc, Double { bits: ZERO }),
    )
}

/// Tunable parameters for a single frame's traversal.
#[derive(Clone, Copy, Debug)]
pub struct ViewParams {
    /// Faintest apparent magnitude that is still rendered (larger = more stars).
    pub mag_limit: Single,
    /// Width (in magnitudes) of the fade band just below `mag_limit`. Stars in it ramp their
    /// brightness from full to zero, so faint stars appear and disappear smoothly.
    pub fade_width: Single,
    /// A node is subdivided when its angular size (rad) exceeds this.
    pub subdivide_angle: Double,
    /// Hard cap on traversal depth (safety / performance).
    pub max_depth: u8,
    /// Hard cap on nodes visited per frame.
    pub max_nodes: usize,
}

impl ViewParams {
    /// What a viewer starts with.
    pub open spec fn usual() -> ViewParams {
        ViewParams {
            mag_limit: Single { bits: 0x4120_0000 /* 10.0 */ },
            fade_width: Single { bits: 0x3fc0_0000 /* 1.5 */ },
            subdivide_angle: Double { bits: ONE },
            max_depth: 24,
            max_nodes: 5_000,
        }
    }
}

impl Default for ViewParams {
    fn default() -> (r: ViewParams)
        ensures
            r == ViewParams::usual(),
    {
        ViewParams {
            mag_limit: Single { bits: 0x4120_0000 /* 10.0 */ },
            fade_width: Single { bits: 0x3fc0_0000 /* 1.5 */ },
            subdivide_angle: Double { bits: ONE },
            max_depth: 24,
            max_nodes: 5_000,
        }
    }
}

/// A visible star together with a view-dependent fade weight in `[0, 1]` that the renderer
/// multiplies into the star's intensity.
#[derive(Clone, Copy, PartialEq, Debug)]
pub struct VisibleStar {
    pub star: Star,
    pub fade: Single,
}

/// Diagnostics collected during a traversal (surfaced in the debug overlay).
#[derive(Clone, Copy, PartialEq, Eq, Structural, Debug)]
pub struct TraverseStats {
    pub nodes_visited: usize,
    pub nodes_subdivided: usize,
    pub stars_generated: usize,
    pub stars_visible: usize,
    pub cache_hits: usize,
    pub cache_misses: usize,
}

impl TraverseStats {
    /// Nothing was visited.
    pub open spec fn nothing() -> TraverseStats {
        TraverseStats {
            nodes_visited: 0,
            nodes_subdivided: 0,
            stars_generated: 0,
            stars_visible: 0,
            cache_hits: 0,
            cache_misses: 0,
        }
    }
}

impl Default for TraverseStats {
    fn default() -> (r: TraverseStats)
        ensures
            r == TraverseStats::nothing(),
    {
        TraverseStats {
            nodes_visited: 0,
            nodes_subdivided: 0,
            stars_generated: 0,
            stars_visible: 0,
            cache_hits: 0,
            cache_misses: 0,
        }
    }
}

/// The brightness weight of a star of apparent magnitude `m`: one well above the magnitude
/// limit, down to zero at the limit.
pub open spec fn fade_at(view: ViewParams, m: Single) -> Single {
    view.mag_limit.difference(m).quotient(view.fade_width.larger(Single { bits: 0x3a83_126f /* 1e-3 */ })).clamped(
        Single { bits: 0x0000_0000 /* 0.0 */ },
        Single { bits: 0x3f80_0000 /* 1.0 */ },
    )
}

/// The brightness weight of a star seen from `camera`.
#[verifier::opaque]
pub open spec fn fade_of<M: Fn(Elementary, Double, Double) -> Double>(
    maths: M,
    camera: GalacticCoord,
    view: ViewParams,
    star: Star,
) -> Single {
    fade_at(view, apparent(maths, star.abs_mag, star.pos.distance(camera)))
}

impl ViewParams {
    /// The brightness weight of a star of apparent magnitude `m`: one well above the magnitude
    /// limit, down to zero at the limit.
    pub fn fade(&self, m: Single) -> (r: Single)
        ensures
            r == fade_at(*self, m),
    {
        let fade_w: Single = self.fade_width.max(Single { bits: 0x3a83_126f /* 1e-3 */ });
        self.mag_limit.minus(m).over(fade_w).clamp(Single { bits: 0x0000_0000 /* 0.0 */ }, Single { bits: 0x3f80_0000 /* 1.0 */ })
    }
}

/// The stars of a node that are visible from `camera`, in order.
pub open spec fn visible_among<M: Fn(Elementary, Double, Double) -> Double>(
    maths: M,
    camera: GalacticCoord,
    view: ViewParams,
    stars: Seq<Star>,
) -> Seq<VisibleStar>
    decreases stars.len(),
{
    if stars.len() == 0 {
        Seq::empty()
    } else {
        let shown = visible_among(maths, camera, view, stars.drop_last());
        let fade = fade_of(maths, camera, view, stars.last());
        if (Single { bits: 0x0000_0000 /* 0.0 */ }).less(fade) {
            shown.push(VisibleStar { star: stars.last(), fade })
        } else {
            shown
        }
    }
}

impl GalaxyParams {
    /// The center of a node.
    pub open spec fn center(self, key: NodeKey) -> GalacticCoord {
        GalacticCoord::nearest_to(
            self.corner(key).sum(
                Vector::even(self.node_size(key.depth).product(Double { bits: HALF })),
            ),
        )
    }

    /// The min corner of a node as a position.
    pub open spec fn corner_position(self, key: NodeKey) -> GalacticCoord {
        GalacticCoord::nearest_to(self.corner(key))
    }

    /// The distance from `camera` to the nearest point of a node's cube: from the camera, seen
    /// from the min corner, to the same brought into the cube.
    pub open spec fn near_distance(self, key: NodeKey, camera: GalacticCoord) -> Double {
        let min = self.corner(key);
        let extent = min.sum(Vector::even(self.node_size(key.depth))).difference(min);
        let cam = camera.relative(self.corner_position(key));
        cam.difference(cam.confined(Vector::even(Double { bits: ZERO }), extent)).norm()
    }

    /// The angular size of a node: its edge over its distance, taken as at least one meter.
    #[verifier::opaque]
    pub open spec fn angular_size(self, key: NodeKey, camera: GalacticCoord) -> Double {
        self.node_size(key.depth).quotient(
            self.near_distance(key, camera).larger(Double { bits: ONE }),
        )
    }

    /// The queue entry of a node.
    pub open spec fn queued(self, key: NodeKey, camera: GalacticCoord) -> QueuedNode {
        QueuedNode { key, angular: self.angular_size(key, camera) }
    }
}

/// The node that comes first in a queue.
pub open spec fn first_in(queue: Multiset<QueuedNode>) -> QueuedNode {
    choose|n: QueuedNode| is_first(queue, n)
}

/// `n` is in the queue and nothing there outranks it.
pub open spec fn is_first(queue: Multiset<QueuedNode>, n: QueuedNode) -> bool {
    &&& queue.count(n) > 0
    &&& forall|m: QueuedNode| queue.count(m) > 0 ==> !#[trigger] m.outranks(n)
}

/// A queue together with the first `i` children of a node.
pub open spec fn with_children(
    params: GalaxyParams,
    camera: GalacticCoord,
    queue: Multiset<QueuedNode>,
    key: NodeKey,
    i: nat,
) -> Multiset<QueuedNode>
    decreases i,
{
    if i == 0 {
        queue
    } else {
        with_children(params, camera, queue, key, (i - 1) as nat).insert(
            params.queued(key.child(i - 1), camera),
        )
    }
}

/// A node is subdivided.
pub open spec fn is_split(params: GalaxyParams, view: ViewParams, n: QueuedNode) -> bool {
    &&& n.key.depth < view.max_depth
    &&& n.key.depth < params.max_depth
    &&& view.subdivide_angle.less(n.angular)
}

/// What a traversal finds.
pub ghost struct Survey {
    /// The visible stars.
    pub stars: Seq<VisibleStar>,
    /// The visited nodes.
    pub nodes: Seq<NodeKey>,
    /// How many of them were subdivided.
    pub subdivided: nat,
    /// How many stars they own.
    pub generated: nat,
    /// How many of them were found in the cache.
    pub hits: nat,
    /// What the cache holds in the end.
    pub entries: Seq<(CacheKey, Seq<Star>)>,
}

/// The best-first traversal from a queue of nodes and a cache, over at most `budget` nodes.
pub open spec fn survey<M: Fn(Elementary, Double, Double) -> Double>(
    maths: M,
    params: GalaxyParams,
    camera: GalacticCoord,
    view: ViewParams,
    limit: nat,
    queue: Multiset<QueuedNode>,
    entries: Seq<(CacheKey, Seq<Star>)>,
    budget: nat,
) -> Survey
    decreases budget,
{
    if budget == 0 || queue.len() == 0 {
        Survey {
            stars: Seq::empty(),
            nodes: Seq::empty(),
            subdivided: 0,
            generated: 0,
            hits: 0,
            entries,
        }
    } else {
        let n = first_in(queue);
        let fresh = stars_of(maths, params, n.key);
        let stars = looked_up(entries, n.key, fresh);
        let rest = survey(
            maths,
            params,
            camera,
            view,
            limit,
            next_queue(params, camera, view, queue),
            after_look_up(entries, limit, n.key, fresh),
            (budget - 1) as nat,
        );
        Survey {
            stars: visible_among(maths, camera, view, stars) + rest.stars,
            nodes: seq![n.key] + rest.nodes,
            subdivided: rest.subdivided + if is_split(params, view, n) {
                1nat
            } else {
                0
            },
            generated: rest.generated + stars.len(),
            hits: rest.hits + if has_entry(entries, key_of(n.key)) {
                1nat
            } else {
                0
            },
            entries: rest.entries,
        }
    }
}

/// A node can be queued: its size is in range, and its corner can be measured from `camera`.
pub open spec fn can_queue(params: GalaxyParams, camera: GalacticCoord, key: NodeKey) -> bool {
    key.depth < 64 && camera.measurable_from(params.corner_position(key))
}

/// Everything that a traversal measures, of the nodes that it visits and their children, can be
/// measured.
pub open spec fn walk_in_reach<M: Fn(Elementary, Double, Double) -> Double>(
    maths: M,
    params: GalaxyParams,
    camera: GalacticCoord,
    view: ViewParams,
    limit: nat,
    queue: Multiset<QueuedNode>,
    entries: Seq<(CacheKey, Seq<Star>)>,
    budget: nat,
) -> bool
    decreases budget,
{
    if budget == 0 || queue.len() == 0 {
        true
    } else {
        let n = first_in(queue);
        let fresh = stars_of(maths, params, n.key);
        &&& all_measurable(looked_up(entries, n.key, fresh), camera)
        &&& is_split(params, view, n) ==> forall|i: int|
            0 <= i < 8 ==> can_queue(params, camera, #[trigger] n.key.child(i))
        &&& walk_in_reach(
            maths,
            params,
            camera,
            view,
            limit,
            next_queue(params, camera, view, queue),
            after_look_up(entries, limit, n.key, fresh),
            (budget - 1) as nat,
        )
    }
}

/// The queue after its first node was visited.
pub open spec fn next_queue(
    params: GalaxyParams,
    camera: GalacticCoord,
    view: ViewParams,
    queue: Multiset<QueuedNode>,
) -> Multiset<QueuedNode> {
    let n = first_in(queue);
    if is_split(params, view, n) {
        with_children(params, camera, queue.remove(n), n.key, 8)
    } else {
        queue.remove(n)
    }
}

/// The queue with which a traversal starts: the root alone.
pub open spec fn root_queue(params: GalaxyParams, camera: GalacticCoord) -> Multiset<QueuedNode> {
    Multiset::<QueuedNode>::empty().insert(
        params.queued(NodeKey { depth: 0, ix: 0, iy: 0, iz: 0 }, camera),
    )
}

/// The depth that a traversal does not exceed.
pub open spec fn depth_cap(params: GalaxyParams, view: ViewParams) -> u8 {
    if view.max_depth < params.max_depth {
        view.max_depth
    } else {
        params.max_depth
    }
}

/// Every node down to `depth` can be measured from `camera`, with its stars.
pub open spec fn tree_in_reach<M: Fn(Elementary, Double, Double) -> Double>(
    maths: M,
    params: GalaxyParams,
    camera: GalacticCoord,
    depth: u8,
) -> bool {
    forall|key: NodeKey| #[trigger]
        key.is_down_to(depth) ==> {
            &&& camera.measurable_from(params.corner_position(key))
            &&& all_measurable(stars_of(maths, params, key), camera)
        }
}

/// Every cached star can be measured from `camera`.
pub open spec fn cache_in_reach(entries: Seq<(CacheKey, Seq<Star>)>, camera: GalacticCoord) -> bool {
    forall|i: int| 0 <= i < entries.len() ==> all_measurable((#[trigger] entries[i]).1, camera)
}

/// The stars can be measured from `camera`.
pub open spec fn all_measurable(stars: Seq<Star>, camera: GalacticCoord) -> bool {
    forall|i: int| 0 <= i < stars.len() ==> (#[trigger] stars[i]).pos.measurable_from(camera)
}

/// Nothing outranks two different nodes of a queue.
proof fn lemma_first_is_unique(queue: Multiset<QueuedNode>, n: QueuedNode)
    requires
        is_first(queue, n),
    ensures
        first_in(queue) == n,
{
    let f = first_in(queue);
    assert(is_first(queue, f));
    lemma_ranks_are_total(f, n, n);
    assert(!f.outranks(n) && !n.outranks(f));
}

/// Looking up keeps what is measurable measurable.
pub proof fn lemma_look_up_keeps_reach(
    entries: Seq<(CacheKey, Seq<Star>)>,
    limit: nat,
    camera: GalacticCoord,
    key: NodeKey,
    fresh: Seq<Star>,
)
    requires
        cache_in_reach(entries, camera),
        all_measurable(fresh, camera),
    ensures
        cache_in_reach(after_look_up(entries, limit, key, fresh), camera),
        all_measurable(looked_up(entries, key, fresh), camera),
{
    let next = after_look_up(entries, limit, key, fresh);
    let k = key_of(key);
    if has_entry(entries, k) {
        let j = entry_index(entries, k);
        assert(is_entry_of(entries, k, j));
        assert forall|i: int| 0 <= i < next.len() implies all_measurable((#[trigger] next[i]).1, camera) by {
            if i == 0 {
                assert(next[0] == entries[j]);
            } else if i - 1 < j {
                assert(next[i] == entries[i - 1]);
            } else {
                assert(next[i] == entries[i]);
            }
        }
    } else {
        assert forall|i: int| 0 <= i < next.len() implies all_measurable((#[trigger] next[i]).1, camera) by {
            if i == 0 {
                assert(next[0] == (k, fresh));
            } else {
                assert(next[i] == entries[i - 1]);
            }
        }
    }
}

/// Holds the galaxy parameters and a cache of generated node contents.
pub struct Galaxy {
    pub params: GalaxyParams,
    pub cache: NodeCache,
}

impl Galaxy {
    /// What the cache holds, the most recently used entry first.
    pub open spec fn entries(self) -> Seq<(CacheKey, Seq<Star>)> {
        self.cache.entries()
    }

    /// How many nodes the cache can hold.
    pub open spec fn capacity(self) -> nat {
        self.cache.limit()
    }

    /// What a traversal from `camera` gives, and the galaxy after it.
    pub open spec fn finds<M: Fn(Elementary, Double, Double) -> Double>(
        self,
        maths: M,
        camera: GalacticCoord,
        view: ViewParams,
        stars: Seq<VisibleStar>,
        stats: TraverseStats,
        nodes: Seq<NodeKey>,
        after: Galaxy,
    ) -> bool {
        let found = survey(
            maths,
            self.params,
            camera,
            view,
            self.capacity(),
            root_queue(self.params, camera),
            self.entries(),
            view.max_nodes as nat,
        );
        &&& stars == found.stars
        &&& nodes == found.nodes
        &&& stats.nodes_visited == found.nodes.len()
        &&& stats.nodes_subdivided == found.subdivided
        &&& stats.stars_generated == saturated(found.generated as int, 0, usize::MAX as int)
        &&& stats.stars_visible == found.stars.len()
        &&& stats.cache_hits == found.hits
        &&& stats.cache_misses == found.nodes.len() - found.hits
        &&& after.params == self.params
        &&& after.capacity() == self.capacity()
        &&& after.entries() == found.entries
    }

    /// A traversal from `camera` overflows nothing.
    pub open spec fn walk_fits<M: Fn(Elementary, Double, Double) -> Double>(
        self,
        maths: M,
        camera: GalacticCoord,
        view: ViewParams,
    ) -> bool {
        &&& can_queue(self.params, camera, NodeKey { depth: 0, ix: 0, iy: 0, iz: 0 })
        &&& walk_in_reach(
            maths,
            self.params,
            camera,
            view,
            self.capacity(),
            root_queue(self.params, camera),
            self.entries(),
            view.max_nodes as nat,
        )
    }

    /// A galaxy with an empty cache for `cache_capacity` nodes, at least one.
    pub fn new(params: GalaxyParams, cache_capacity: usize) -> (r: Galaxy)
        requires
            cache_capacity <= usize::MAX / 256,
        ensures
            r.params == params,
            r.entries() == Seq::<(CacheKey, Seq<Star>)>::empty(),
            r.capacity() == if cache_capacity == 0 {
                1
            } else {
                cache_capacity as nat
            },
    {
        Galaxy {
            params,
            cache: NodeCache::new(if cache_capacity == 0 {
                1
            } else {
                cache_capacity
            }),
        }
    }

    /// Center of a node in absolute galactic coordinates.
    pub fn node_center(&self, key: NodeKey) -> (r: GalacticCoord)
        requires
            key.depth < 64,
        ensures
            r == self.params.center(key),
    {
        let size: Double = self.params.node_size_m(key.depth);
        let min: Vector = self.params.node_min_m(key);
        GalacticCoord::from_meters_f64(min.plus(Vector::splat(size.times(Double { bits: HALF }))))
    }

    /// Min corner of a node in absolute meters plus its edge size (meters).
    ///
    /// Exposed for debug tooling (e.g. the wireframe overlay) that needs the cube's world bounds
    /// of an arbitrary node key.
    pub fn node_bounds(&self, key: NodeKey) -> (r: (Vector, Double))
        requires
            key.depth < 64,
        ensures
            r == (self.params.corner(key), self.params.node_size(key.depth)),
    {
        let size: Double = self.params.node_size_m(key.depth);
        (self.params.node_min_m(key), size)
    }

    /// Distance in meters from `camera` to the nearest point of a node's cube.
    ///
    /// Using the nearest point (not the center) is essential for correct level of detail: a huge
    /// shallow node whose center is far away may still touch the camera, in which case it must
    /// subdivide.
    pub fn node_near_dist(&self, key: NodeKey, camera: GalacticCoord) -> (r: Double)
        requires
            key.depth < 64,
            camera.measurable_from(self.params.corner_position(key)),
        ensures
            r == self.params.near_distance(key, camera),
    {
        let size: Double = self.params.node_size_m(key.depth);
        let min: Vector = self.params.node_min_m(key);
        let max: Vector = min.plus(Vector::splat(size));
        // Camera position relative to the box min corner, in meters. Using the box min as the
        // floating origin keeps the subtraction exact.
        let origin: GalacticCoord = GalacticCoord::from_meters_f64(min);
        let cam: Vector = camera.relative_f64(origin);
        let extent: Vector = max.minus(min);
        let clamped: Vector = cam.clamp(Vector::splat(Double { bits: ZERO }), extent);
        cam.minus(clamped).length()
    }

    /// Build a queue entry for `key`, computing its angular importance from the nearest
    /// distance.
    fn make_queued(&self, key: NodeKey, camera: GalacticCoord) -> (r: QueuedNode)
        requires
            key.depth < 64,
            camera.measurable_from(self.params.corner_position(key)),
        ensures
            r == self.params.queued(key, camera),
    {
        reveal(GalaxyParams::angular_size);
        let size: Double = self.params.node_size_m(key.depth);
        let near: Double = self.node_near_dist(key, camera).max(Double { bits: ONE });
        QueuedNode { key, angular: size.over(near) }
    }

    /// Fetch (or generate and cache) the stars owned by a node, and tell whether they were
    /// cached.
    pub(crate) fn stars<M: Fn(Elementary, Double, Double) -> Double>(&mut self, maths: &M, key: NodeKey) -> (r: (Arc<Vec<Star>>, bool))
        requires
            reliable(*maths),
            exp_has_floor(*maths),
            key.depth < 64,
        ensures
            final(self).params == old(self).params,
            final(self).capacity() == old(self).capacity(),
            r.0@ == looked_up(old(self).entries(), key, stars_of(*maths, old(self).params, key)),
            final(self).entries() == after_look_up(
                old(self).entries(),
                old(self).capacity(),
                key,
                stars_of(*maths, old(self).params, key),
            ),
            r.1 == has_entry(old(self).entries(), key_of(key)),
    {
        if let Some(v) = self.cache.get(key) {
            return (v, true);
        }
        let stars: Vec<Star> = generate_stars(maths, &self.params, key);
        (self.cache.insert(key, stars), false)
    }
}

/// Appends the stars of a node that are visible from `camera`.
fn append_visible<M: Fn(Elementary, Double, Double) -> Double>(
    maths: &M,
    camera: GalacticCoord,
    view: &ViewParams,
    stars: &Vec<Star>,
    out: &mut Vec<VisibleStar>,
)
    requires
        reliable(*maths),
        all_measurable(stars@, camera),
    ensures
        final(out)@ == old(out)@ + visible_among(*maths, camera, *view, stars@),
{
    let mut i: usize = 0;
    let ghost before = out@;
    assert(stars@.take(0) =~= Seq::empty());
    assert(out@ =~= before + visible_among(*maths, camera, *view, stars@.take(0)));
    while i < stars.len()
        invariant
            i <= stars.len(),
            reliable(*maths),
            all_measurable(stars@, camera),
            out@ == before + visible_among(*maths, camera, *view, stars@.take(i as int)),
        decreases stars.len() - i,
    {
        let s: Star = stars[i];
        let d: Double = s.pos.distance_meters(camera);
        let m: Single = apparent_magnitude(maths, s.abs_mag, d);
        let fade: Single = view.fade(m);
        proof {
            reveal(fade_of);
            assert(stars@.take(i + 1).drop_last() =~= stars@.take(i as int));
        }
        if fade.gt(Single { bits: 0x0000_0000 /* 0.0 */ }) {
            out.push(VisibleStar { star: s, fade });
        }
        i = i + 1;
    }
    assert(stars@.take(stars.len() as int) =~= stars@);
}

/// Whether the stars can be measured from `camera`.
pub(crate) fn are_measurable(stars: &Vec<Star>, camera: GalacticCoord) -> (r: bool)
    ensures
        r == all_measurable(stars@, camera),
{
    let mut i: usize = 0;
    while i < stars.len()
        invariant
            i <= stars.len(),
            forall|j: int| 0 <= j < i ==> (#[trigger] stars@[j]).pos.measurable_from(camera),
        decreases stars.len() - i,
    {
        if !stars[i].pos.is_measurable_from(camera) {
            assert(!stars@[i as int].pos.measurable_from(camera));
            return false;
        }
        i = i + 1;
    }
    true
}

/// Every queued node is the queue entry of a node of the tree that can be queued.
spec fn well_queued(params: GalaxyParams, camera: GalacticCoord, queue: Multiset<QueuedNode>) -> bool {
    forall|n: QueuedNode| #[trigger]
        queue.count(n) > 0 ==> {
            &&& params.queued(n.key, camera) == n
            &&& n.key.is_down_to(63)
        }
}

proof fn lemma_queue_grows(
    params: GalaxyParams,
    camera: GalacticCoord,
    queue: Multiset<QueuedNode>,
    key: NodeKey,
)
    requires
        well_queued(params, camera, queue),
        key.is_down_to(63),
    ensures
        well_queued(params, camera, queue.insert(params.queued(key, camera))),
{
    let kid = params.queued(key, camera);
    let after = queue.insert(kid);
    assert forall|n: QueuedNode| #[trigger] after.count(n) > 0 implies {
        &&& params.queued(n.key, camera) == n
        &&& n.key.is_down_to(63)
    } by {
        if n != kid {
            assert(queue.count(n) > 0);
        }
    }
}

proof fn lemma_queue_shrinks(
    params: GalaxyParams,
    camera: GalacticCoord,
    queue: Multiset<QueuedNode>,
    node: QueuedNode,
)
    requires
        well_queued(params, camera, queue),
    ensures
        well_queued(params, camera, queue.remove(node)),
{
    let after = queue.remove(node);
    assert forall|n: QueuedNode| #[trigger] after.count(n) > 0 implies {
        &&& params.queued(n.key, camera) == n
        &&& n.key.is_down_to(63)
    } by {
        assert(queue.count(n) > 0);
    }
}

impl Galaxy {
    /// Whether a node can be queued: its size is in range, and its corner can be measured from
    /// `camera`.
    pub fn can_queue(&self, key: NodeKey, camera: GalacticCoord) -> (r: bool)
        ensures
            r == can_queue(self.params, camera, key),
    {
        key.depth < 64 && camera.is_measurable_from(
            GalacticCoord::from_meters_f64(self.params.node_min_m(key)),
        )
    }

    /// Queues the children of `key`; false where one of them cannot be queued.
    fn queue_children(&self, heap: &mut NodeQueue, key: NodeKey, camera: GalacticCoord) -> (r: bool)
        requires
            old(heap).wf(),
            key.is_down_to(63),
            well_queued(self.params, camera, old(heap).nodes()),
        ensures
            final(heap).wf(),
            r == forall|i: int|
                0 <= i < 8 ==> can_queue(self.params, camera, #[trigger] key.child(i)),
            r ==> final(heap).nodes() == with_children(
                self.params,
                camera,
                old(heap).nodes(),
                key,
                8,
            ),
            r ==> well_queued(self.params, camera, final(heap).nodes()),
    {
        let ghost queue = heap.nodes();
        if key.depth >= 63 {
            // The children are beyond the deepest level.
            assert(!can_queue(self.params, camera, key.child(0)));
            return false;
        }
        proof {
            key.lemma_children_are_down(63);
        }
        let kids: [NodeKey; 8] = key.children();
        let mut c: usize = 0;
        while c < 8
            invariant
                c <= 8,
                heap.wf(),
                heap.nodes() == with_children(self.params, camera, queue, key, c as nat),
                well_queued(self.params, camera, heap.nodes()),
                forall|i: int| 0 <= i < 8 ==> #[trigger] kids@[i] == key.child(i),
                forall|i: int| 0 <= i < 8 ==> (#[trigger] key.child(i)).is_down_to(63),
                forall|i: int| 0 <= i < c ==> can_queue(self.params, camera, #[trigger] key.child(i)),
            decreases 8 - c,
        {
            assert(kids@[c as int] == key.child(c as int));
            assert(key.child(c as int).is_down_to(63));
            if !self.can_queue(kids[c], camera) {
                return false;
            }
            proof {
                lemma_queue_grows(self.params, camera, heap.nodes(), kids@[c as int]);
            }
            heap.push(self.make_queued(kids[c], camera));
            c = c + 1;
        }
        true
    }

    /// Collect all stars visible from `camera` under `view`; `None` where that would overflow a
    /// coordinate or a size.
    ///
    /// Returns visible stars, traversal statistics, and the visited node keys (in visit order)
    /// for optional octree wireframe visualization.
    ///
    /// Traversal is a best-first expansion ordered by angular importance. When the `max_nodes`
    /// budget is exhausted the least important (smallest, farthest) nodes are dropped. The
    /// number of generated stars stays at `usize::MAX` where it would be larger.
    pub fn try_collect_visible<M: Fn(Elementary, Double, Double) -> Double>(
        &mut self,
        maths: &M,
        camera: GalacticCoord,
        view: &ViewParams,
    ) -> (r: Option<(Vec<VisibleStar>, TraverseStats, Vec<NodeKey>)>)
        requires
            reliable(*maths),
            exp_has_floor(*maths),
        ensures
            r is Some <==> old(self).walk_fits(*maths, camera, *view),
            r matches Some(v) ==> old(self).finds(
                *maths,
                camera,
                *view,
                v.0@,
                v.1,
                v.2@,
                *final(self),
            ),
            final(self).params == old(self).params,
            final(self).capacity() == old(self).capacity(),
    {
        let ghost params = self.params;
        let ghost limit = self.capacity();
        let ghost whole = survey(
            *maths,
            params,
            camera,
            *view,
            limit,
            root_queue(params, camera),
            self.entries(),
            view.max_nodes as nat,
        );
        if !self.can_queue(NodeKey::root(), camera) {
            return None;
        }
        let ghost fits = walk_in_reach(
            *maths,
            params,
            camera,
            *view,
            limit,
            root_queue(params, camera),
            self.entries(),
            view.max_nodes as nat,
        );
        let mut stats: TraverseStats = TraverseStats::default();
        let mut out: Vec<VisibleStar> = Vec::new();
        let mut visited: Vec<NodeKey> = Vec::new();
        let mut heap: NodeQueue = NodeQueue::new();
        proof {
            NodeKey::lemma_root_is_down(63);
            lemma_queue_grows(params, camera, heap.nodes(), NodeKey { depth: 0, ix: 0, iy: 0, iz: 0 });
        }
        heap.push(self.make_queued(NodeKey::root(), camera));
        let ghost mut generated: nat = 0;
        let ghost mut rest = whole;
        proof {
            assert(out@ + whole.stars =~= whole.stars);
            assert(visited@ + whole.nodes =~= whole.nodes);
        }
        loop
            invariant
                self.params == params,
                self.capacity() == limit,
                params == old(self).params,
                limit == old(self).capacity(),
                reliable(*maths),
                exp_has_floor(*maths),
                heap.wf(),
                well_queued(params, camera, heap.nodes()),
                stats.nodes_visited == visited.len(),
                stats.nodes_visited <= view.max_nodes,
                fits == walk_in_reach(
                    *maths,
                    params,
                    camera,
                    *view,
                    limit,
                    heap.nodes(),
                    self.entries(),
                    (view.max_nodes - stats.nodes_visited) as nat,
                ),
                rest == survey(
                    *maths,
                    params,
                    camera,
                    *view,
                    limit,
                    heap.nodes(),
                    self.entries(),
                    (view.max_nodes - stats.nodes_visited) as nat,
                ),
                !fits ==> !old(self).walk_fits(*maths, camera, *view),
                whole.stars == out@ + rest.stars,
                whole.nodes == visited@ + rest.nodes,
                whole.subdivided == stats.nodes_subdivided + rest.subdivided,
                whole.generated == generated + rest.generated,
                stats.stars_generated == saturated(generated as int, 0, usize::MAX as int),
                stats.stars_visible == out.len(),
                whole.hits == stats.cache_hits + rest.hits,
                stats.cache_hits + stats.cache_misses == stats.nodes_visited,
                stats.nodes_subdivided <= stats.nodes_visited,
                whole.entries == rest.entries,
            ensures
                fits,
                self.params == params,
                self.capacity() == limit,
                stats.nodes_visited == visited.len(),
                whole.stars == out@,
                whole.nodes == visited@,
                whole.subdivided == stats.nodes_subdivided,
                whole.generated == generated,
                stats.stars_generated == saturated(generated as int, 0, usize::MAX as int),
                stats.stars_visible == out.len(),
                whole.hits == stats.cache_hits,
                stats.cache_hits + stats.cache_misses == stats.nodes_visited,
                whole.entries == self.entries(),
            decreases view.max_nodes - stats.nodes_visited,
        {
            if stats.nodes_visited >= view.max_nodes {
                assert(out@ + rest.stars =~= out@);
                assert(visited@ + rest.nodes =~= visited@);
                break;
            }
            let ghost queue = heap.nodes();
            let ghost entries = self.entries();
            let node: QueuedNode = match heap.pop() {
                Some(n) => n,
                None => {
                    assert(out@ + rest.stars =~= out@);
                    assert(visited@ + rest.nodes =~= visited@);
                    break;
                },
            };
            let key: NodeKey = node.key;
            proof {
                assert(is_first(queue, node));
                lemma_first_is_unique(queue, node);
                assert(queue.len() > 0);
                assert(params.queued(node.key, camera) == node);
                lemma_queue_shrinks(params, camera, queue, node);
            }
            stats.nodes_visited = stats.nodes_visited + 1;
            visited.push(key);
            let (stars, hit): (Arc<Vec<Star>>, bool) = self.stars(maths, key);
            if hit {
                stats.cache_hits = stats.cache_hits + 1;
            } else {
                stats.cache_misses = stats.cache_misses + 1;
            }
            stats.stars_generated = stats.stars_generated.saturating_add(stars.len());
            if !are_measurable(&stars, camera) {
                return None;
            }
            append_visible(maths, camera, view, &stars, &mut out);
            stats.stars_visible = out.len();
            // Subdivide when the node subtends a large angle (near relative to its size).
            let split: bool = key.depth < view.max_depth && key.depth < self.params.max_depth
                && node.angular.gt(view.subdivide_angle);
            if split {
                stats.nodes_subdivided = stats.nodes_subdivided + 1;
                if !self.queue_children(&mut heap, key, camera) {
                    return None;
                }
            }
            proof {
                let shown = visible_among(*maths, camera, *view, stars@);
                let old_rest = rest;
                rest = survey(
                    *maths,
                    params,
                    camera,
                    *view,
                    limit,
                    heap.nodes(),
                    self.entries(),
                    (view.max_nodes - stats.nodes_visited) as nat,
                );
                generated = generated + stars@.len();
                assert(old_rest.stars == shown + rest.stars);
                assert(old_rest.nodes == seq![key] + rest.nodes);
                assert(whole.stars =~= out@ + rest.stars);
                assert(whole.nodes =~= visited@ + rest.nodes);
            }
        }
        Some((out, stats, visited))
    }

    /// Collect all stars visible from `camera` under `view`.
    pub fn collect_visible<M: Fn(Elementary, Double, Double) -> Double>(
        &mut self,
        maths: &M,
        camera: GalacticCoord,
        view: &ViewParams,
    ) -> (r: (Vec<VisibleStar>, TraverseStats, Vec<NodeKey>))
        requires
            reliable(*maths),
            exp_has_floor(*maths),
            old(self).walk_fits(*maths, camera, *view),
        ensures
            old(self).finds(*maths, camera, *view, r.0@, r.1, r.2@, *final(self)),
    {
        self.try_collect_visible(maths, camera, view).unwrap()
    }
}

} // verus!
