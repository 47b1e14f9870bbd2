//! Search for the star nearest to the camera.
use std::sync::Arc;

use vstd::arithmetic::power2::*;
use vstd::prelude::*;

use crate::cache::{after_look_up, looked_up, CacheKey};
use crate::coord::GalacticCoord;
use crate::generate::{exp_has_floor, stars_of};
use crate::ieee::convert::saturated;
use crate::ieee::power::power_of_two;
use crate::ieee::Double;
use crate::maths::{reliable, Elementary};
use crate::node::NodeKey;
use crate::octree::{all_measurable, are_measurable, Galaxy};
use crate::params::{GalaxyParams, Star, HALF};
use crate::vector::Vector;

verus! {

impl GalaxyParams {
    /// The min corner of the universe as a position.
    pub open spec fn universe_corner(self) -> GalacticCoord {
        GalacticCoord::nearest_to(
            Vector::even(self.universe_size_m.product(Double { bits: HALF }).opposite()),
        )
    }

    /// The index, along one axis, of the cell at `depth` that holds the coordinate `rel`, which
    /// is counted from the min corner of the universe.
    pub open spec fn cell_index(self, rel: Double, depth: u8) -> int {
        let q = rel.quotient(self.node_size(depth));
        if q.nan() {
            0
        } else {
            saturated(q.floor_int(), i64::MIN as int, i64::MAX as int)
        }
    }
}

/// The number of cells per axis at `depth`.
pub open spec fn cell_span(depth: u8) -> int {
    pow2(depth as nat) as int
}

/// The cell next to the one at `(i, j, k)` in the direction `n`, of twenty-seven, in the order
/// in which they are probed.
pub open spec fn neighbor(i: int, j: int, k: int, n: int) -> (int, int, int) {
    (i + n % 3 - 1, j + (n / 3) % 3 - 1, k + n / 9 - 1)
}

/// The first `n` neighbors of a cell that lie in the tree.
pub open spec fn neighbors(depth: u8, i: int, j: int, k: int, n: nat) -> Seq<NodeKey>
    decreases n,
{
    if n == 0 {
        Seq::empty()
    } else {
        let before = neighbors(depth, i, j, k, (n - 1) as nat);
        let (x, y, z) = neighbor(i, j, k, n - 1);
        let span = cell_span(depth);
        if x < 0 || y < 0 || z < 0 || x >= span || y >= span || z >= span {
            before
        } else {
            before.push(NodeKey { depth, ix: x as u64, iy: y as u64, iz: z as u64 })
        }
    }
}

/// The nodes around `camera` at `depth`.
pub open spec fn nodes_around(params: GalaxyParams, camera: GalacticCoord, depth: u8) -> Seq<NodeKey> {
    let rel = camera.relative(params.universe_corner());
    neighbors(
        depth,
        params.cell_index(rel.x, depth),
        params.cell_index(rel.y, depth),
        params.cell_index(rel.z, depth),
        27,
    )
}

/// The nodes around `camera` at the first `n` depths.
pub open spec fn probed_nodes(params: GalaxyParams, camera: GalacticCoord, n: nat) -> Seq<NodeKey>
    decreases n,
{
    if n == 0 {
        Seq::empty()
    } else {
        probed_nodes(params, camera, (n - 1) as nat) + nodes_around(params, camera, (n - 1) as u8)
    }
}

/// The nearer of the best star so far and `star`, the former where neither is nearer.
pub open spec fn nearer(best: Option<(Double, Star)>, camera: GalacticCoord, star: Star) -> Option<(Double, Star)> {
    let d = star.pos.distance(camera);
    match best {
        None => Some((d, star)),
        Some((bd, _)) => if d.less(bd) {
            Some((d, star))
        } else {
            best
        },
    }
}

/// The nearest of the best star so far and `stars`.
pub open spec fn nearest_among(best: Option<(Double, Star)>, camera: GalacticCoord, stars: Seq<Star>) -> Option<(Double, Star)>
    decreases stars.len(),
{
    if stars.len() == 0 {
        best
    } else {
        nearer(nearest_among(best, camera, stars.drop_last()), camera, stars.last())
    }
}

/// The nearest star of `nodes`, looked up one after the other, and what the cache then holds.
pub open spec fn nearest_in<M: Fn(Elementary, Double, Double) -> Double>(
    maths: M,
    params: GalaxyParams,
    camera: GalacticCoord,
    limit: nat,
    entries: Seq<(CacheKey, Seq<Star>)>,
    nodes: Seq<NodeKey>,
) -> (Option<(Double, Star)>, Seq<(CacheKey, Seq<Star>)>)
    decreases nodes.len(),
{
    if nodes.len() == 0 {
        (None, entries)
    } else {
        let (best, held) = nearest_in(maths, params, camera, limit, entries, nodes.drop_last());
        let fresh = stars_of(maths, params, nodes.last());
        (
            nearest_among(best, camera, looked_up(held, nodes.last(), fresh)),
            after_look_up(held, limit, nodes.last(), fresh),
        )
    }
}

/// The stars of `nodes`, looked up one after the other, can be measured from the camera.
pub open spec fn search_in_reach<M: Fn(Elementary, Double, Double) -> Double>(
    maths: M,
    params: GalaxyParams,
    camera: GalacticCoord,
    limit: nat,
    entries: Seq<(CacheKey, Seq<Star>)>,
    nodes: Seq<NodeKey>,
) -> bool
    decreases nodes.len(),
{
    nodes.len() > 0 ==> {
        let before = nodes.drop_last();
        let held = nearest_in(maths, params, camera, limit, entries, before).1;
        let fresh = stars_of(maths, params, nodes.last());
        &&& search_in_reach(maths, params, camera, limit, entries, before)
        &&& all_measurable(looked_up(held, nodes.last(), fresh), camera)
    }
}

proof fn lemma_search_prefix<M: Fn(Elementary, Double, Double) -> Double>(
    maths: M,
    params: GalaxyParams,
    camera: GalacticCoord,
    limit: nat,
    entries: Seq<(CacheKey, Seq<Star>)>,
    nodes: Seq<NodeKey>,
    n: int,
)
    requires
        search_in_reach(maths, params, camera, limit, entries, nodes),
        0 <= n <= nodes.len(),
    ensures
        search_in_reach(maths, params, camera, limit, entries, nodes.take(n)),
    decreases nodes.len(),
{
    if n < nodes.len() {
        assert(nodes.drop_last().take(n) =~= nodes.take(n));
        lemma_search_prefix(maths, params, camera, limit, entries, nodes.drop_last(), n);
    } else {
        assert(nodes.take(n) =~= nodes);
    }
}

/// The cells next to the camera's own at `depth` have indices that do not overflow.
pub open spec fn cells_in_range(params: GalaxyParams, camera: GalacticCoord, depth: u8) -> bool {
    let rel = camera.relative(params.universe_corner());
    &&& i64::MIN < params.cell_index(rel.x, depth) < i64::MAX
    &&& i64::MIN < params.cell_index(rel.y, depth) < i64::MAX
    &&& i64::MIN < params.cell_index(rel.z, depth) < i64::MAX
}

/// Every probed node's stars can be measured from the camera.
pub open spec fn nodes_in_reach<M: Fn(Elementary, Double, Double) -> Double>(
    maths: M,
    params: GalaxyParams,
    camera: GalacticCoord,
    nodes: Seq<NodeKey>,
) -> bool {
    forall|i: int| 0 <= i < nodes.len() ==> all_measurable(stars_of(maths, params, #[trigger] nodes[i]), camera)
}

/// The depth down to which a probe goes.
pub open spec fn probe_cap(params: GalaxyParams, probe_depth: u8) -> u8 {
    if probe_depth < params.max_depth {
        probe_depth
    } else {
        params.max_depth
    }
}

/// Appends the nodes around the cell at `(i, j, k)` to `out`.
fn append_neighbors(depth: u8, i: i64, j: i64, k: i64, out: &mut Vec<NodeKey>)
    requires
        depth < 64,
        i64::MIN < i < i64::MAX,
        i64::MIN < j < i64::MAX,
        i64::MIN < k < i64::MAX,
    ensures
        final(out)@ == old(out)@ + neighbors(depth, i as int, j as int, k as int, 27),
{
    proof {
        lemma2_to64();
        lemma2_to64_rest();
        if depth < 63 {
            lemma_pow2_strictly_increases(depth as nat, 63);
        }
    }
    let span: u64 = power_of_two(depth as u32) as u64;
    let ghost before = out@;
    let mut n: i64 = 0;
    assert(out@ =~= before + neighbors(depth, i as int, j as int, k as int, 0));
    while n < 27
        invariant
            0 <= n <= 27,
            span == cell_span(depth),
            i64::MIN < i < i64::MAX,
            i64::MIN < j < i64::MAX,
            i64::MIN < k < i64::MAX,
            out@ == before + neighbors(depth, i as int, j as int, k as int, n as nat),
        decreases 27 - n,
    {
        let x: i64 = i + (n % 3 - 1);
        let y: i64 = j + ((n / 3) % 3 - 1);
        let z: i64 = k + (n / 9 - 1);
        if x >= 0 && y >= 0 && z >= 0 && (x as u64) < span && (y as u64) < span && (z as u64) < span {
            out.push(NodeKey::new(depth, x as u64, y as u64, z as u64));
        }
        n = n + 1;
    }
}

impl Galaxy {
    /// The cell at `depth` that holds the camera.
    fn camera_cell(&self, camera: GalacticCoord, depth: u8) -> (r: (i64, i64, i64))
        requires
            depth < 64,
            camera.measurable_from(self.params.universe_corner()),
        ensures
            ({
                let rel = camera.relative(self.params.universe_corner());
                &&& r.0 == self.params.cell_index(rel.x, depth)
                &&& r.1 == self.params.cell_index(rel.y, depth)
                &&& r.2 == self.params.cell_index(rel.z, depth)
            }),
    {
        let half: Double = self.params.universe_size_m.times(Double { bits: HALF });
        let corner: GalacticCoord = GalacticCoord::from_meters_f64(Vector::splat(half.negated()));
        let rel: Vector = camera.relative_f64(corner);
        let size: Double = self.params.node_size_m(depth);
        (
            rel.x.over(size).floor_to_i64(),
            rel.y.over(size).floor_to_i64(),
            rel.z.over(size).floor_to_i64(),
        )
    }

    /// Whether the cells next to the camera's own at `depth` have indices that do not overflow.
    pub fn has_cells_around(&self, camera: GalacticCoord, depth: u8) -> (r: bool)
        requires
            depth < 64,
            camera.measurable_from(self.params.universe_corner()),
        ensures
            r == cells_in_range(self.params, camera, depth),
    {
        let (i, j, k): (i64, i64, i64) = self.camera_cell(camera, depth);
        i64::MIN < i && i < i64::MAX && i64::MIN < j && j < i64::MAX && i64::MIN < k && k
            < i64::MAX
    }

    /// The nodes whose stars are candidates for the one nearest to `camera`: at each depth, the
    /// node that holds the camera and its neighbors.
    fn probe_nodes(&self, camera: GalacticCoord, cap: u8) -> (out: Vec<NodeKey>)
        requires
            cap < 64,
            camera.measurable_from(self.params.universe_corner()),
            forall|d: u8| d <= cap ==> #[trigger] cells_in_range(self.params, camera, d),
        ensures
            out@ == probed_nodes(self.params, camera, (cap + 1) as nat),
            forall|i: int| 0 <= i < out.len() ==> (#[trigger] out@[i]).depth < 64,
    {
        let mut out: Vec<NodeKey> = Vec::new();
        let mut depth: u8 = 0;
        while depth <= cap
            invariant
                depth <= cap + 1,
                cap < 64,
                camera.measurable_from(self.params.universe_corner()),
                forall|d: u8| d <= cap ==> #[trigger] cells_in_range(self.params, camera, d),
                out@ == probed_nodes(self.params, camera, depth as nat),
                forall|i: int| 0 <= i < out.len() ==> (#[trigger] out@[i]).depth < 64,
            decreases cap + 1 - depth,
        {
            let (ci, cj, ck): (i64, i64, i64) = self.camera_cell(camera, depth);
            assert(cells_in_range(self.params, camera, depth));
            proof {
                lemma_neighbor_depth(depth, ci as int, cj as int, ck as int, 27);
            }
            append_neighbors(depth, ci, cj, ck, &mut out);
            depth = depth + 1;
        }
        out
    }

    /// The nearest star of the probed nodes, and the galaxy after the search.
    pub open spec fn nearest_is<M: Fn(Elementary, Double, Double) -> Double>(
        self,
        maths: M,
        camera: GalacticCoord,
        probe_depth: u8,
        star: Option<Star>,
        after: Galaxy,
    ) -> bool {
        let (best, held) = nearest_in(
            maths,
            self.params,
            camera,
            self.capacity(),
            self.entries(),
            probed_nodes(
                self.params,
                camera,
                (probe_cap(self.params, probe_depth) + 1) as nat,
            ),
        );
        &&& star == match best {
            None => None,
            Some((_, s)) => Some(s),
        }
        &&& after.params == self.params
        &&& after.capacity() == self.capacity()
        &&& after.entries() == held
    }

    /// A search around `camera` overflows nothing.
    pub open spec fn search_fits<M: Fn(Elementary, Double, Double) -> Double>(
        self,
        maths: M,
        camera: GalacticCoord,
        probe_depth: u8,
    ) -> bool {
        let cap = probe_cap(self.params, probe_depth);
        &&& cap < 64
        &&& camera.measurable_from(self.params.universe_corner())
        &&& forall|d: u8| d <= cap ==> #[trigger] cells_in_range(self.params, camera, d)
        &&& search_in_reach(
            maths,
            self.params,
            camera,
            self.capacity(),
            self.entries(),
            probed_nodes(self.params, camera, (cap + 1) as nat),
        )
    }

    /// Find the nearest generated star to `camera`, used to pick a floating origin; `None` where
    /// that would overflow a coordinate, an index or a size. Searches only the nodes around the
    /// camera by descending to `probe_depth`.
    pub fn try_nearest_star<M: Fn(Elementary, Double, Double) -> Double>(
        &mut self,
        maths: &M,
        camera: GalacticCoord,
        probe_depth: u8,
    ) -> (r: Option<Option<Star>>)
        requires
            reliable(*maths),
            exp_has_floor(*maths),
        ensures
            r is Some <==> old(self).search_fits(*maths, camera, probe_depth),
            r matches Some(star) ==> old(self).nearest_is(
                *maths,
                camera,
                probe_depth,
                star,
                *final(self),
            ),
            final(self).params == old(self).params,
            final(self).capacity() == old(self).capacity(),
    {
        let cap: u8 = if probe_depth < self.params.max_depth {
            probe_depth
        } else {
            self.params.max_depth
        };
        let half: Double = self.params.universe_size_m.times(Double { bits: HALF });
        let corner: GalacticCoord = GalacticCoord::from_meters_f64(Vector::splat(half.negated()));
        if cap >= 64 || !camera.is_measurable_from(corner) {
            return None;
        }
        let mut depth: u8 = 0;
        while depth <= cap
            invariant
                depth <= cap + 1,
                cap < 64,
                camera.measurable_from(self.params.universe_corner()),
                forall|d: u8| d < depth ==> #[trigger] cells_in_range(self.params, camera, d),
                cap == probe_cap(self.params, probe_depth),
                *self == *old(self),
            decreases cap + 1 - depth,
        {
            if !self.has_cells_around(camera, depth) {
                return None;
            }
            depth = depth + 1;
        }
        let nodes: Vec<NodeKey> = self.probe_nodes(camera, cap);
        let ghost params = self.params;
        let ghost limit = self.capacity();
        let ghost entries = self.entries();
        let mut best: Option<(Double, Star)> = None;
        let mut i: usize = 0;
        assert(nodes@.take(0) =~= Seq::empty());
        while i < nodes.len()
            invariant
                i <= nodes.len(),
                self.params == params,
                self.capacity() == limit,
                reliable(*maths),
                exp_has_floor(*maths),
                params == old(self).params,
                limit == old(self).capacity(),
                entries == old(self).entries(),
                nodes@ == probed_nodes(
                    params,
                    camera,
                    (probe_cap(params, probe_depth) + 1) as nat,
                ),
                forall|j: int| 0 <= j < nodes.len() ==> (#[trigger] nodes@[j]).depth < 64,
                search_in_reach(*maths, params, camera, limit, entries, nodes@.take(i as int)),
                (best, self.entries()) == nearest_in(
                    *maths,
                    params,
                    camera,
                    limit,
                    entries,
                    nodes@.take(i as int),
                ),
            decreases nodes.len() - i,
        {
            let key: NodeKey = nodes[i];
            assert(nodes@.take(i + 1).drop_last() =~= nodes@.take(i as int));
            let (stars, _hit): (Arc<Vec<Star>>, bool) = self.stars(maths, key);
            if !are_measurable(&stars, camera) {
                proof {
                    if old(self).search_fits(*maths, camera, probe_depth) {
                        lemma_search_prefix(
                            *maths,
                            params,
                            camera,
                            limit,
                            entries,
                            nodes@,
                            i + 1,
                        );
                    }
                }
                return None;
            }
            let ghost start = best;
            let mut j: usize = 0;
            assert(stars@.take(0) =~= Seq::empty());
            while j < stars.len()
                invariant
                    j <= stars.len(),
                    all_measurable(stars@, camera),
                    best == nearest_among(start, camera, stars@.take(j as int)),
                decreases stars.len() - j,
            {
                let s: Star = stars[j];
                assert(stars@.take(j + 1).drop_last() =~= stars@.take(j as int));
                let d: Double = s.pos.distance_meters(camera);
                let closer: bool = match &best {
                    None => true,
                    Some((bd, _)) => d.lt(*bd),
                };
                if closer {
                    best = Some((d, s));
                }
                j = j + 1;
            }
            assert(stars@.take(stars.len() as int) =~= stars@);
            i = i + 1;
        }
        assert(nodes@.take(nodes.len() as int) =~= nodes@);
        match best {
            None => Some(None),
            Some((_, star)) => Some(Some(star)),
        }
    }

    /// Find the nearest generated star to `camera`, used to pick a floating origin.
    pub fn nearest_star<M: Fn(Elementary, Double, Double) -> Double>(
        &mut self,
        maths: &M,
        camera: GalacticCoord,
        probe_depth: u8,
    ) -> (r: Option<Star>)
        requires
            reliable(*maths),
            exp_has_floor(*maths),
            old(self).search_fits(*maths, camera, probe_depth),
        ensures
            old(self).nearest_is(*maths, camera, probe_depth, r, *final(self)),
    {
        self.try_nearest_star(maths, camera, probe_depth).unwrap()
    }
}

proof fn lemma_neighbor_depth(depth: u8, i: int, j: int, k: int, n: nat)
    ensures
        forall|m: int|
            0 <= m < neighbors(depth, i, j, k, n).len() ==> (#[trigger] neighbors(depth, i, j, k, n)[m]).depth
                == depth,
    decreases n,
{
    if n > 0 {
        lemma_neighbor_depth(depth, i, j, k, (n - 1) as nat);
        let (a, b) = (neighbors(depth, i, j, k, (n - 1) as nat), neighbors(depth, i, j, k, n));
        assert forall|m: int| 0 <= m < b.len() implies (#[trigger] b[m]).depth == depth by {
            if m < a.len() {
                assert(b[m] == a[m]);
            }
        }
    }
}

} // verus!
