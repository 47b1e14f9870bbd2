//! Laws of the search for the nearest star.
use vstd::arithmetic::div_mod::{lemma_fundamental_div_mod, lemma_mod_bound};
use vstd::arithmetic::power2::*;
use vstd::prelude::*;

use crate::cache::CacheKey;
use crate::coord::{fits, GalacticCoord};
use crate::generate::stars_of;
use crate::ieee::accuracy::{lemma_quotient_relative, size};
use crate::ieee::bounds::{
    lemma_int_within, lemma_product_within, lemma_sum_within, lemma_within_grows, within,
};
use crate::ieee::convert::double_of_int;
use crate::ieee::double::DOUBLE_INF;
use crate::ieee::encoding::code_units;
use crate::ieee::exact::{lemma_nearest_exists, lemma_nearest_root_at_least};
use crate::ieee::Double;
use crate::laws::directions::lemma_int_is_close;
use crate::laws::lengths::{
    close, lemma_close_chain, lemma_close_squares, lemma_close_sum, lemma_close_weakens,
    lemma_extent_of_int, lemma_norm,
};
use crate::laws::octree::{is_coherent, law_look_up_keeps_the_cache_coherent};
use crate::maths::Elementary;
use crate::nearest::{
    cell_span, cells_in_range, nearer, nearest_among, nearest_in, neighbor, neighbors,
    nodes_around, nodes_in_reach, probe_cap, probed_nodes,
};
use crate::node::NodeKey;
use crate::octree::{all_measurable, Galaxy};
use crate::params::{GalaxyParams, Star};

verus! {

proof fn lemma_square_is_number(v: Double)
    requires
        within(v, 128),
    ensures
        within(v.product(v), 256),
        !v.product(v).negative(),
{
    lemma_product_within(v, 128, v, 128);
    let n = code_units(v.code(), 52);
    lemma_nearest_exists(n * n, pow2(1074), 52, DOUBLE_INF as nat);
}

proof fn lemma_positive_sum(a: Double, b: Double)
    requires
        a.finite(),
        b.finite(),
        !a.negative(),
        !b.negative(),
    ensures
        !a.sum(b).negative(),
{
    lemma_nearest_exists((a.units() + b.units()) as nat, 1, 52, DOUBLE_INF as nat);
}

/// The distance between two positions is always a number.
pub proof fn law_distance_is_a_number(a: GalacticCoord, b: GalacticCoord)
    requires
        a.measurable_from(b),
    ensures
        !a.distance(b).nan(),
{
    let v = a.relative(b);
    lemma2_to64();
    lemma_pow2_adds(64, 64);
    assert(0x1_0000_0000_0000_0000 * 0x1_0000_0000_0000_0000
        == 0x1_0000_0000_0000_0000_0000_0000_0000_0000int) by (nonlinear_arith);
    lemma_int_within(a.x.value() - b.x.value(), 128);
    lemma_int_within(a.y.value() - b.y.value(), 128);
    lemma_int_within(a.z.value() - b.z.value(), 128);
    lemma_square_is_number(v.x);
    lemma_square_is_number(v.y);
    lemma_square_is_number(v.z);
    let (x, y, z) = (v.x.product(v.x), v.y.product(v.y), v.z.product(v.z));
    lemma_sum_within(x, y, 256);
    lemma_positive_sum(x, y);
    lemma_within_grows(z, 256, 257);
    lemma_sum_within(x.sum(y), z, 257);
    lemma_positive_sum(x.sum(y), z);
    let sq = x.sum(y).sum(z);
    let s = code_units(sq.code(), 52) * pow2(1074);
    lemma_pow2_pos(52);
    assert(code_units(0, 52) * code_units(0, 52) == 0) by (nonlinear_arith)
        requires
            code_units(0, 52) == 0,
    ;
    lemma_nearest_root_at_least(s, 52, DOUBLE_INF as nat, 0);
}

/// `best` is one of the stars and none of them is nearer.
pub open spec fn is_nearest(best: Option<(Double, Star)>, camera: GalacticCoord, stars: Set<Star>) -> bool {
    match best {
        None => forall|s: Star| !stars.contains(s),
        Some((d, star)) => {
            &&& stars.contains(star)
            &&& d == star.pos.distance(camera)
            &&& !d.nan()
            &&& forall|s: Star| #[trigger] stars.contains(s) ==> !s.pos.distance(camera).less(d)
        },
    }
}

/// The stars of a sequence joined to a set.
pub open spec fn joined(stars: Set<Star>, more: Seq<Star>) -> Set<Star> {
    stars.union(more.to_set())
}

proof fn lemma_nearest_among(best: Option<(Double, Star)>, camera: GalacticCoord, stars: Set<Star>, more: Seq<Star>)
    requires
        is_nearest(best, camera, stars),
        all_measurable(more, camera),
    ensures
        is_nearest(nearest_among(best, camera, more), camera, joined(stars, more)),
    decreases more.len(),
{
    if more.len() == 0 {
        assert(joined(stars, more) =~= stars);
    } else {
        let before = more.drop_last();
        assert forall|i: int| 0 <= i < before.len() implies (#[trigger] before[i]).pos.measurable_from(camera) by {
            assert(before[i] == more[i]);
        }
        lemma_nearest_among(best, camera, stars, before);
        let held = nearest_among(best, camera, before);
        let s = more.last();
        let d = s.pos.distance(camera);
        assert(more[more.len() - 1] == s);
        law_distance_is_a_number(s.pos, camera);
        let (a, b) = (joined(stars, before), joined(stars, more));
        assert(b =~= a.insert(s)) by {
            assert forall|x: Star| b.contains(x) == a.insert(s).contains(x) by {
                if more.contains(x) {
                    let i = choose|i: int| 0 <= i < more.len() && more[i] == x;
                    if i < before.len() {
                        assert(before[i] == x);
                    }
                }
                if before.contains(x) {
                    let i = choose|i: int| 0 <= i < before.len() && before[i] == x;
                    assert(more[i] == x);
                }
            }
        }
        let found = nearer(held, camera, s)->0;
        assert forall|x: Star| #[trigger] b.contains(x) implies !x.pos.distance(camera).less(found.0) by {
            if x != s {
                assert(a.contains(x));
            }
        }
    }
}

/// All stars of several nodes.
pub open spec fn stars_of_all<M: Fn(Elementary, Double, Double) -> Double>(
    maths: M,
    params: GalaxyParams,
    nodes: Seq<NodeKey>,
) -> Set<Star>
    decreases nodes.len(),
{
    if nodes.len() == 0 {
        Set::empty()
    } else {
        joined(
            stars_of_all(maths, params, nodes.drop_last()),
            stars_of(maths, params, nodes.last()),
        )
    }
}

/// With a coherent cache, the star that the search finds belongs to a probed node, and no star
/// of a probed node is nearer; it finds none only where there is none.
pub proof fn law_nearest_star_is_nearest<M: Fn(Elementary, Double, Double) -> Double>(
    maths: M,
    params: GalaxyParams,
    camera: GalacticCoord,
    limit: nat,
    entries: Seq<(CacheKey, Seq<Star>)>,
    nodes: Seq<NodeKey>,
)
    requires
        is_coherent(maths, params, entries),
        nodes_in_reach(maths, params, camera, nodes),
    ensures
        is_nearest(
            nearest_in(maths, params, camera, limit, entries, nodes).0,
            camera,
            stars_of_all(maths, params, nodes),
        ),
        is_coherent(
            maths,
            params,
            nearest_in(maths, params, camera, limit, entries, nodes).1,
        ),
    decreases nodes.len(),
{
    if nodes.len() > 0 {
        let before = nodes.drop_last();
        let key = nodes.last();
        assert forall|i: int| 0 <= i < before.len() implies all_measurable(
            stars_of(maths, params, #[trigger] before[i]),
            camera,
        ) by {
            assert(before[i] == nodes[i]);
        }
        law_nearest_star_is_nearest(maths, params, camera, limit, entries, before);
        let (best, held) = nearest_in(maths, params, camera, limit, entries, before);
        assert(nodes[nodes.len() - 1] == key);
        law_look_up_keeps_the_cache_coherent(maths, params, limit, held, key);
        lemma_nearest_among(
            best,
            camera,
            stars_of_all(maths, params, before),
            stars_of(maths, params, key),
        );
    }
}

/// The cell with index `i` holds the coordinate `rel`, where every cell has the edge `size` and
/// the first begins at zero; a coordinate within one part in `2^52` of a side may count to either
/// side of it.
pub open spec fn holds_coordinate(rel: Double, edge: Double, i: int) -> bool {
    &&& (i * edge.units() - rel.units()) * pow2(52) <= size(rel.units())
    &&& (rel.units() - (i + 1) * edge.units()) * pow2(52) <= size(rel.units())
}

/// The index of a cell is that of the cell that holds the coordinate.
proof fn lemma_cell_holds(params: GalaxyParams, rel: Double, depth: u8)
    requires
        rel.finite(),
        rel.units() == 0 || pow2(1074) <= size(rel.units()) <= pow2(1204),
        params.node_size(depth).finite(),
        pow2(1074) <= params.node_size(depth).units() <= pow2(1500),
        i64::MIN < params.cell_index(rel, depth) < i64::MAX,
    ensures
        holds_coordinate(rel, params.node_size(depth), params.cell_index(rel, depth)),
{
    let edge = params.node_size(depth);
    let (x, e, u) = (rel.units(), edge.units(), pow2(1074) as int);
    let q = rel.quotient(edge);
    let i = params.cell_index(rel, depth);
    lemma2_to64();
    lemma2_to64_rest();
    lemma_pow2_pos(1074);
    lemma_pow2_strictly_increases(1204, 2000);
    assert(size(x) * pow2(1074) <= pow2(2000) * e) by (nonlinear_arith)
        requires
            size(x) <= pow2(2000),
            0 < pow2(1074) <= e,
    ;
    lemma_quotient_relative(rel, edge);
    let d = q.units();
    lemma_fundamental_div_mod(d, u);
    lemma_mod_bound(d, u);
    assert(i == d / u);
    // The quotient is so large that what is lost to small numbers does not count.
    lemma_pow2_strictly_increases(53, 1074);
    if x != 0 {
        lemma_pow2_adds(53, 1500);
        lemma_pow2_strictly_increases(1553, 2148);
        lemma_pow2_adds(1074, 1074);
        assert(pow2(53) * e <= size(x) * pow2(1074)) by (nonlinear_arith)
            requires
                0 < e <= pow2(1500),
                pow2(53) * pow2(1500) == pow2(1553),
                pow2(1553) < pow2(2148),
                pow2(1074) * pow2(1074) == pow2(2148),
                pow2(1074) <= size(x),
        ;
    } else {
        assert(d == 0);
        assert(0 * e == 0) by (nonlinear_arith);
        assert(i == 0) by {
            assert(0int / u == 0) by (nonlinear_arith)
                requires
                    u > 0,
            ;
        }
    }
    let s = size(x) as int;
    let w = d * e - x * u;
    assert(x != 0 ==> w * pow2(53) <= 2 * (s * u) && -w * pow2(53) <= 2 * (s * u));
    let t = pow2(52) as int;
    assert(pow2(53) == 2 * t);
    assert(x != 0 ==> w * t <= s * u && -w * t <= s * u) by (nonlinear_arith)
        requires
            x != 0 ==> w * (2 * t) <= 2 * (s * u) && -w * (2 * t) <= 2 * (s * u),
    ;
    assert(x != 0 ==> (i * e - x) * t <= s && (x - (i + 1) * e) * t <= s) by {
        if x != 0 {
            // i u <= d < (i + 1) u.
            assert(i * u <= d < (i + 1) * u) by (nonlinear_arith)
                requires
                    d == u * i + d % u,
                    0 <= d % u < u,
            ;
            assert((i * u) * e <= d * e) by (nonlinear_arith)
                requires
                    i * u <= d,
                    e > 0,
            ;
            assert(d * e <= ((i + 1) * u) * e) by (nonlinear_arith)
                requires
                    d <= (i + 1) * u,
                    e > 0,
            ;
            assert((i * e - x) * u == (i * u) * e - x * u) by (nonlinear_arith);
            assert(((i + 1) * e - x) * u == ((i + 1) * u) * e - x * u) by (nonlinear_arith);
            let (a, b) = (i * e - x, x - (i + 1) * e);
            assert(a * u <= w && b * u <= -w) by {
                assert(b * u == -(((i + 1) * e - x) * u)) by (nonlinear_arith)
                    requires
                        b == x - (i + 1) * e,
                ;
            }
            assert(a * t <= s) by (nonlinear_arith)
                requires
                    a * u <= w,
                    w * t <= s * u,
                    u > 0,
                    t > 0,
            ;
            assert(b * t <= s) by (nonlinear_arith)
                requires
                    b * u <= -w,
                    -w * t <= s * u,
                    u > 0,
                    t > 0,
            ;
        }
    }
    if x == 0 {
        assert((0 * e - 0) * t <= 0 && (0 - (0 + 1) * e) * t <= 0) by (nonlinear_arith)
            requires
                e > 0,
                t > 0,
        ;
    }
}

/// A cell is the one at the given place or next to it, and lies in the tree.
pub open spec fn is_around(key: NodeKey, cell: (int, int, int)) -> bool {
    &&& key.ix < pow2(key.depth as nat)
    &&& key.iy < pow2(key.depth as nat)
    &&& key.iz < pow2(key.depth as nat)
    &&& -1 <= key.ix - cell.0 <= 1
    &&& -1 <= key.iy - cell.1 <= 1
    &&& -1 <= key.iz - cell.2 <= 1
}

proof fn lemma_neighbors_are_around(depth: u8, i: int, j: int, k: int, n: nat, key: NodeKey)
    requires
        depth < 64,
        n <= 27,
    ensures
        neighbors(depth, i, j, k, n).contains(key) <==> key.depth == depth && is_around(
            key,
            (i, j, k),
        ) && (key.ix - i + 1) + 3 * (key.iy - j + 1) + 9 * (key.iz - k + 1) < n,
    decreases n,
{
    let all = neighbors(depth, i, j, k, n);
    let place = (key.ix - i + 1) + 3 * (key.iy - j + 1) + 9 * (key.iz - k + 1);
    if n == 0 {
        assert(all.len() == 0);
    } else {
        lemma_neighbors_are_around(depth, i, j, k, (n - 1) as nat, key);
        let before = neighbors(depth, i, j, k, (n - 1) as nat);
        let (x, y, z) = neighbor(i, j, k, n - 1);
        let span = cell_span(depth);
        lemma2_to64();
        lemma2_to64_rest();
        if depth < 63 {
            lemma_pow2_strictly_increases(depth as nat, 63);
        }
        if before.contains(key) {
            let m = choose|m: int| 0 <= m < before.len() && before[m] == key;
            assert(all[m] == key);
        }
        let last = NodeKey { depth, ix: x as u64, iy: y as u64, iz: z as u64 };
        if !(x < 0 || y < 0 || z < 0 || x >= span || y >= span || z >= span) {
            assert(all[all.len() - 1] == last);
            assert(forall|m: int| 0 <= m < all.len() && all[m] == key ==> m < before.len() || key == last);
            if all.contains(key) && key != last {
                let m = choose|m: int| 0 <= m < all.len() && all[m] == key;
                assert(before[m] == key);
            }
        }
    }
}

proof fn lemma_probes_are_around(params: GalaxyParams, camera: GalacticCoord, n: nat, key: NodeKey)
    requires
        n <= 64,
    ensures
        ({
            let rel = camera.relative(params.universe_corner());
            probed_nodes(params, camera, n).contains(key) <==> key.depth < n && is_around(
                key,
                (
                    params.cell_index(rel.x, key.depth),
                    params.cell_index(rel.y, key.depth),
                    params.cell_index(rel.z, key.depth),
                ),
            )
        }),
    decreases n,
{
    if n > 0 {
        lemma_probes_are_around(params, camera, (n - 1) as nat, key);
        let rel = camera.relative(params.universe_corner());
        let d = (n - 1) as u8;
        lemma_neighbors_are_around(
            d,
            params.cell_index(rel.x, d),
            params.cell_index(rel.y, d),
            params.cell_index(rel.z, d),
            27,
            key,
        );
        let (a, b) = (probed_nodes(params, camera, (n - 1) as nat), nodes_around(params, camera, d));
        let all = probed_nodes(params, camera, n);
        if a.contains(key) {
            let m = choose|m: int| 0 <= m < a.len() && a[m] == key;
            assert(all[m] == key);
        }
        if b.contains(key) {
            let m = choose|m: int| 0 <= m < b.len() && b[m] == key;
            assert(all[a.len() + m] == key);
        }
        if all.contains(key) {
            let m = choose|m: int| 0 <= m < all.len() && all[m] == key;
            if m < a.len() {
                assert(a[m] == key);
            } else {
                assert(b[m - a.len()] == key);
            }
        }
    }
}

/// The stars of all of several nodes are those of each of them.
proof fn lemma_stars_of_all<M: Fn(Elementary, Double, Double) -> Double>(
    maths: M,
    params: GalaxyParams,
    nodes: Seq<NodeKey>,
    s: Star,
)
    ensures
        stars_of_all(maths, params, nodes).contains(s) <==> exists|i: int|
            0 <= i < nodes.len() && stars_of(maths, params, #[trigger] nodes[i]).contains(s),
    decreases nodes.len(),
{
    if nodes.len() > 0 {
        let before = nodes.drop_last();
        lemma_stars_of_all(maths, params, before, s);
        if exists|i: int|
            0 <= i < before.len() && stars_of(maths, params, #[trigger] before[i]).contains(s) {
            let i = choose|i: int|
                0 <= i < before.len() && stars_of(maths, params, #[trigger] before[i]).contains(s);
            assert(nodes[i] == before[i]);
        }
        if exists|i: int|
            0 <= i < nodes.len() && stars_of(maths, params, #[trigger] nodes[i]).contains(s) {
            let i = choose|i: int|
                0 <= i < nodes.len() && stars_of(maths, params, #[trigger] nodes[i]).contains(s);
            if i < before.len() {
                assert(nodes[i] == before[i]);
            }
        }
        assert(nodes[nodes.len() - 1] == nodes.last());
    }
}

/// The search for the nearest star looks, at every depth down to both limits, through the cell
/// that holds the camera and every cell next to it, and through no others: the star that it finds
/// belongs to one of them, none of theirs is nearer, and it finds none only where they have none.
/// The law returns the cells that hold the camera.
pub proof fn law_nearest_star_is_sought_all_around<M: Fn(Elementary, Double, Double) -> Double>(
    maths: M,
    galaxy: Galaxy,
    camera: GalacticCoord,
    probe_depth: u8,
    star: Option<Star>,
    after: Galaxy,
) -> (cells: Seq<(int, int, int)>)
    requires
        is_coherent(maths, galaxy.params, galaxy.entries()),
        galaxy.nearest_is(maths, camera, probe_depth, star, after),
        galaxy.search_fits(maths, camera, probe_depth),
        forall|key: NodeKey|
            key.is_down_to(63) ==> all_measurable(
                #[trigger] stars_of(maths, galaxy.params, key),
                camera,
            ),
        forall|d: u8|
            d < 64 ==> (#[trigger] galaxy.params.node_size(d)).finite() && pow2(1074)
                <= galaxy.params.node_size(d).units() <= pow2(1500),
    ensures
        ({
            let params = galaxy.params;
            let cap = if probe_depth < params.max_depth {
                probe_depth
            } else {
                params.max_depth
            };
            let rel = camera.relative(params.universe_corner());
            &&& cells.len() == cap + 1
            &&& forall|d: u8|
                d <= cap ==> {
                    let edge = #[trigger] params.node_size(d);
                    &&& holds_coordinate(rel.x, edge, cells[d as int].0)
                    &&& holds_coordinate(rel.y, edge, cells[d as int].1)
                    &&& holds_coordinate(rel.z, edge, cells[d as int].2)
                }
            &&& star matches Some(s) ==> exists|key: NodeKey|
                key.depth <= cap && is_around(key, cells[key.depth as int])
                    && #[trigger] stars_of(maths, params, key).contains(s)
            &&& forall|key: NodeKey, t: Star|
                key.depth <= cap && is_around(key, cells[key.depth as int])
                    && #[trigger] stars_of(maths, params, key).contains(t) ==> star is Some
                    && !t.pos.distance(camera).less(star->0.pos.distance(camera))
        }),
{
    let params = galaxy.params;
    let cap = probe_cap(params, probe_depth);
    let rel = camera.relative(params.universe_corner());
    let nodes = probed_nodes(params, camera, (cap + 1) as nat);
    let cells = Seq::new(
        (cap + 1) as nat,
        |d: int|
            (
                params.cell_index(rel.x, d as u8),
                params.cell_index(rel.y, d as u8),
                params.cell_index(rel.z, d as u8),
            ),
    );
    assert forall|i: int| 0 <= i < nodes.len() implies all_measurable(
        stars_of(maths, params, #[trigger] nodes[i]),
        camera,
    ) by {
        lemma_probes_are_around(params, camera, (cap + 1) as nat, nodes[i]);
        assert(nodes.contains(nodes[i]));
        assert(nodes[i].is_down_to(63));
    }
    law_nearest_star_is_nearest(
        maths,
        params,
        camera,
        galaxy.capacity(),
        galaxy.entries(),
        nodes,
    );
    assert forall|d: u8| d <= cap implies {
        let edge = #[trigger] params.node_size(d);
        &&& holds_coordinate(rel.x, edge, cells[d as int].0)
        &&& holds_coordinate(rel.y, edge, cells[d as int].1)
        &&& holds_coordinate(rel.z, edge, cells[d as int].2)
    } by {
        assert(cells_in_range(params, camera, d));
        let corner = params.universe_corner();
        lemma_whole_meters(camera.x.value() - corner.x.value());
        lemma_whole_meters(camera.y.value() - corner.y.value());
        lemma_whole_meters(camera.z.value() - corner.z.value());
        lemma_cell_holds(params, rel.x, d);
        lemma_cell_holds(params, rel.y, d);
        lemma_cell_holds(params, rel.z, d);
        assert(cells[d as int].0 == params.cell_index(rel.x, d));
    }
    let all = stars_of_all(maths, params, nodes);
    if star is Some {
        let s = star->0;
        assert(all.contains(s));
        lemma_stars_of_all(maths, params, nodes, s);
        let i = choose|i: int|
            0 <= i < nodes.len() && stars_of(maths, params, #[trigger] nodes[i]).contains(s);
        lemma_probes_are_around(params, camera, (cap + 1) as nat, nodes[i]);
        assert(nodes.contains(nodes[i]));
        assert(nodes[i].depth <= cap && is_around(nodes[i], cells[nodes[i].depth as int]));
    }
    assert forall|key: NodeKey, t: Star|
        key.depth <= cap && is_around(key, cells[key.depth as int])
            && #[trigger] stars_of(maths, params, key).contains(t) implies star is Some
        && !t.pos.distance(camera).less(star->0.pos.distance(camera)) by {
        lemma_probes_are_around(params, camera, (cap + 1) as nat, key);
        let i = choose|i: int| 0 <= i < nodes.len() && nodes[i] == key;
        assert(stars_of(maths, params, nodes[i]).contains(t));
        lemma_stars_of_all(maths, params, nodes, t);
        assert(all.contains(t));
    }
    cells
}

/// A whole number of meters is nothing, or at least one meter, and held as such.
proof fn lemma_whole_meters(x: int)
    requires
        fits(x),
    ensures
        double_of_int(x).finite(),
        ({
            let r = double_of_int(x).units();
            r == 0 || pow2(1074) <= size(r) <= pow2(1204)
        }),
{
    lemma2_to64();
    lemma2_to64_rest();
    lemma_pow2_adds(64, 63);
    assert(0x1_0000_0000_0000_0000 * 0x8000_0000_0000_0000
        == 0x8000_0000_0000_0000_0000_0000_0000_0000int) by (nonlinear_arith);
    lemma_extent_of_int(x);
    lemma_pow2_strictly_increases(1201, 1204);
}

/// The square of a whole number of meters, held in the nearest way.
proof fn lemma_square_of_int(x: int)
    requires
        -(pow2(127) as int) <= x <= pow2(127),
    ensures
        ({
            let a = code_units(double_of_int(x).code(), 52) as int;
            let e = x * pow2(1074);
            close(a * a, e * e, 48)
        }),
{
    let a = code_units(double_of_int(x).code(), 52) as int;
    let (e, f) = (x * pow2(1074), (size(x) * pow2(1074)) as int);
    lemma_int_is_close(x);
    lemma_close_squares(a, f, 51);
    lemma_close_weakens(a * a, f * f, 51, 48);
    assert(e * e == f * f) by (nonlinear_arith)
        requires
            e == x * pow2(1074),
            f == size(x) * pow2(1074),
            size(x) == x || size(x) == -x,
    ;
}

/// The distance between two positions is Euclidean: its square is the sum of the squares of the
/// differences, up to one part in `2^46`.
pub proof fn law_distance_is_euclidean(a: GalacticCoord, b: GalacticCoord)
    requires
        a.measurable_from(b),
        a != b,
    ensures
        ({
            let (x, y, z) = (
                (a.x.value() - b.x.value()) * pow2(1074),
                (a.y.value() - b.y.value()) * pow2(1074),
                (a.z.value() - b.z.value()) * pow2(1074),
            );
            let d = a.distance(b);
            &&& d.finite()
            &&& d.units() > 0
            &&& close(d.units() * d.units(), x * x + y * y + z * z, 46)
        }),
{
    let v = a.relative(b);
    let (i, j, k) = (
        a.x.value() - b.x.value(),
        a.y.value() - b.y.value(),
        a.z.value() - b.z.value(),
    );
    lemma2_to64();
    lemma2_to64_rest();
    lemma_pow2_adds(64, 63);
    assert(0x1_0000_0000_0000_0000 * 0x8000_0000_0000_0000
        == 0x8000_0000_0000_0000_0000_0000_0000_0000int) by (nonlinear_arith);
    lemma_extent_of_int(i);
    lemma_extent_of_int(j);
    lemma_extent_of_int(k);
    lemma_pow2_pos(1074);
    if i == 0 && j == 0 && k == 0 {
        a.x.lemma_same_value(b.x);
        a.y.lemma_same_value(b.y);
        a.z.lemma_same_value(b.z);
    }
    lemma_norm(v);
    lemma_square_of_int(i);
    lemma_square_of_int(j);
    lemma_square_of_int(k);
    let (p, q, r) = (
        code_units(v.x.code(), 52) as int,
        code_units(v.y.code(), 52) as int,
        code_units(v.z.code(), 52) as int,
    );
    let (x, y, z) = (i * pow2(1074), j * pow2(1074), k * pow2(1074));
    lemma_close_sum(p * p, x * x, q * q, y * y, 48);
    lemma_close_sum(p * p + q * q, x * x + y * y, r * r, z * z, 48);
    let n = v.norm().units();
    lemma_close_weakens(n * n, p * p + q * q + r * r, 48, 47);
    lemma_close_weakens(p * p + q * q + r * r, x * x + y * y + z * z, 48, 47);
    lemma_close_chain(n * n, p * p + q * q + r * r, x * x + y * y + z * z, 46);
}

} // verus!
