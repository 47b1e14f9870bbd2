//! Laws of what a traversal finds: all that is bright enough, in all nodes that look large enough.
use vstd::arithmetic::power2::*;
use vstd::multiset::Multiset;
use vstd::prelude::*;

use crate::cache::{after_look_up, CacheKey};
use crate::coord::GalacticCoord;
use crate::generate::stars_of;
use crate::ieee::accuracy::size;
use crate::ieee::convert::saturated;
use crate::ieee::encoding::Single;
use crate::ieee::Double;
use crate::laws::fading::law_fade_ramps_from_the_limit;
use crate::laws::node::{law_children_partition_parent, parent_of};
use crate::laws::octree::{
    is_coherent, law_look_up_keeps_the_cache_coherent, lemma_first_exists, root_key,
};
use crate::maths::Elementary;
use crate::node::NodeKey;
use crate::octree::{
    apparent, fade_at, fade_of, first_in, is_split, next_queue, root_queue, survey, visible_among,
    with_children, Galaxy, TraverseStats, ViewParams, VisibleStar,
};
use crate::params::{GalaxyParams, Star};
use crate::queue::QueuedNode;

verus! {

/// The apparent magnitude of a star seen from `camera`.
pub open spec fn seen_magnitude<M: Fn(Elementary, Double, Double) -> Double>(
    maths: M,
    camera: GalacticCoord,
    star: Star,
) -> Single {
    apparent(maths, star.abs_mag, star.pos.distance(camera))
}

/// The first comes before the second: its node does, or the nodes are one and its star does.
pub open spec fn comes_before(a: (int, int), b: (int, int)) -> bool {
    a.0 < b.0 || (a.0 == b.0 && a.1 < b.1)
}

/// A weight above zero.
#[verifier::opaque]
spec fn is_positive(fade: Single) -> bool {
    !fade.nan() && fade.units() > 0
}

/// `at` tells where in a list of lists of stars the visible ones stand: in order, each with its
/// weight, and with all that have one.
spec fn locates(
    weight: spec_fn(Star) -> Single,
    owned: Seq<Seq<Star>>,
    shown: Seq<VisibleStar>,
    at: Seq<(int, int)>,
) -> bool {
    &&& at.len() == shown.len()
    &&& forall|i: int| 0 <= i < at.len() ==> is_located(weight, owned, shown[i], #[trigger] at[i])
    &&& forall|i: int, j: int|
        0 <= i < j < at.len() ==> comes_before(#[trigger] at[i], #[trigger] at[j])
    &&& forall|n: int, k: int|
        0 <= n < owned.len() && 0 <= k < owned[n].len() && is_positive(
            weight(#[trigger] owned[n][k]),
        ) ==> at.contains((n, k))
}

/// A visible star is the one at a place in a list of lists, with its weight.
spec fn is_located(
    weight: spec_fn(Star) -> Single,
    owned: Seq<Seq<Star>>,
    shown: VisibleStar,
    at: (int, int),
) -> bool {
    &&& 0 <= at.0 < owned.len()
    &&& 0 <= at.1 < owned[at.0].len()
    &&& shown.star == owned[at.0][at.1]
    &&& shown.fade == weight(shown.star)
    &&& is_positive(shown.fade)
}

/// The weight of a star is that of its apparent magnitude.
proof fn lemma_weight<M: Fn(Elementary, Double, Double) -> Double>(
    maths: M,
    camera: GalacticCoord,
    view: ViewParams,
    star: Star,
)
    ensures
        ({
            let fade = fade_of(maths, camera, view, star);
            &&& fade == fade_at(view, seen_magnitude(maths, camera, star))
            &&& is_positive(fade) == (!fade.nan() && fade.units() > 0)
            &&& (Single { bits: 0 }).less(fade) == is_positive(fade)
        }),
{
    reveal(fade_of);
    reveal(is_positive);
    lemma_pow2_pos(23);
    assert((Single { bits: 0 }).units() == 0);
}

/// The visible stars of one list.
proof fn lemma_locates_one<M: Fn(Elementary, Double, Double) -> Double>(
    maths: M,
    camera: GalacticCoord,
    view: ViewParams,
    weight: spec_fn(Star) -> Single,
    stars: Seq<Star>,
) -> (at: Seq<(int, int)>)
    requires
        forall|s: Star| #[trigger] weight(s) == fade_of(maths, camera, view, s),
    ensures
        locates(weight, seq![stars], visible_among(maths, camera, view, stars), at),
    decreases stars.len(),
{
    let owned = seq![stars];
    let shown = visible_among(maths, camera, view, stars);
    if stars.len() == 0 {
        Seq::empty()
    } else {
        lemma_weight(maths, camera, view, stars.last());
        let before = stars.drop_last();
        let a = lemma_locates_one(maths, camera, view, weight, before);
        let b = visible_among(maths, camera, view, before);
        let less = seq![before];
        let last = stars.len() - 1;
        assert(weight(stars.last()) == fade_of(maths, camera, view, stars.last()));
        let at = if is_positive(weight(stars.last())) {
            a.push((0, last))
        } else {
            a
        };
        assert forall|i: int| 0 <= i < at.len() implies is_located(
            weight,
            owned,
            shown[i],
            #[trigger] at[i],
        ) by {
            if i < a.len() {
                assert(at[i] == a[i]);
                assert(is_located(weight, less, b[i], a[i]));
                assert(less[a[i].0][a[i].1] == owned[a[i].0][a[i].1]);
                assert(shown[i] == b[i]);
            }
        }
        assert forall|i: int, j: int| 0 <= i < j < at.len() implies comes_before(
            #[trigger] at[i],
            #[trigger] at[j],
        ) by {
            assert(at[i] == a[i]);
            assert(is_located(weight, less, b[i], a[i]));
            if j < a.len() {
                assert(at[j] == a[j]);
            }
        }
        assert forall|n: int, k: int|
            0 <= n < owned.len() && 0 <= k < owned[n].len() && is_positive(
                weight(#[trigger] owned[n][k]),
            ) implies at.contains((n, k)) by {
            if k < last {
                assert(less[n][k] == owned[n][k]);
                let i = choose|i: int| 0 <= i < a.len() && a[i] == (n, k);
                assert(at[i] == (n, k));
            } else {
                assert(at[at.len() - 1] == (n, k));
            }
        }
        at
    }
}

/// The stars that the nodes of a traversal own, as its cache gives them.
spec fn owned_by<M: Fn(Elementary, Double, Double) -> Double>(
    maths: M,
    params: GalaxyParams,
    nodes: Seq<NodeKey>,
) -> Seq<Seq<Star>> {
    Seq::new(nodes.len(), |i: int| stars_of(maths, params, nodes[i]))
}

proof fn lemma_locates_all<M: Fn(Elementary, Double, Double) -> Double>(
    maths: M,
    params: GalaxyParams,
    camera: GalacticCoord,
    view: ViewParams,
    weight: spec_fn(Star) -> Single,
    limit: nat,
    queue: Multiset<QueuedNode>,
    entries: Seq<(CacheKey, Seq<Star>)>,
    budget: nat,
) -> (at: Seq<(int, int)>)
    requires
        is_coherent(maths, params, entries),
        forall|s: Star| #[trigger] weight(s) == fade_of(maths, camera, view, s),
    ensures
        ({
            let found = survey(maths, params, camera, view, limit, queue, entries, budget);
            locates(weight, owned_by(maths, params, found.nodes), found.stars, at)
        }),
    decreases budget,
{
    let found = survey(maths, params, camera, view, limit, queue, entries, budget);
    if budget == 0 || queue.len() == 0 {
        Seq::empty()
    } else {
        let key = first_in(queue).key;
        let fresh = stars_of(maths, params, key);
        law_look_up_keeps_the_cache_coherent(maths, params, limit, entries, key);
        let held = after_look_up(entries, limit, key, fresh);
        let next = next_queue(params, camera, view, queue);
        let rest = survey(maths, params, camera, view, limit, next, held, (budget - 1) as nat);
        let a = lemma_locates_one(maths, camera, view, weight, fresh);
        let b = lemma_locates_all(
            maths,
            params,
            camera,
            view,
            weight,
            limit,
            next,
            held,
            (budget - 1) as nat,
        );
        let others = owned_by(maths, params, rest.nodes);
        let first = visible_among(maths, camera, view, fresh);
        assert(owned_by(maths, params, found.nodes) =~= seq![fresh] + others);
        lemma_locates_both(weight, fresh, others, first, rest.stars, a, b)
    }
}

/// The places in a list of lists, and those in the one before it, together.
proof fn lemma_locates_both(
    weight: spec_fn(Star) -> Single,
    fresh: Seq<Star>,
    others: Seq<Seq<Star>>,
    first: Seq<VisibleStar>,
    rest: Seq<VisibleStar>,
    a: Seq<(int, int)>,
    b: Seq<(int, int)>,
) -> (at: Seq<(int, int)>)
    requires
        locates(weight, seq![fresh], first, a),
        locates(weight, others, rest, b),
    ensures
        locates(weight, seq![fresh] + others, first + rest, at),
{
    let one = seq![fresh];
    let owned = one + others;
    let shown = first + rest;
    let at = a + b.map_values(|p: (int, int)| (p.0 + 1, p.1));
    let m = a.len() as int;
    assert forall|i: int| 0 <= i < at.len() implies is_located(
        weight,
        owned,
        shown[i],
        #[trigger] at[i],
    ) by {
        if i < m {
            assert(at[i] == a[i]);
            assert(is_located(weight, one, first[i], a[i]));
            assert(owned[a[i].0] == one[a[i].0]);
        } else {
            let p = b[i - m];
            assert(at[i] == (p.0 + 1, p.1));
            assert(is_located(weight, others, rest[i - m], p));
            assert(owned[p.0 + 1] == others[p.0]);
        }
    }
    assert forall|i: int, j: int| 0 <= i < j < at.len() implies comes_before(
        #[trigger] at[i],
        #[trigger] at[j],
    ) by {
        if j < m {
            assert(at[i] == a[i] && at[j] == a[j]);
        } else if i < m {
            assert(at[i] == a[i]);
            assert(is_located(weight, one, first[i], a[i]));
            let p = b[j - m];
            assert(is_located(weight, others, rest[j - m], p));
            assert(at[j] == (p.0 + 1, p.1));
        } else {
            let (p, q) = (b[i - m], b[j - m]);
            assert(at[i] == (p.0 + 1, p.1) && at[j] == (q.0 + 1, q.1));
            assert(comes_before(p, q));
        }
    }
    assert forall|n: int, k: int|
        0 <= n < owned.len() && 0 <= k < owned[n].len() && is_positive(
            weight(#[trigger] owned[n][k]),
        ) implies at.contains((n, k)) by {
        if n == 0 {
            assert(one[n][k] == owned[n][k]);
            let i = choose|i: int| 0 <= i < a.len() && a[i] == (n, k);
            assert(at[i] == (n, k));
        } else {
            assert(others[n - 1][k] == owned[n][k]);
            assert(b.contains((n - 1, k)));
            let i = choose|i: int| 0 <= i < b.len() && b[i] == (n - 1, k);
            assert(at[m + i] == (n, k));
        }
    }
    at
}

/// A traversal returns exactly the stars of the visited nodes that have a fade weight above zero,
/// each with its weight, in the order of the nodes and of their stars. It returns where each of
/// them stands: the index of its node among the visited, and its own among the node's stars.
pub proof fn law_all_stars_with_weight_are_found<M: Fn(Elementary, Double, Double) -> Double>(
    maths: M,
    before: Galaxy,
    camera: GalacticCoord,
    view: ViewParams,
    stars: Seq<VisibleStar>,
    stats: TraverseStats,
    nodes: Seq<NodeKey>,
    after: Galaxy,
) -> (at: Seq<(int, int)>)
    requires
        before.finds(maths, camera, view, stars, stats, nodes, after),
        is_coherent(maths, before.params, before.entries()),
    ensures
        at.len() == stars.len(),
        stats.stars_visible == stars.len(),
        forall|i: int| 0 <= i < at.len() ==> {
            let (n, k) = #[trigger] at[i];
            &&& 0 <= n < nodes.len()
            &&& 0 <= k < stars_of(maths, before.params, nodes[n]).len()
            &&& stars[i].star == stars_of(maths, before.params, nodes[n])[k]
            &&& stars[i].fade == fade_at(view, seen_magnitude(maths, camera, stars[i].star))
            &&& !stars[i].fade.nan()
            &&& stars[i].fade.units() > 0
        },
        forall|i: int, j: int|
            0 <= i < j < at.len() ==> comes_before(#[trigger] at[i], #[trigger] at[j]),
        forall|n: int, k: int|
            0 <= n < nodes.len() && 0 <= k < stars_of(maths, before.params, nodes[n]).len() && {
                let fade = fade_at(
                    view,
                    seen_magnitude(
                        maths,
                        camera,
                        #[trigger] stars_of(maths, before.params, nodes[n])[k],
                    ),
                );
                !fade.nan() && fade.units() > 0
            } ==> at.contains((n, k)),
{
    let weight = |s: Star| fade_of(maths, camera, view, s);
    let at = lemma_locates_all(
        maths,
        before.params,
        camera,
        view,
        weight,
        before.capacity(),
        root_queue(before.params, camera),
        before.entries(),
        view.max_nodes as nat,
    );
    let owned = owned_by(maths, before.params, nodes);
    assert forall|i: int| 0 <= i < at.len() implies {
        let (n, k) = #[trigger] at[i];
        &&& 0 <= n < nodes.len()
        &&& 0 <= k < stars_of(maths, before.params, nodes[n]).len()
        &&& stars[i].star == stars_of(maths, before.params, nodes[n])[k]
        &&& stars[i].fade == fade_at(view, seen_magnitude(maths, camera, stars[i].star))
        &&& !stars[i].fade.nan()
        &&& stars[i].fade.units() > 0
    } by {
        assert(is_located(weight, owned, stars[i], at[i]));
        lemma_weight(maths, camera, view, stars[i].star);
    }
    assert forall|n: int, k: int|
        0 <= n < nodes.len() && 0 <= k < stars_of(maths, before.params, nodes[n]).len() && {
            let fade = fade_at(
                view,
                seen_magnitude(
                    maths,
                    camera,
                    #[trigger] stars_of(maths, before.params, nodes[n])[k],
                ),
            );
            !fade.nan() && fade.units() > 0
        } implies at.contains((n, k)) by {
        lemma_weight(maths, camera, view, stars_of(maths, before.params, nodes[n])[k]);
        assert(owned[n][k] == stars_of(maths, before.params, nodes[n])[k]);
    }
    at
}

/// Every star of a visited node that is brighter than the magnitude limit, by ever so little, is
/// found, and none that is not.
pub proof fn law_stars_above_the_limit_are_found<M: Fn(Elementary, Double, Double) -> Double>(
    maths: M,
    before: Galaxy,
    camera: GalacticCoord,
    view: ViewParams,
    stars: Seq<VisibleStar>,
    stats: TraverseStats,
    nodes: Seq<NodeKey>,
    after: Galaxy,
    n: int,
    k: int,
) -> (i: int)
    requires
        before.finds(maths, camera, view, stars, stats, nodes, after),
        is_coherent(maths, before.params, before.entries()),
        0 <= n < nodes.len(),
        0 <= k < stars_of(maths, before.params, nodes[n]).len(),
        view.mag_limit.finite(),
        view.fade_width.finite(),
        size(view.mag_limit.units()) <= pow2(161),
        (Single { bits: 0x3a83_126f /* 1e-3 */ }).units() <= view.fade_width.units() <= pow2(161),
        ({
            let m = seen_magnitude(
                maths,
                camera,
                stars_of(maths, before.params, nodes[n])[k],
            );
            &&& m.finite()
            &&& size(m.units()) <= pow2(161)
            &&& m.units() + pow2(13) <= view.mag_limit.units()
        }),
    ensures
        0 <= i < stars.len(),
        stars[i].star == stars_of(maths, before.params, nodes[n])[k],
{
    let star = stars_of(maths, before.params, nodes[n])[k];
    let m = seen_magnitude(maths, camera, star);
    law_fade_ramps_from_the_limit(view, m);
    let at = law_all_stars_with_weight_are_found(
        maths,
        before,
        camera,
        view,
        stars,
        stats,
        nodes,
        after,
    );
    assert(at.contains((n, k)));
    choose|i: int| 0 <= i < at.len() && at[i] == (n, k)
}

/// A node looks large enough to be descended into, and lies above both depth limits.
pub open spec fn is_descended(
    params: GalaxyParams,
    view: ViewParams,
    camera: GalacticCoord,
    key: NodeKey,
) -> bool {
    &&& key.depth < view.max_depth
    &&& key.depth < params.max_depth
    &&& view.subdivide_angle.less(params.angular_size(key, camera))
}

/// Every queued node is the entry of a node of the tree whose parent was descended into.
spec fn is_grown(
    params: GalaxyParams,
    view: ViewParams,
    camera: GalacticCoord,
    queue: Multiset<QueuedNode>,
) -> bool {
    forall|n: QueuedNode| #[trigger]
        queue.count(n) > 0 ==> {
            &&& n == params.queued(n.key, camera)
            &&& n.key.is_down_to(63)
            &&& n.key.depth > 0 ==> is_descended(params, view, camera, parent_of(n.key))
        }
}

proof fn lemma_grown_children(
    params: GalaxyParams,
    view: ViewParams,
    camera: GalacticCoord,
    queue: Multiset<QueuedNode>,
    key: NodeKey,
    i: nat,
)
    requires
        is_grown(params, view, camera, queue),
        is_descended(params, view, camera, key),
        key.is_down_to(63),
        key.depth < 63,
        i <= 8,
    ensures
        is_grown(params, view, camera, with_children(params, camera, queue, key, i)),
        forall|n: QueuedNode|
            queue.count(n) > 0 ==> #[trigger] with_children(params, camera, queue, key, i).count(n)
                > 0,
        forall|c: int|
            0 <= c < i ==> with_children(params, camera, queue, key, i).count(
                params.queued(#[trigger] key.child(c), camera),
            ) > 0,
    decreases i,
{
    if i > 0 {
        let before = with_children(params, camera, queue, key, (i - 1) as nat);
        lemma_grown_children(params, view, camera, queue, key, (i - 1) as nat);
        key.lemma_children_are_down(63);
        law_children_partition_parent(key, i - 1);
        let kid = params.queued(key.child(i - 1), camera);
        let after = with_children(params, camera, queue, key, i);
        assert(after == before.insert(kid));
        assert(key.child(i - 1).is_down_to(63));
        assert forall|n: QueuedNode| #[trigger] after.count(n) > 0 implies {
            &&& n == params.queued(n.key, camera)
            &&& n.key.is_down_to(63)
            &&& n.key.depth > 0 ==> is_descended(params, view, camera, parent_of(n.key))
        } by {
            if n != kid {
                assert(before.count(n) > 0);
            }
        }
        assert forall|c: int| 0 <= c < i implies after.count(
            params.queued(#[trigger] key.child(c), camera),
        ) > 0 by {
            if c < i - 1 {
                assert(before.count(params.queued(key.child(c), camera)) > 0);
            }
        }
    }
}

/// The number of nodes that are descended into.
pub open spec fn descents(
    params: GalaxyParams,
    view: ViewParams,
    camera: GalacticCoord,
    nodes: Seq<NodeKey>,
) -> nat
    decreases nodes.len(),
{
    if nodes.len() == 0 {
        0
    } else {
        descents(params, view, camera, nodes.drop_first()) + if is_descended(
            params,
            view,
            camera,
            nodes[0],
        ) {
            1nat
        } else {
            0
        }
    }
}

/// The number of stars that nodes own together.
pub open spec fn population<M: Fn(Elementary, Double, Double) -> Double>(
    maths: M,
    params: GalaxyParams,
    nodes: Seq<NodeKey>,
) -> nat
    decreases nodes.len(),
{
    if nodes.len() == 0 {
        0
    } else {
        stars_of(maths, params, nodes[0]).len() + population(maths, params, nodes.drop_first())
    }
}

proof fn lemma_settles<M: Fn(Elementary, Double, Double) -> Double>(
    maths: M,
    params: GalaxyParams,
    camera: GalacticCoord,
    view: ViewParams,
    limit: nat,
    queue: Multiset<QueuedNode>,
    entries: Seq<(CacheKey, Seq<Star>)>,
    budget: nat,
)
    requires
        is_grown(params, view, camera, queue),
        view.max_depth < 64 || params.max_depth < 64,
        is_coherent(maths, params, entries),
    ensures
        ({
            let found = survey(maths, params, camera, view, limit, queue, entries, budget);
            let nodes = found.nodes;
            &&& forall|i: int|
                0 <= i < nodes.len() && (#[trigger] nodes[i]).depth > 0 ==> is_descended(
                    params,
                    view,
                    camera,
                    parent_of(nodes[i]),
                )
            &&& nodes.len() < budget ==> forall|n: QueuedNode| #[trigger]
                queue.count(n) > 0 ==> nodes.contains(n.key)
            &&& nodes.len() < budget ==> forall|i: int, c: int|
                0 <= i < nodes.len() && 0 <= c < 8 && is_descended(params, view, camera, nodes[i])
                    ==> nodes.contains(#[trigger] nodes[i].child(c))
            &&& found.subdivided == descents(params, view, camera, nodes)
            &&& found.generated == population(maths, params, nodes)
        }),
    decreases budget,
{
    let found = survey(maths, params, camera, view, limit, queue, entries, budget);
    let nodes = found.nodes;
    if budget > 0 && queue.len() > 0 {
        lemma_first_exists(queue);
        let f = first_in(queue);
        let key = f.key;
        assert(queue.count(f) > 0);
        let fresh = stars_of(maths, params, key);
        law_look_up_keeps_the_cache_coherent(maths, params, limit, entries, key);
        let held = after_look_up(entries, limit, key, fresh);
        let next = next_queue(params, camera, view, queue);
        let less = queue.remove(f);
        assert forall|n: QueuedNode| #[trigger] less.count(n) > 0 implies {
            &&& n == params.queued(n.key, camera)
            &&& n.key.is_down_to(63)
            &&& n.key.depth > 0 ==> is_descended(params, view, camera, parent_of(n.key))
        } by {
            assert(queue.count(n) > 0);
        }
        assert(is_split(params, view, f) == is_descended(params, view, camera, key));
        if is_split(params, view, f) {
            lemma_grown_children(params, view, camera, less, key, 8);
        }
        lemma_settles(maths, params, camera, view, limit, next, held, (budget - 1) as nat);
        let rest = survey(maths, params, camera, view, limit, next, held, (budget - 1) as nat);
        assert(nodes == seq![key] + rest.nodes);
        assert(nodes.drop_first() =~= rest.nodes);
        assert forall|i: int| 0 <= i < nodes.len() && (#[trigger] nodes[i]).depth > 0 implies is_descended(
            params,
            view,
            camera,
            parent_of(nodes[i]),
        ) by {
            if i > 0 {
                assert(nodes[i] == rest.nodes[i - 1]);
            }
        }
        if nodes.len() < budget {
            assert forall|n: QueuedNode| #[trigger] queue.count(n) > 0 implies nodes.contains(
                n.key,
            ) by {
                if n.key == key {
                    assert(nodes[0] == n.key);
                } else {
                    assert(less.count(n) > 0);
                    assert(next.count(n) > 0);
                    let j = choose|j: int| 0 <= j < rest.nodes.len() && rest.nodes[j] == n.key;
                    assert(nodes[j + 1] == n.key);
                }
            }
            assert forall|i: int, c: int|
                0 <= i < nodes.len() && 0 <= c < 8 && is_descended(
                    params,
                    view,
                    camera,
                    nodes[i],
                ) implies nodes.contains(#[trigger] nodes[i].child(c)) by {
                let kid = nodes[i].child(c);
                if i == 0 {
                    let q = params.queued(key.child(c), camera);
                    assert(next.count(q) > 0);
                } else {
                    assert(nodes[i] == rest.nodes[i - 1]);
                    assert(rest.nodes.contains(rest.nodes[i - 1].child(c)));
                }
                let j = choose|j: int| 0 <= j < rest.nodes.len() && rest.nodes[j] == kid;
                assert(nodes[j + 1] == kid);
            }
        }
    }
}

/// A traversal descends into the nodes that look larger than the subdivide angle, down to both
/// depth limits, and into no others: every visited node but the root has a parent of that kind,
/// and unless the budget is used up all eight children of every such node are visited. The
/// statistics count the nodes that were descended into and the stars that the visited ones own.
pub proof fn law_traversal_descends_where_nodes_look_large<
    M: Fn(Elementary, Double, Double) -> Double,
>(
    maths: M,
    before: Galaxy,
    camera: GalacticCoord,
    view: ViewParams,
    stars: Seq<VisibleStar>,
    stats: TraverseStats,
    nodes: Seq<NodeKey>,
    after: Galaxy,
)
    requires
        before.finds(maths, camera, view, stars, stats, nodes, after),
        is_coherent(maths, before.params, before.entries()),
        view.max_depth < 64 || before.params.max_depth < 64,
    ensures
        stats.nodes_visited == nodes.len(),
        nodes.len() <= view.max_nodes,
        view.max_nodes > 0 ==> nodes.contains(root_key()),
        forall|i: int|
            0 <= i < nodes.len() && (#[trigger] nodes[i]).depth > 0 ==> is_descended(
                before.params,
                view,
                camera,
                parent_of(nodes[i]),
            ),
        nodes.len() < view.max_nodes ==> forall|i: int, c: int|
            0 <= i < nodes.len() && 0 <= c < 8 && is_descended(
                before.params,
                view,
                camera,
                nodes[i],
            ) ==> nodes.contains(#[trigger] nodes[i].child(c)),
        stats.nodes_subdivided == descents(before.params, view, camera, nodes),
        stats.stars_generated == saturated(
            population(maths, before.params, nodes) as int,
            0,
            usize::MAX as int,
        ),
{
    let queue = root_queue(before.params, camera);
    let root = before.params.queued(root_key(), camera);
    NodeKey::lemma_root_is_down(63);
    assert forall|n: QueuedNode| #[trigger] queue.count(n) > 0 implies {
        &&& n == before.params.queued(n.key, camera)
        &&& n.key.is_down_to(63)
        &&& n.key.depth > 0 ==> is_descended(before.params, view, camera, parent_of(n.key))
    } by {
        assert(n == root);
    }
    lemma_settles(
        maths,
        before.params,
        camera,
        view,
        before.capacity(),
        queue,
        before.entries(),
        view.max_nodes as nat,
    );
    lemma_budget_holds(
        maths,
        before.params,
        camera,
        view,
        before.capacity(),
        queue,
        before.entries(),
        view.max_nodes as nat,
    );
    if view.max_nodes > 0 {
        assert(queue.count(root) > 0);
        lemma_first_exists(queue);
        assert(queue.count(first_in(queue)) > 0);
        assert(first_in(queue) == root);
        assert(nodes[0] == root_key());
    }
}

proof fn lemma_budget_holds<M: Fn(Elementary, Double, Double) -> Double>(
    maths: M,
    params: GalaxyParams,
    camera: GalacticCoord,
    view: ViewParams,
    limit: nat,
    queue: Multiset<QueuedNode>,
    entries: Seq<(CacheKey, Seq<Star>)>,
    budget: nat,
)
    ensures
        survey(maths, params, camera, view, limit, queue, entries, budget).nodes.len() <= budget,
    decreases budget,
{
    if budget > 0 && queue.len() > 0 {
        let key = first_in(queue).key;
        lemma_budget_holds(
            maths,
            params,
            camera,
            view,
            limit,
            next_queue(params, camera, view, queue),
            after_look_up(entries, limit, key, stars_of(maths, params, key)),
            (budget - 1) as nat,
        );
    }
}

/// The statistics of a traversal add up: the visible stars are those that it returns, and every
/// visited node either was in the cache or was not.
pub proof fn law_statistics_add_up<M: Fn(Elementary, Double, Double) -> Double>(
    maths: M,
    before: Galaxy,
    camera: GalacticCoord,
    view: ViewParams,
    stars: Seq<VisibleStar>,
    stats: TraverseStats,
    nodes: Seq<NodeKey>,
    after: Galaxy,
)
    requires
        before.finds(maths, camera, view, stars, stats, nodes, after),
    ensures
        stats.stars_visible == stars.len(),
        stats.nodes_visited == nodes.len(),
        stats.cache_hits + stats.cache_misses == stats.nodes_visited,
        after.params == before.params,
        after.capacity() == before.capacity(),
{
}

} // verus!
