//! Laws of the traversal.
use vstd::multiset::Multiset;
use vstd::prelude::*;

use crate::cache::{
    after_look_up, after_use, entry_index, has_entry, is_entry_of, key_of, looked_up, CacheKey,
};
use crate::coord::GalacticCoord;
use crate::generate::stars_of;
use crate::ieee::{Double, Single};
use crate::laws::node::{law_children_are_distinct, law_children_partition_parent, parent_of};
use crate::maths::Elementary;
use crate::node::NodeKey;
use crate::octree::{
    depth_cap, fade_of, first_in, is_first, is_split, next_queue, root_queue, survey,
    visible_among, with_children, ViewParams,
};
use crate::params::{GalaxyParams, Star};
use crate::queue::{lemma_ranks_are_total, QueuedNode};

verus! {

/// The key of the root.
pub open spec fn root_key() -> NodeKey {
    NodeKey { depth: 0, ix: 0, iy: 0, iz: 0 }
}

/// A queue that is not empty has a first node.
pub proof fn lemma_first_exists(queue: Multiset<QueuedNode>)
    requires
        queue.len() > 0,
    ensures
        is_first(queue, first_in(queue)),
    decreases queue.len(),
{
    let x = queue.choose();
    assert(queue.count(x) > 0);
    let rest = queue.remove(x);
    if rest.len() == 0 {
        assert forall|m: QueuedNode| queue.count(m) > 0 implies !#[trigger] m.outranks(x) by {
            if m != x {
                assert(rest.count(m) > 0);
            }
            lemma_ranks_are_total(m, x, x);
        }
        assert(is_first(queue, x));
    } else {
        lemma_first_exists(rest);
        let y = first_in(rest);
        let best = if x.outranks(y) {
            x
        } else {
            y
        };
        assert forall|m: QueuedNode| queue.count(m) > 0 implies !#[trigger] m.outranks(best) by {
            lemma_ranks_are_total(m, y, x);
            lemma_ranks_are_total(x, y, m);
            lemma_ranks_are_total(m, x, y);
            lemma_ranks_are_total(m, m, m);
            if m != x {
                assert(rest.count(m) > 0);
            }
        }
        assert(queue.count(best) > 0);
        assert(is_first(queue, best));
    }
}

/// The queue and the nodes seen so far are in order: every entry stands once, was not seen, lies
/// in the tree, and has its parent among the seen nodes, as every seen node has.
pub open spec fn is_fair(
    params: GalaxyParams,
    camera: GalacticCoord,
    cap: u8,
    queue: Multiset<QueuedNode>,
    seen: Set<NodeKey>,
) -> bool {
    &&& forall|n: QueuedNode| #[trigger]
        queue.count(n) > 0 ==> {
            &&& queue.count(n) == 1
            &&& n == params.queued(n.key, camera)
            &&& n.key.is_down_to(cap)
            &&& !seen.contains(n.key)
            &&& n.key.depth > 0 ==> seen.contains(parent_of(n.key))
        }
    &&& forall|k: NodeKey| #[trigger]
        seen.contains(k) ==> k.is_down_to(cap) && (k.depth > 0 ==> seen.contains(parent_of(k)))
}

/// The first `i` children of a node join a queue that stays in order.
proof fn lemma_children_join(
    params: GalaxyParams,
    camera: GalacticCoord,
    cap: u8,
    queue: Multiset<QueuedNode>,
    seen: Set<NodeKey>,
    key: NodeKey,
    i: nat,
)
    requires
        cap < 64,
        key.depth < cap,
        seen.contains(key),
        is_fair(params, camera, cap, queue, seen),
        i <= 8,
        forall|j: int|
            0 <= j < 8 ==> queue.count(params.queued(#[trigger] key.child(j), camera)) == 0
                && !seen.contains(key.child(j)),
    ensures
        is_fair(params, camera, cap, with_children(params, camera, queue, key, i), seen),
        forall|n: QueuedNode|
            queue.count(n) > 0 ==> #[trigger] with_children(params, camera, queue, key, i).count(n)
                > 0,
        forall|n: QueuedNode| #[trigger]
            with_children(params, camera, queue, key, i).count(n) > 0 ==> queue.count(n) > 0 || exists|
                j: int,
            | 0 <= j < i && n == params.queued(#[trigger] key.child(j), camera),
    decreases i,
{
    key.lemma_children_are_down(cap);
    if i > 0 {
        lemma_children_join(params, camera, cap, queue, seen, key, (i - 1) as nat);
        let before = with_children(params, camera, queue, key, (i - 1) as nat);
        let after = with_children(params, camera, queue, key, i);
        let c = params.queued(key.child(i - 1), camera);
        law_children_partition_parent(key, i - 1);
        assert(before.count(c) == 0) by {
            if before.count(c) > 0 {
                assert(queue.count(params.queued(key.child(i - 1), camera)) == 0);
                let j = choose|j: int| 0 <= j < i - 1 && c == params.queued(#[trigger] key.child(j), camera);
                law_children_are_distinct(key, i - 1, j);
            }
        }
        assert(!seen.contains(key.child(i - 1)));
        assert forall|n: QueuedNode| #[trigger] after.count(n) > 0 implies {
            &&& after.count(n) == 1
            &&& n == params.queued(n.key, camera)
            &&& n.key.is_down_to(cap)
            &&& !seen.contains(n.key)
            &&& n.key.depth > 0 ==> seen.contains(parent_of(n.key))
        } by {
            if n != c {
                assert(before.count(n) == after.count(n));
            } else {
                assert(key.child(i - 1).is_down_to(cap));
            }
        }
        assert forall|n: QueuedNode| #[trigger] after.count(n) > 0 implies queue.count(n) > 0 || exists|
            j: int,
        | 0 <= j < i && n == params.queued(#[trigger] key.child(j), camera) by {
            if n != c {
                assert(before.count(n) == after.count(n));
                if queue.count(n) == 0 {
                    let j = choose|j: int| 0 <= j < i - 1 && n == params.queued(#[trigger] key.child(j), camera);
                    assert(0 <= j < i && n == params.queued(key.child(j), camera));
                }
            } else {
                assert(n == params.queued(key.child(i - 1), camera));
            }
        }
    }
}

/// Visiting the first node of a queue keeps everything in order.
proof fn lemma_visit_is_fair(
    params: GalaxyParams,
    camera: GalacticCoord,
    view: ViewParams,
    cap: u8,
    queue: Multiset<QueuedNode>,
    seen: Set<NodeKey>,
)
    requires
        cap == depth_cap(params, view),
        cap < 64,
        queue.len() > 0,
        is_fair(params, camera, cap, queue, seen),
    ensures
        queue.count(first_in(queue)) > 0,
        first_in(queue).key.is_down_to(cap),
        !seen.contains(first_in(queue).key),
        is_fair(
            params,
            camera,
            cap,
            next_queue(params, camera, view, queue),
            seen.insert(first_in(queue).key),
        ),
{
    lemma_first_exists(queue);
    let n = first_in(queue);
    let key = n.key;
    let rest = queue.remove(n);
    let next_seen = seen.insert(key);
    assert(queue.count(n) == 1);
    assert forall|m: QueuedNode| #[trigger] rest.count(m) > 0 implies {
        &&& rest.count(m) == 1
        &&& m == params.queued(m.key, camera)
        &&& m.key.is_down_to(cap)
        &&& !next_seen.contains(m.key)
        &&& m.key.depth > 0 ==> next_seen.contains(parent_of(m.key))
    } by {
        if m != n {
            assert(queue.count(m) == rest.count(m));
            if m.key == key {
                assert(m == params.queued(m.key, camera) && n == params.queued(n.key, camera));
            }
        }
    }
    assert(is_fair(params, camera, cap, rest, next_seen));
    if is_split(params, view, n) {
        key.lemma_children_are_down(cap);
        assert forall|j: int| 0 <= j < 8 implies rest.count(params.queued(#[trigger] key.child(j), camera)) == 0
            && !next_seen.contains(key.child(j)) by {
            law_children_partition_parent(key, j);
            let c = params.queued(key.child(j), camera);
            // A child that was queued or seen would have its parent among the seen nodes.
            if rest.count(c) > 0 {
                assert(queue.count(c) > 0);
                assert(seen.contains(parent_of(c.key)));
            }
            if seen.contains(key.child(j)) {
                assert(seen.contains(parent_of(key.child(j))));
            }
        }
        lemma_children_join(params, camera, cap, rest, next_seen, key, 8);
    }
}

proof fn lemma_visits<M: Fn(Elementary, Double, Double) -> Double>(
    maths: M,
    params: GalaxyParams,
    camera: GalacticCoord,
    view: ViewParams,
    limit: nat,
    queue: Multiset<QueuedNode>,
    entries: Seq<(CacheKey, Seq<Star>)>,
    budget: nat,
    seen: Set<NodeKey>,
)
    requires
        depth_cap(params, view) < 64,
        is_fair(params, camera, depth_cap(params, view), queue, seen),
    ensures
        ({
            let nodes = survey(maths, params, camera, view, limit, queue, entries, budget).nodes;
            &&& nodes.len() <= budget
            &&& nodes.no_duplicates()
            &&& forall|i: int| 0 <= i < nodes.len() ==> {
                &&& !seen.contains(#[trigger] nodes[i])
                &&& nodes[i].is_down_to(depth_cap(params, view))
            }
            &&& forall|i: int|
                0 <= i < nodes.len() && (#[trigger] nodes[i]).depth > 0 ==> seen.contains(
                    parent_of(nodes[i]),
                ) || nodes.take(i).contains(parent_of(nodes[i]))
        }),
    decreases budget,
{
    let cap = depth_cap(params, view);
    let found = survey(maths, params, camera, view, limit, queue, entries, budget);
    let nodes = found.nodes;
    if budget > 0 && queue.len() > 0 {
        let n = first_in(queue);
        lemma_visit_is_fair(params, camera, view, cap, queue, seen);
        let next = next_queue(params, camera, view, queue);
        let held = after_look_up(entries, limit, n.key, stars_of(maths, params, n.key));
        let next_seen = seen.insert(n.key);
        lemma_visits(maths, params, camera, view, limit, next, held, (budget - 1) as nat, next_seen);
        let rest = survey(maths, params, camera, view, limit, next, held, (budget - 1) as nat).nodes;
        assert(nodes == seq![n.key] + rest);
        assert forall|i: int, j: int| 0 <= i < nodes.len() && 0 <= j < nodes.len() && i != j implies nodes[i]
            != nodes[j] by {
            if i == 0 {
                assert(nodes[j] == rest[j - 1]);
            } else if j == 0 {
                assert(nodes[i] == rest[i - 1]);
            } else {
                assert(nodes[i] == rest[i - 1] && nodes[j] == rest[j - 1]);
            }
        }
        assert forall|i: int| 0 <= i < nodes.len() implies !seen.contains(#[trigger] nodes[i])
            && nodes[i].is_down_to(cap) by {
            if i > 0 {
                assert(nodes[i] == rest[i - 1]);
            }
        }
        assert forall|i: int| 0 <= i < nodes.len() && (#[trigger] nodes[i]).depth > 0 implies seen.contains(
            parent_of(nodes[i]),
        ) || nodes.take(i).contains(parent_of(nodes[i])) by {
            if i == 0 {
                assert(queue.count(n) > 0);
            } else {
                let p = parent_of(nodes[i]);
                assert(nodes[i] == rest[i - 1]);
                if next_seen.contains(p) {
                    if p == n.key {
                        assert(nodes.take(i)[0] == p);
                    }
                } else {
                    let earlier = rest.take(i - 1);
                    let j = choose|j: int| 0 <= j < earlier.len() && #[trigger] earlier[j] == p;
                    assert(nodes.take(i)[j + 1] == p);
                }
            }
        }
    }
}

proof fn lemma_root_is_fair(params: GalaxyParams, camera: GalacticCoord, cap: u8)
    ensures
        is_fair(params, camera, cap, root_queue(params, camera), Set::empty()),
{
    NodeKey::lemma_root_is_down(cap);
}

/// Descending the tree never visits a node twice, stays within the tree, the depth cap and the
/// node budget, and visits a node only after its parent.
pub proof fn law_traversal_visits_each_node_once<M: Fn(Elementary, Double, Double) -> Double>(
    maths: M,
    params: GalaxyParams,
    camera: GalacticCoord,
    view: ViewParams,
    limit: nat,
    entries: Seq<(CacheKey, Seq<Star>)>,
)
    requires
        depth_cap(params, view) < 64,
    ensures
        ({
            let nodes = survey(
                maths,
                params,
                camera,
                view,
                limit,
                root_queue(params, camera),
                entries,
                view.max_nodes as nat,
            ).nodes;
            &&& nodes.len() <= view.max_nodes
            &&& nodes.no_duplicates()
            &&& forall|i: int|
                0 <= i < nodes.len() ==> (#[trigger] nodes[i]).is_down_to(depth_cap(params, view))
            &&& forall|i: int|
                0 <= i < nodes.len() && (#[trigger] nodes[i]).depth > 0 ==> nodes.take(i).contains(
                    parent_of(nodes[i]),
                )
            &&& view.max_nodes > 0 ==> nodes.len() > 0 && nodes[0] == root_key()
        }),
{
    let queue = root_queue(params, camera);
    lemma_root_is_fair(params, camera, depth_cap(params, view));
    lemma_visits(maths, params, camera, view, limit, queue, entries, view.max_nodes as nat, Set::empty());
    if view.max_nodes > 0 {
        lemma_first_exists(queue);
    }
}

/// The nodes that a traversal visits.
pub open spec fn path(
    params: GalaxyParams,
    camera: GalacticCoord,
    view: ViewParams,
    queue: Multiset<QueuedNode>,
    budget: nat,
) -> Seq<NodeKey>
    decreases budget,
{
    if budget == 0 || queue.len() == 0 {
        Seq::empty()
    } else {
        seq![first_in(queue).key] + path(
            params,
            camera,
            view,
            next_queue(params, camera, view, queue),
            (budget - 1) as nat,
        )
    }
}

/// What the cache holds after the look-up of several nodes.
pub open spec fn after_look_ups<M: Fn(Elementary, Double, Double) -> Double>(
    maths: M,
    params: GalaxyParams,
    limit: nat,
    entries: Seq<(CacheKey, Seq<Star>)>,
    nodes: Seq<NodeKey>,
) -> Seq<(CacheKey, Seq<Star>)>
    decreases nodes.len(),
{
    if nodes.len() == 0 {
        entries
    } else {
        after_look_ups(
            maths,
            params,
            limit,
            after_look_up(entries, limit, nodes[0], stars_of(maths, params, nodes[0])),
            nodes.drop_first(),
        )
    }
}

/// How many of several nodes are found in the cache, looked up one after the other.
pub open spec fn hits_among<M: Fn(Elementary, Double, Double) -> Double>(
    maths: M,
    params: GalaxyParams,
    limit: nat,
    entries: Seq<(CacheKey, Seq<Star>)>,
    nodes: Seq<NodeKey>,
) -> nat
    decreases nodes.len(),
{
    if nodes.len() == 0 {
        0
    } else {
        hits_among(
            maths,
            params,
            limit,
            after_look_up(entries, limit, nodes[0], stars_of(maths, params, nodes[0])),
            nodes.drop_first(),
        ) + if has_entry(entries, key_of(nodes[0])) {
            1nat
        } else {
            0
        }
    }
}

/// Which nodes are visited does not depend on the cache; what the cache holds afterwards, and
/// how often it was hit, depends on the visited nodes alone.
pub proof fn law_cache_does_not_steer_the_traversal<M: Fn(Elementary, Double, Double) -> Double>(
    maths: M,
    params: GalaxyParams,
    camera: GalacticCoord,
    view: ViewParams,
    limit: nat,
    queue: Multiset<QueuedNode>,
    entries: Seq<(CacheKey, Seq<Star>)>,
    budget: nat,
)
    ensures
        ({
            let found = survey(maths, params, camera, view, limit, queue, entries, budget);
            let nodes = path(params, camera, view, queue, budget);
            &&& found.nodes == nodes
            &&& found.entries == after_look_ups(maths, params, limit, entries, nodes)
            &&& found.hits == hits_among(maths, params, limit, entries, nodes)
        }),
    decreases budget,
{
    if budget > 0 && queue.len() > 0 {
        let n = first_in(queue);
        let next = next_queue(params, camera, view, queue);
        let held = after_look_up(entries, limit, n.key, stars_of(maths, params, n.key));
        law_cache_does_not_steer_the_traversal(
            maths,
            params,
            camera,
            view,
            limit,
            next,
            held,
            (budget - 1) as nat,
        );
        let nodes = path(params, camera, view, queue, budget);
        assert(nodes.drop_first() =~= path(params, camera, view, next, (budget - 1) as nat));
        assert(nodes[0] == n.key);
    }
}

/// The cache begins with the given nodes, the last of them first.
spec fn is_fronted(entries: Seq<(CacheKey, Seq<Star>)>, nodes: Seq<NodeKey>) -> bool {
    &&& nodes.len() <= entries.len()
    &&& forall|i: int|
        0 <= i < nodes.len() ==> (#[trigger] entries[i]).0 == key_of(nodes[nodes.len() - 1 - i])
}

proof fn lemma_fronts<M: Fn(Elementary, Double, Double) -> Double>(
    maths: M,
    params: GalaxyParams,
    limit: nat,
    entries: Seq<(CacheKey, Seq<Star>)>,
    before: Seq<NodeKey>,
    nodes: Seq<NodeKey>,
)
    requires
        is_fronted(entries, before),
        (before + nodes).no_duplicates(),
        before.len() + nodes.len() <= limit,
    ensures
        is_fronted(after_look_ups(maths, params, limit, entries, nodes), before + nodes),
    decreases nodes.len(),
{
    if nodes.len() == 0 {
        assert(before + nodes =~= before);
    } else {
        let key = nodes[0];
        let k = key_of(key);
        let fresh = stars_of(maths, params, key);
        let held = after_look_up(entries, limit, key, fresh);
        let more = before.push(key);
        let all = before + nodes;
        assert(more + nodes.drop_first() =~= all);
        assert forall|i: int| 0 <= i < before.len() implies (#[trigger] entries[i]).0 != k by {
            assert(entries[i].0 == key_of(before[before.len() - 1 - i]));
            assert(all[before.len() - 1 - i] == before[before.len() - 1 - i]);
            assert(all[before.len() as int] == key);
        }
        if has_entry(entries, k) {
            let j = entry_index(entries, k);
            assert(is_entry_of(entries, k, j));
            assert(j >= before.len());
        }
        assert forall|i: int| 0 <= i < more.len() implies (#[trigger] held[i]).0 == key_of(more[more.len() - 1 - i]) by {
            if i > 0 {
                assert(held[i] == entries[i - 1]);
                assert(more[more.len() - 1 - i] == before[before.len() - 1 - (i - 1)]);
            }
        }
        lemma_fronts(maths, params, limit, held, more, nodes.drop_first());
    }
}

/// Every one of the nodes is cached.
pub open spec fn all_cached(entries: Seq<(CacheKey, Seq<Star>)>, nodes: Seq<NodeKey>) -> bool {
    forall|i: int| 0 <= i < nodes.len() ==> has_entry(entries, key_of(#[trigger] nodes[i]))
}

proof fn lemma_use_keeps_entries(entries: Seq<(CacheKey, Seq<Star>)>, k: CacheKey, other: CacheKey)
    requires
        has_entry(entries, k),
        has_entry(entries, other),
    ensures
        has_entry(after_use(entries, k), other),
{
    let i = entry_index(entries, k);
    assert(is_entry_of(entries, k, i));
    let j = entry_index(entries, other);
    assert(is_entry_of(entries, other, j));
    let next = after_use(entries, k);
    if j == i {
        assert(is_entry_of(next, other, 0));
    } else if j < i {
        assert(next[j + 1] == entries[j]);
        assert(is_entry_of(next, other, j + 1));
    } else {
        assert(next[j] == entries[j]);
        assert(is_entry_of(next, other, j));
    }
}

proof fn lemma_all_hits<M: Fn(Elementary, Double, Double) -> Double>(
    maths: M,
    params: GalaxyParams,
    limit: nat,
    entries: Seq<(CacheKey, Seq<Star>)>,
    nodes: Seq<NodeKey>,
)
    requires
        all_cached(entries, nodes),
    ensures
        hits_among(maths, params, limit, entries, nodes) == nodes.len(),
    decreases nodes.len(),
{
    if nodes.len() > 0 {
        let k = key_of(nodes[0]);
        let held = after_use(entries, k);
        let rest = nodes.drop_first();
        assert(has_entry(entries, k));
        assert forall|i: int| 0 <= i < rest.len() implies has_entry(held, key_of(#[trigger] rest[i])) by {
            assert(rest[i] == nodes[i + 1]);
            lemma_use_keeps_entries(entries, k, key_of(rest[i]));
        }
        lemma_all_hits(maths, params, limit, held, rest);
    }
}

/// A second traversal like the first finds every node in the cache, provided that the cache has
/// room for all of them, whatever it held before.
pub proof fn law_second_pass_is_fully_cached<M: Fn(Elementary, Double, Double) -> Double>(
    maths: M,
    params: GalaxyParams,
    camera: GalacticCoord,
    view: ViewParams,
    limit: nat,
    entries: Seq<(CacheKey, Seq<Star>)>,
)
    requires
        depth_cap(params, view) < 64,
        survey(
            maths,
            params,
            camera,
            view,
            limit,
            root_queue(params, camera),
            entries,
            view.max_nodes as nat,
        ).nodes.len() <= limit,
    ensures
        ({
            let queue = root_queue(params, camera);
            let budget = view.max_nodes as nat;
            let first = survey(maths, params, camera, view, limit, queue, entries, budget);
            let second = survey(maths, params, camera, view, limit, queue, first.entries, budget);
            &&& second.nodes == first.nodes
            &&& second.hits == second.nodes.len()
        }),
{
    let queue = root_queue(params, camera);
    let budget = view.max_nodes as nat;
    let nodes = path(params, camera, view, queue, budget);
    let first = survey(maths, params, camera, view, limit, queue, entries, budget);
    law_cache_does_not_steer_the_traversal(maths, params, camera, view, limit, queue, entries, budget);
    law_cache_does_not_steer_the_traversal(maths, params, camera, view, limit, queue, first.entries, budget);
    law_traversal_visits_each_node_once(maths, params, camera, view, limit, entries);
    assert(Seq::<NodeKey>::empty() + nodes =~= nodes);
    lemma_fronts(maths, params, limit, entries, Seq::empty(), nodes);
    assert forall|i: int| 0 <= i < nodes.len() implies has_entry(first.entries, key_of(#[trigger] nodes[i])) by {
        assert(first.entries[nodes.len() - 1 - i].0 == key_of(nodes[i]));
        assert(is_entry_of(first.entries, key_of(nodes[i]), nodes.len() - 1 - i));
    }
    lemma_all_hits(maths, params, limit, first.entries, nodes);
}

/// What the cache holds for a node is what generation gives.
pub open spec fn is_coherent<M: Fn(Elementary, Double, Double) -> Double>(
    maths: M,
    params: GalaxyParams,
    entries: Seq<(CacheKey, Seq<Star>)>,
) -> bool {
    forall|i: int, key: NodeKey|
        0 <= i < entries.len() && (#[trigger] entries[i]).0 == #[trigger] key_of(key) ==> entries[i].1
            == stars_of(maths, params, key)
}

/// A look-up in a coherent cache gives what generation gives, and leaves the cache coherent.
pub proof fn law_look_up_keeps_the_cache_coherent<M: Fn(Elementary, Double, Double) -> Double>(
    maths: M,
    params: GalaxyParams,
    limit: nat,
    entries: Seq<(CacheKey, Seq<Star>)>,
    key: NodeKey,
)
    requires
        is_coherent(maths, params, entries),
    ensures
        looked_up(entries, key, stars_of(maths, params, key)) == stars_of(maths, params, key),
        is_coherent(
            maths,
            params,
            after_look_up(entries, limit, key, stars_of(maths, params, key)),
        ),
{
    let fresh = stars_of(maths, params, key);
    let next = after_look_up(entries, limit, key, fresh);
    let k = key_of(key);
    if has_entry(entries, k) {
        assert(is_entry_of(entries, k, entry_index(entries, k)));
    }
    let j = entry_index(entries, k);
    assert forall|i: int, other: NodeKey|
        0 <= i < next.len() && (#[trigger] next[i]).0 == #[trigger] key_of(other) implies next[i].1
        == stars_of(maths, params, other) by {
        if has_entry(entries, k) {
            if i == 0 {
                assert(next[0] == entries[j]);
            } else if i - 1 < j {
                assert(next[i] == entries[i - 1]);
            } else {
                assert(next[i] == entries[i]);
            }
        } else if i == 0 {
            assert(key_of(other) == k);
            assert(other == key);
        } else {
            assert(next[i] == entries[i - 1]);
        }
    }
}

/// Traversal is deterministic: for the same camera and view, whatever a coherent cache holds,
/// the visible stars, the visited nodes and the counts of stars and subdivisions are the same,
/// even where the node budget cuts the traversal short.
pub proof fn law_traversal_is_deterministic<M: Fn(Elementary, Double, Double) -> Double>(
    maths: M,
    params: GalaxyParams,
    camera: GalacticCoord,
    view: ViewParams,
    queue: Multiset<QueuedNode>,
    budget: nat,
    limit1: nat,
    entries1: Seq<(CacheKey, Seq<Star>)>,
    limit2: nat,
    entries2: Seq<(CacheKey, Seq<Star>)>,
)
    requires
        is_coherent(maths, params, entries1),
        is_coherent(maths, params, entries2),
    ensures
        ({
            let a = survey(maths, params, camera, view, limit1, queue, entries1, budget);
            let b = survey(maths, params, camera, view, limit2, queue, entries2, budget);
            &&& a.stars == b.stars
            &&& a.nodes == b.nodes
            &&& a.subdivided == b.subdivided
            &&& a.generated == b.generated
            &&& is_coherent(maths, params, a.entries)
        }),
    decreases budget,
{
    if budget > 0 && queue.len() > 0 {
        let key = first_in(queue).key;
        let fresh = stars_of(maths, params, key);
        law_look_up_keeps_the_cache_coherent(maths, params, limit1, entries1, key);
        law_look_up_keeps_the_cache_coherent(maths, params, limit2, entries2, key);
        law_traversal_is_deterministic(
            maths,
            params,
            camera,
            view,
            next_queue(params, camera, view, queue),
            (budget - 1) as nat,
            limit1,
            after_look_up(entries1, limit1, key, fresh),
            limit2,
            after_look_up(entries2, limit2, key, fresh),
        );
    }
}

/// Changing the subdivision angle does not move anything before the first node on which the two
/// angles decide differently: up to and including that node both traversals visit the same
/// nodes in the same order.
pub proof fn law_traversal_is_stable_across_subdivide_angle(
    params: GalaxyParams,
    camera: GalacticCoord,
    v1: ViewParams,
    v2: ViewParams,
    queue: Multiset<QueuedNode>,
    budget: nat,
    k: nat,
)
    requires
        forall|n: QueuedNode| queue.count(n) > 0 ==> #[trigger] params.queued(n.key, camera) == n,
        k < path(params, camera, v1, queue, budget).len(),
        forall|i: int|
            0 <= i < k ==> ({
                let n = params.queued(
                    #[trigger] path(params, camera, v1, queue, budget)[i],
                    camera,
                );
                is_split(params, v1, n) == is_split(params, v2, n)
            }),
    ensures
        k < path(params, camera, v2, queue, budget).len(),
        path(params, camera, v1, queue, budget).take(k as int + 1) == path(
            params,
            camera,
            v2,
            queue,
            budget,
        ).take(k as int + 1),
    decreases budget,
{
    let p1 = path(params, camera, v1, queue, budget);
    let p2 = path(params, camera, v2, queue, budget);
    lemma_first_exists(queue);
    let n = first_in(queue);
    assert(p1[0] == n.key && p2[0] == n.key);
    if k == 0 {
        assert(p1.take(1) =~= p2.take(1));
    } else {
        assert(params.queued(p1[0], camera) == n);
        let next = next_queue(params, camera, v1, queue);
        assert(next == next_queue(params, camera, v2, queue));
        assert forall|m: QueuedNode| next.count(m) > 0 implies #[trigger] params.queued(m.key, camera) == m by {
            lemma_queue_members(params, camera, queue.remove(n), n.key, 8, m);
            if queue.remove(n).count(m) > 0 {
                assert(queue.count(m) > 0);
            }
        }
        let r1 = path(params, camera, v1, next, (budget - 1) as nat);
        let r2 = path(params, camera, v2, next, (budget - 1) as nat);
        assert forall|i: int| 0 <= i < k - 1 implies ({
            let m = params.queued(#[trigger] r1[i], camera);
            is_split(params, v1, m) == is_split(params, v2, m)
        }) by {
            assert(p1[i + 1] == r1[i]);
        }
        law_traversal_is_stable_across_subdivide_angle(
            params,
            camera,
            v1,
            v2,
            next,
            (budget - 1) as nat,
            (k - 1) as nat,
        );
        assert forall|i: int| 0 <= i < k + 1 implies #[trigger] p1.take(k as int + 1)[i] == p2.take(k as int + 1)[i] by {
            if i > 0 {
                assert(p1[i] == r1[i - 1] && p2[i] == r2[i - 1]);
                assert(r1.take(k as int)[i - 1] == r2.take(k as int)[i - 1]);
            }
        }
        assert(p1.take(k as int + 1) =~= p2.take(k as int + 1));
    }
}

/// What is in a queue with children was in the queue or is a child.
proof fn lemma_queue_members(
    params: GalaxyParams,
    camera: GalacticCoord,
    queue: Multiset<QueuedNode>,
    key: NodeKey,
    i: nat,
    m: QueuedNode,
)
    requires
        with_children(params, camera, queue, key, i).count(m) > 0 || queue.count(m) > 0,
    ensures
        queue.count(m) > 0 || params.queued(m.key, camera) == m,
    decreases i,
{
    if i > 0 && queue.count(m) == 0 {
        let c = params.queued(key.child(i - 1), camera);
        if m != c {
            lemma_queue_members(params, camera, queue, key, (i - 1) as nat, m);
        }
    }
}

proof fn lemma_visible_among<M: Fn(Elementary, Double, Double) -> Double>(
    maths: M,
    camera: GalacticCoord,
    view: ViewParams,
    stars: Seq<Star>,
)
    ensures
        ({
            let shown = visible_among(maths, camera, view, stars);
            &&& shown.len() <= stars.len()
            &&& forall|i: int| 0 <= i < shown.len() ==> {
                &&& stars.contains((#[trigger] shown[i]).star)
                &&& shown[i].fade == fade_of(maths, camera, view, shown[i].star)
                &&& (Single { bits: 0 }).less(shown[i].fade)
                &&& shown[i].fade.at_most(Single { bits: 0x3f80_0000 /* 1.0 */ })
            }
        }),
    decreases stars.len(),
{
    if stars.len() > 0 {
        let before = stars.drop_last();
        lemma_visible_among(maths, camera, view, before);
        let shown = visible_among(maths, camera, view, stars);
        let held = visible_among(maths, camera, view, before);
        let (zero, one) = (Single { bits: 0 }, Single { bits: 0x3f80_0000 /* 1.0 */ });
        assert forall|i: int| 0 <= i < shown.len() implies {
            &&& stars.contains((#[trigger] shown[i]).star)
            &&& shown[i].fade == fade_of(maths, camera, view, shown[i].star)
            &&& zero.less(shown[i].fade)
            &&& shown[i].fade.at_most(one)
        } by {
            if i < held.len() {
                assert(shown[i] == held[i]);
                let j = choose|j: int| 0 <= j < before.len() && #[trigger] before[j] == held[i].star;
                assert(stars[j] == held[i].star);
            } else {
                reveal(fade_of);
                assert(stars[stars.len() - 1] == shown[i].star);
            }
        }
    }
}

/// The visible stars are some of the generated ones, each with a weight above zero and at most
/// one.
pub proof fn law_visible_stars_are_among_the_generated<M: Fn(Elementary, Double, Double) -> Double>(
    maths: M,
    params: GalaxyParams,
    camera: GalacticCoord,
    view: ViewParams,
    limit: nat,
    queue: Multiset<QueuedNode>,
    entries: Seq<(CacheKey, Seq<Star>)>,
    budget: nat,
)
    ensures
        ({
            let found = survey(maths, params, camera, view, limit, queue, entries, budget);
            &&& found.stars.len() <= found.generated
            &&& found.hits <= found.nodes.len()
            &&& found.subdivided <= found.nodes.len()
            &&& forall|i: int| 0 <= i < found.stars.len() ==> {
                &&& (Single { bits: 0 }).less((#[trigger] found.stars[i]).fade)
                &&& found.stars[i].fade.at_most(Single { bits: 0x3f80_0000 /* 1.0 */ })
                &&& found.stars[i].fade == fade_of(maths, camera, view, found.stars[i].star)
            }
        }),
    decreases budget,
{
    if budget > 0 && queue.len() > 0 {
        let key = first_in(queue).key;
        let fresh = stars_of(maths, params, key);
        let stars = looked_up(entries, key, fresh);
        lemma_visible_among(maths, camera, view, stars);
        let held = after_look_up(entries, limit, key, fresh);
        let next = next_queue(params, camera, view, queue);
        law_visible_stars_are_among_the_generated(
            maths,
            params,
            camera,
            view,
            limit,
            next,
            held,
            (budget - 1) as nat,
        );
        let found = survey(maths, params, camera, view, limit, queue, entries, budget);
        let rest = survey(maths, params, camera, view, limit, next, held, (budget - 1) as nat);
        let shown = visible_among(maths, camera, view, stars);
        assert forall|i: int| 0 <= i < found.stars.len() implies {
            &&& (Single { bits: 0 }).less((#[trigger] found.stars[i]).fade)
            &&& found.stars[i].fade.at_most(Single { bits: 0x3f80_0000 /* 1.0 */ })
            &&& found.stars[i].fade == fade_of(maths, camera, view, found.stars[i].star)
        } by {
            if i < shown.len() {
                assert(found.stars[i] == shown[i]);
            } else {
                assert(found.stars[i] == rest.stars[i - shown.len()]);
            }
        }
    }
}

/// No node of the tree is outranked by its children.
pub open spec fn children_rank_below(params: GalaxyParams, camera: GalacticCoord, cap: u8) -> bool {
    forall|key: NodeKey, i: int|
        key.is_down_to(cap) && key.depth < cap && 0 <= i < 8 ==> !params.queued(
            #[trigger] key.child(i),
            camera,
        ).outranks(params.queued(key, camera))
}

/// What is still queued when a traversal ends.
pub open spec fn left_over(
    params: GalaxyParams,
    camera: GalacticCoord,
    view: ViewParams,
    queue: Multiset<QueuedNode>,
    budget: nat,
) -> Multiset<QueuedNode>
    decreases budget,
{
    if budget == 0 || queue.len() == 0 {
        queue
    } else {
        left_over(
            params,
            camera,
            view,
            next_queue(params, camera, view, queue),
            (budget - 1) as nat,
        )
    }
}

/// Where nothing queued outranks `top`, nothing visited later does.
proof fn lemma_ranks_fall(
    params: GalaxyParams,
    camera: GalacticCoord,
    view: ViewParams,
    cap: u8,
    queue: Multiset<QueuedNode>,
    seen: Set<NodeKey>,
    budget: nat,
    top: QueuedNode,
)
    requires
        cap == depth_cap(params, view),
        cap < 64,
        is_fair(params, camera, cap, queue, seen),
        children_rank_below(params, camera, cap),
        forall|n: QueuedNode| queue.count(n) > 0 ==> !#[trigger] n.outranks(top),
    ensures
        ({
            let nodes = path(params, camera, view, queue, budget);
            let rest = left_over(params, camera, view, queue, budget);
            &&& forall|i: int|
                0 <= i < nodes.len() ==> !params.queued(#[trigger] nodes[i], camera).outranks(top)
            &&& forall|i: int, j: int|
                0 <= i < j < nodes.len() ==> !params.queued(#[trigger] nodes[j], camera).outranks(
                    params.queued(#[trigger] nodes[i], camera),
                )
            &&& forall|n: QueuedNode, i: int|
                rest.count(n) > 0 && 0 <= i < nodes.len() ==> !#[trigger] n.outranks(
                    params.queued(#[trigger] nodes[i], camera),
                )
        }),
    decreases budget,
{
    if budget > 0 && queue.len() > 0 {
        let n = first_in(queue);
        lemma_first_exists(queue);
        lemma_visit_is_fair(params, camera, view, cap, queue, seen);
        assert(params.queued(n.key, camera) == n);
        let next = next_queue(params, camera, view, queue);
        assert forall|m: QueuedNode| next.count(m) > 0 implies !#[trigger] m.outranks(n) by {
            if queue.remove(n).count(m) > 0 {
                assert(queue.count(m) > 0);
            } else {
                n.key.lemma_children_are_down(cap);
                lemma_new_members_are_children(params, camera, queue.remove(n), n.key, 8, m);
                let i = choose|i: int| 0 <= i < 8 && m == params.queued(#[trigger] n.key.child(i), camera);
                assert(!params.queued(n.key.child(i), camera).outranks(params.queued(n.key, camera)));
            }
        }
        let b = (budget - 1) as nat;
        lemma_ranks_fall(params, camera, view, cap, next, seen.insert(n.key), b, n);
        let nodes = path(params, camera, view, queue, budget);
        let after = path(params, camera, view, next, b);
        let rest = left_over(params, camera, view, queue, budget);
        assert forall|i: int| 0 <= i < nodes.len() implies !params.queued(#[trigger] nodes[i], camera).outranks(top) by {
            if i > 0 {
                assert(nodes[i] == after[i - 1]);
                lemma_ranks_are_total(params.queued(nodes[i], camera), n, top);
            }
        }
        assert forall|i: int, j: int| 0 <= i < j < nodes.len() implies !params.queued(#[trigger] nodes[j], camera).outranks(
            params.queued(#[trigger] nodes[i], camera),
        ) by {
            assert(nodes[j] == after[j - 1]);
            if i > 0 {
                assert(nodes[i] == after[i - 1]);
            }
        }
        lemma_left_over_ranks(params, camera, view, cap, next, seen.insert(n.key), b, n);
        assert forall|m: QueuedNode, i: int| rest.count(m) > 0 && 0 <= i < nodes.len() implies !#[trigger] m.outranks(
            params.queued(#[trigger] nodes[i], camera),
        ) by {
            if i > 0 {
                assert(nodes[i] == after[i - 1]);
            }
        }
    }
}

/// What is left over was queued behind `top`.
proof fn lemma_left_over_ranks(
    params: GalaxyParams,
    camera: GalacticCoord,
    view: ViewParams,
    cap: u8,
    queue: Multiset<QueuedNode>,
    seen: Set<NodeKey>,
    budget: nat,
    top: QueuedNode,
)
    requires
        cap == depth_cap(params, view),
        cap < 64,
        is_fair(params, camera, cap, queue, seen),
        children_rank_below(params, camera, cap),
        forall|n: QueuedNode| queue.count(n) > 0 ==> !#[trigger] n.outranks(top),
    ensures
        forall|n: QueuedNode|
            left_over(params, camera, view, queue, budget).count(n) > 0 ==> !#[trigger] n.outranks(top),
    decreases budget,
{
    if budget > 0 && queue.len() > 0 {
        let n = first_in(queue);
        lemma_first_exists(queue);
        lemma_visit_is_fair(params, camera, view, cap, queue, seen);
        let next = next_queue(params, camera, view, queue);
        assert forall|m: QueuedNode| next.count(m) > 0 implies !#[trigger] m.outranks(top) by {
            if queue.remove(n).count(m) > 0 {
                assert(queue.count(m) > 0);
            } else {
                n.key.lemma_children_are_down(cap);
                lemma_new_members_are_children(params, camera, queue.remove(n), n.key, 8, m);
                let i = choose|i: int| 0 <= i < 8 && m == params.queued(#[trigger] n.key.child(i), camera);
                assert(!params.queued(n.key.child(i), camera).outranks(params.queued(n.key, camera)));
                lemma_ranks_are_total(m, n, top);
            }
        }
        lemma_left_over_ranks(
            params,
            camera,
            view,
            cap,
            next,
            seen.insert(n.key),
            (budget - 1) as nat,
            top,
        );
    }
}

/// What joins a queue with children is a child.
proof fn lemma_new_members_are_children(
    params: GalaxyParams,
    camera: GalacticCoord,
    queue: Multiset<QueuedNode>,
    key: NodeKey,
    i: nat,
    m: QueuedNode,
)
    requires
        with_children(params, camera, queue, key, i).count(m) > 0,
        queue.count(m) == 0,
    ensures
        exists|j: int| 0 <= j < i && m == params.queued(#[trigger] key.child(j), camera),
    decreases i,
{
    if i > 0 {
        let c = params.queued(key.child(i - 1), camera);
        if m != c {
            lemma_new_members_are_children(params, camera, queue, key, (i - 1) as nat, m);
        }
    }
}

/// Best first: where no node is outranked by its children, nodes are visited in the order of
/// their importance, and what the budget drops is no more important than anything visited.
pub proof fn law_budget_drops_the_least_important(
    params: GalaxyParams,
    camera: GalacticCoord,
    view: ViewParams,
)
    requires
        depth_cap(params, view) < 64,
        children_rank_below(params, camera, depth_cap(params, view)),
    ensures
        ({
            let queue = root_queue(params, camera);
            let nodes = path(params, camera, view, queue, view.max_nodes as nat);
            let rest = left_over(params, camera, view, queue, view.max_nodes as nat);
            &&& forall|i: int, j: int|
                0 <= i < j < nodes.len() ==> !params.queued(#[trigger] nodes[j], camera).outranks(
                    params.queued(#[trigger] nodes[i], camera),
                )
            &&& forall|n: QueuedNode, i: int|
                rest.count(n) > 0 && 0 <= i < nodes.len() ==> !#[trigger] n.outranks(
                    params.queued(#[trigger] nodes[i], camera),
                )
        }),
{
    let cap = depth_cap(params, view);
    let queue = root_queue(params, camera);
    let root = params.queued(root_key(), camera);
    lemma_root_is_fair(params, camera, cap);
    assert forall|n: QueuedNode| queue.count(n) > 0 implies !#[trigger] n.outranks(root) by {
        lemma_ranks_are_total(n, n, n);
    }
    lemma_ranks_fall(
        params,
        camera,
        view,
        cap,
        queue,
        Set::empty(),
        view.max_nodes as nat,
        root,
    );
}

} // verus!
