//! The queue of nodes that a traversal has yet to visit, most important first.
use vstd::arithmetic::div_mod::*;
use vstd::multiset::Multiset;
use vstd::prelude::*;
use vstd::seq_lib::*;

use crate::ieee::Double;
use crate::node::NodeKey;

verus! {

/// A node queued for best-first expansion, ordered by angular importance.
#[derive(Clone, Copy, PartialEq, Eq, Structural, Debug)]
pub struct QueuedNode {
    pub key: NodeKey,
    /// Angular size: node edge length over nearest distance.
    pub angular: Double,
}

impl QueuedNode {
    /// `self` is to be visited before `other`: it is larger on screen, or as large and its key
    /// comes later.
    pub open spec fn outranks(self, other: QueuedNode) -> bool {
        let (a, b) = (self.angular.total_rank(), other.angular.total_rank());
        a > b || (a == b && (self.key.depth > other.key.depth || (self.key.depth == other.key.depth
            && (self.key.ix > other.key.ix || (self.key.ix == other.key.ix && (self.key.iy
            > other.key.iy || (self.key.iy == other.key.iy && self.key.iz > other.key.iz)))))))
    }

    /// Whether `self` is to be visited before `other`.
    pub fn is_before(self, other: QueuedNode) -> (r: bool)
        ensures
            r == self.outranks(other),
    {
        if other.angular.precedes(self.angular) {
            return true;
        }
        if self.angular.precedes(other.angular) {
            return false;
        }
        let (a, b): (NodeKey, NodeKey) = (self.key, other.key);
        if a.depth != b.depth {
            return a.depth > b.depth;
        }
        if a.ix != b.ix {
            return a.ix > b.ix;
        }
        if a.iy != b.iy {
            return a.iy > b.iy;
        }
        a.iz > b.iz
    }
}

/// Of two different nodes one outranks the other, never both, and the relation is transitive.
pub proof fn lemma_ranks_are_total(a: QueuedNode, b: QueuedNode, c: QueuedNode)
    ensures
        a == b || a.outranks(b) || b.outranks(a),
        !(a.outranks(b) && b.outranks(a)),
        !a.outranks(a),
        a.outranks(b) && b.outranks(c) ==> a.outranks(c),
        !a.outranks(b) && !b.outranks(c) ==> !a.outranks(c),
{
    if a.angular.total_rank() == b.angular.total_rank() {
        assert(a.angular.bits == b.angular.bits);
        assert(a.angular == b.angular);
        if a.key.depth == b.key.depth && a.key.ix == b.key.ix && a.key.iy == b.key.iy && a.key.iz
            == b.key.iz {
            assert(a.key == b.key);
        }
    }
}

/// A priority queue of nodes: a binary heap.
pub struct NodeQueue {
    heap: Vec<QueuedNode>,
}

/// No entry of the heap from `from` on outranks the one above it, except perhaps the one at
/// `hole`.
spec fn ordered_but(s: Seq<QueuedNode>, hole: int) -> bool {
    forall|k: int| #![trigger s[k]] 0 < k < s.len() && k != hole ==> !s[k].outranks(s[(k - 1) / 2])
}

/// No entry below `hole` outranks the one above `hole`.
spec fn bridged(s: Seq<QueuedNode>, hole: int) -> bool {
    forall|k: int|
        #![trigger s[k]]
        0 < k < s.len() && (k - 1) / 2 == hole && hole > 0 ==> !s[k].outranks(s[(hole - 1) / 2])
}

/// No entry outranks the one above it, except perhaps those right below `hole`.
spec fn ordered_above(s: Seq<QueuedNode>, hole: int) -> bool {
    forall|k: int|
        #![trigger s[k]]
        0 < k < s.len() && (k - 1) / 2 != hole ==> !s[k].outranks(s[(k - 1) / 2])
}

/// Replacing an entry exchanges it in the multiset.
proof fn lemma_update_multiset(s: Seq<QueuedNode>, i: int, a: QueuedNode)
    requires
        0 <= i < s.len(),
    ensures
        s.update(i, a).to_multiset() =~= s.to_multiset().remove(s[i]).insert(a),
        s.to_multiset().count(s[i]) > 0,
{
    assert(s.update(i, a) =~= s.remove(i).insert(i, a));
    to_multiset_remove(s, i);
    to_multiset_insert(s.remove(i), i, a);
    s.to_multiset_ensures();
    assert(s.contains(s[i]));
}

/// Exchanging two entries keeps the multiset.
proof fn lemma_swap_multiset(s: Seq<QueuedNode>, i: int, j: int)
    requires
        0 <= i < s.len(),
        0 <= j < s.len(),
        i != j,
    ensures
        s.update(i, s[j]).update(j, s[i]).to_multiset() =~= s.to_multiset(),
{
    lemma_update_multiset(s, i, s[j]);
    let t = s.update(i, s[j]);
    lemma_update_multiset(t, j, s[i]);
    assert(t[j] == s[j]);
}

/// In an ordered heap nothing outranks the first entry.
proof fn lemma_first_is_best(s: Seq<QueuedNode>, k: int)
    requires
        ordered_but(s, 0),
        0 <= k < s.len(),
    ensures
        !s[k].outranks(s[0]),
    decreases k,
{
    if k == 0 {
        lemma_ranks_are_total(s[0], s[0], s[0]);
    } else {
        lemma_first_is_best(s, (k - 1) / 2);
        lemma_ranks_are_total(s[k], s[(k - 1) / 2], s[0]);
    }
}

impl NodeQueue {
    /// The queued nodes.
    pub closed spec fn nodes(self) -> Multiset<QueuedNode> {
        self.heap@.to_multiset()
    }

    /// The heap is ordered.
    pub closed spec fn wf(self) -> bool {
        ordered_but(self.heap@, 0)
    }

    /// An empty queue.
    pub fn new() -> (r: NodeQueue)
        ensures
            r.wf(),
            r.nodes() == Multiset::<QueuedNode>::empty(),
    {
        let heap: Vec<QueuedNode> = Vec::new();
        proof {
            heap@.to_multiset_ensures();
            assert(heap@.to_multiset() =~= Multiset::empty());
        }
        NodeQueue { heap }
    }

    /// Adds a node.
    pub fn push(&mut self, node: QueuedNode)
        requires
            old(self).wf(),
        ensures
            final(self).wf(),
            final(self).nodes() == old(self).nodes().insert(node),
    {
        proof {
            to_multiset_build(self.heap@, node);
        }
        self.heap.push(node);
        let mut i: usize = self.heap.len() - 1;
        let ghost all = self.heap@.to_multiset();
        while i > 0
            invariant
                i < self.heap.len(),
                self.heap@.to_multiset() == all,
                ordered_but(self.heap@, i as int),
                bridged(self.heap@, i as int),
            ensures
                self.heap@.to_multiset() == all,
                ordered_but(self.heap@, 0),
            decreases i,
        {
            let up: usize = (i - 1) / 2;
            let (a, b): (QueuedNode, QueuedNode) = (self.heap[i], self.heap[up]);
            if !a.is_before(b) {
                assert(ordered_but(self.heap@, 0)) by {
                    assert forall|k: int| #![trigger self.heap@[k]]
                        0 < k < self.heap@.len() && k != 0 implies !self.heap@[k].outranks(self.heap@[(k - 1) / 2]) by {
                        if k == i {
                            assert(self.heap@[i as int] == a && self.heap@[up as int] == b);
                        }
                    }
                }
                break;
            }
            let ghost s = self.heap@;
            self.heap.set(i, b);
            self.heap.set(up, a);
            proof {
                let t = self.heap@;
                lemma_swap_multiset(s, i as int, up as int);
                assert(t =~= s.update(i as int, s[up as int]).update(up as int, s[i as int]));
                assert forall|k: int| #![trigger t[k]] 0 < k < t.len() && k != up implies !t[k].outranks(t[(k - 1) / 2]) by {
                    let h = (k - 1) / 2;
                    if k == i {
                        lemma_ranks_are_total(a, b, b);
                    } else if h == i {
                        // Was below the new entry: not above the one that moved down.
                        assert(!s[k].outranks(s[up as int]));
                    } else if h == up {
                        assert(!s[k].outranks(s[up as int]));
                        lemma_ranks_are_total(s[k], b, a);
                        lemma_ranks_are_total(a, b, a);
                    } else {
                        assert(!s[k].outranks(s[h]));
                    }
                }
                assert forall|k: int| #![trigger t[k]] 0 < k < t.len() && (k - 1) / 2 == up && up > 0 implies !t[k].outranks(t[(up - 1) / 2]) by {
                    assert(!s[up as int].outranks(s[(up - 1) / 2]));
                    if k != i {
                        assert(!s[k].outranks(s[up as int]));
                        lemma_ranks_are_total(s[k], b, s[(up - 1) / 2]);
                    }
                }
            }
            i = up;
        }
    }

    /// Takes out the node that no other outranks.
    pub fn pop(&mut self) -> (r: Option<QueuedNode>)
        requires
            old(self).wf(),
        ensures
            final(self).wf(),
            r is None <==> old(self).nodes().len() == 0,
            r matches Some(best) ==> {
                &&& old(self).nodes().count(best) > 0
                &&& forall|n: QueuedNode| old(self).nodes().count(n) > 0 ==> !#[trigger] n.outranks(best)
                &&& final(self).nodes() == old(self).nodes().remove(best)
            },
            r is None ==> final(self).nodes() == old(self).nodes(),
    {
        let ghost s0 = self.heap@;
        proof {
            s0.to_multiset_ensures();
        }
        let n: usize = self.heap.len();
        if n == 0 {
            return None;
        }
        let best: QueuedNode = self.heap[0];
        let last: QueuedNode = self.heap[n - 1];
        proof {
            assert(s0.contains(s0[0]));
            assert forall|x: QueuedNode| s0.to_multiset().count(x) > 0 implies !#[trigger] x.outranks(best) by {
                assert(s0.contains(x));
                let k = choose|k: int| 0 <= k < s0.len() && s0[k] == x;
                lemma_first_is_best(s0, k);
            }
            to_multiset_remove(s0, (n - 1) as int);
            assert(s0.remove(n - 1) =~= s0.drop_last());
        }
        let _ = self.heap.pop();
        if n == 1 {
            assert(self.heap@ =~= s0.drop_last());
            assert(s0.remove(0) =~= s0.drop_last());
            return Some(best);
        }
        let ghost s1 = self.heap@;
        self.heap.set(0, last);
        proof {
            assert(s1 =~= s0.drop_last());
            lemma_update_multiset(s1, 0, last);
            assert(s1[0] == best);
            // Taking out the last and putting it in the place of the best removes the best.
            assert(self.heap@.to_multiset() =~= s0.to_multiset().remove(best)) by {
                let m = s0.to_multiset();
                assert(m.count(last) > 0) by {
                    assert(s0.contains(s0[n - 1]));
                }
                assert(s1.to_multiset() == m.remove(last));
                assert(s1.to_multiset().count(best) > 0);
                assert(m.remove(last).remove(best).insert(last) =~= m.remove(best));
            }
        }
        let ghost all = self.heap@.to_multiset();
        let len: usize = n - 1;
        let mut i: usize = 0;
        while i < len / 2
            invariant
                len == self.heap.len(),
                i < len,
                self.heap@.to_multiset() == all,
                ordered_above(self.heap@, i as int),
                bridged(self.heap@, i as int),
            ensures
                self.heap@.to_multiset() == all,
                ordered_but(self.heap@, 0),
            decreases len - i,
        {
            let left: usize = 2 * i + 1;
            let mut c: usize = left;
            if left + 1 < len && self.heap[left + 1].is_before(self.heap[left]) {
                c = left + 1;
            }
            let (a, b): (QueuedNode, QueuedNode) = (self.heap[i], self.heap[c]);
            let ghost s = self.heap@;
            proof {
                lemma_ranks_are_total(s[left as int], s[left as int], s[left as int]);
                assert forall|k: int| 0 < k < s.len() && (k - 1) / 2 == i implies !(#[trigger] s[k]).outranks(b) by {
                    assert(k == left || k == left + 1);
                    if left + 1 < len {
                        lemma_ranks_are_total(s[left as int], s[left + 1], s[left as int]);
                        lemma_ranks_are_total(s[left + 1], s[left + 1], s[left as int]);
                    }
                }
            }
            if !b.is_before(a) {
                assert(ordered_but(self.heap@, 0)) by {
                    assert forall|k: int| #![trigger s[k]] 0 < k < s.len() && k != 0 implies !s[k].outranks(s[(k - 1) / 2]) by {
                        if (k - 1) / 2 == i {
                            lemma_ranks_are_total(s[k], b, a);
                        }
                    }
                }
                break;
            }
            self.heap.set(i, b);
            self.heap.set(c, a);
            proof {
                let t = self.heap@;
                lemma_swap_multiset(s, i as int, c as int);
                assert(t =~= s.update(i as int, s[c as int]).update(c as int, s[i as int]));
                assert((c - 1) / 2 == i);
                assert forall|k: int| #![trigger t[k]] 0 < k < t.len() && (k - 1) / 2 != c implies !t[k].outranks(t[(k - 1) / 2]) by {
                    let h = (k - 1) / 2;
                    if k == c {
                        lemma_ranks_are_total(b, a, a);
                    } else if h == i {
                        assert(!s[k].outranks(b));
                    } else if k == i {
                        // The entry that moved up was below the one above the hole.
                        assert(!s[c as int].outranks(s[(i - 1) / 2]));
                    } else {
                        assert(!s[k].outranks(s[h]));
                    }
                }
                assert forall|k: int| #![trigger t[k]] 0 < k < t.len() && (k - 1) / 2 == c && c > 0 implies !t[k].outranks(t[(c - 1) / 2]) by {
                    assert(!s[k].outranks(s[c as int]));
                }
            }
            i = c;
        }
        assert(ordered_but(self.heap@, 0)) by {
            if i >= len / 2 {
                assert forall|k: int| #![trigger self.heap@[k]]
                    0 < k < self.heap@.len() && k != 0 implies !self.heap@[k].outranks(self.heap@[(k - 1) / 2]) by {
                }
            }
        }
        Some(best)
    }
}

} // verus!
