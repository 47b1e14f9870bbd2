//! Laws of octree nodes.
use vstd::arithmetic::power2::*;
use vstd::prelude::*;

use crate::node::NodeKey;

verus! {

/// The node that `key` is a child of.
pub open spec fn parent_of(key: NodeKey) -> NodeKey {
    NodeKey {
        depth: (key.depth - 1) as u8,
        ix: key.ix / 2,
        iy: key.iy / 2,
        iz: key.iz / 2,
    }
}

/// The eight children partition their parent: each is one level deeper, and halving its indices
/// gives those of the parent.
pub proof fn law_children_partition_parent(parent: NodeKey, i: int)
    requires
        parent.splittable(),
        0 <= i < 8,
    ensures
        parent.child(i).depth == parent.depth + 1,
        parent.child(i).ix / 2 == parent.ix,
        parent.child(i).iy / 2 == parent.iy,
        parent.child(i).iz / 2 == parent.iz,
        parent_of(parent.child(i)) == parent,
{
}

/// The eight children of a node are different nodes.
pub proof fn law_children_are_distinct(parent: NodeKey, i: int, j: int)
    requires
        parent.splittable(),
        0 <= i < 8,
        0 <= j < 8,
        i != j,
    ensures
        parent.child(i) != parent.child(j),
{
}

/// Every node but the root is a child of its parent, so that the children of all nodes at a
/// depth are all nodes at the next.
pub proof fn law_every_node_is_a_child_of_its_parent(key: NodeKey)
    requires
        0 < key.depth < 64,
        key.is_down_to(key.depth),
    ensures
        parent_of(key).splittable(),
        parent_of(key).is_down_to((key.depth - 1) as u8),
        exists|i: int| 0 <= i < 8 && #[trigger] parent_of(key).child(i) == key,
{
    lemma_pow2_unfold(key.depth as nat);
    lemma2_to64_rest();
    if key.depth < 63 {
        lemma_pow2_strictly_increases(key.depth as nat, 63);
    }
    lemma_pow2_unfold(64);
    let i = (key.ix % 2) + 2 * (key.iy % 2) + 4 * (key.iz % 2);
    assert(parent_of(key).child(i) == key);
}

} // verus!
