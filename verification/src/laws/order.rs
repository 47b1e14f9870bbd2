//! Laws of the order in which nodes are visited.
use vstd::prelude::*;

use crate::ieee::rounding::lemma_code_units_ordered;
use crate::queue::QueuedNode;

verus! {

/// A node that looks larger comes first; of two that look equally large the deeper one does, and
/// of two at one depth the one whose first differing index is larger. No node comes before itself,
/// and of two different nodes exactly one comes before the other.
pub proof fn law_larger_nodes_come_first(a: QueuedNode, b: QueuedNode)
    requires
        a.angular.finite(),
        b.angular.finite(),
        !a.angular.negative(),
        !b.angular.negative(),
    ensures
        a.angular.units() > b.angular.units() ==> a.outranks(b) && !b.outranks(a),
        a.angular == b.angular && a.key.depth > b.key.depth ==> a.outranks(b) && !b.outranks(a),
        a.angular == b.angular && a.key.depth == b.key.depth && a.key.ix > b.key.ix ==> a.outranks(
            b,
        ) && !b.outranks(a),
        a.angular == b.angular && a.key.depth == b.key.depth && a.key.ix == b.key.ix && a.key.iy
            > b.key.iy ==> a.outranks(b) && !b.outranks(a),
        a.angular == b.angular && a.key.depth == b.key.depth && a.key.ix == b.key.ix && a.key.iy
            == b.key.iy && a.key.iz > b.key.iz ==> a.outranks(b) && !b.outranks(a),
        a != b ==> a.outranks(b) != b.outranks(a),
        !a.outranks(a),
{
    let (x, y) = (a.angular, b.angular);
    if x.code() <= y.code() {
        lemma_code_units_ordered(x.code(), y.code(), 52);
    }
    if x.code() == y.code() {
        assert(x.bits == y.bits);
        assert(x == y);
    }
    if a.key.depth == b.key.depth && a.key.ix == b.key.ix && a.key.iy == b.key.iy && a.key.iz
        == b.key.iz {
        assert(a.key == b.key);
    }
}

} // verus!
