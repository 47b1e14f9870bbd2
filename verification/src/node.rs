//! Octree cells and their addresses.
use vstd::arithmetic::power2::*;
use vstd::prelude::*;

verus! {

/// Identifies a cubic octree node by explicit level indices.
///
/// The universe cube spans `[0, 2^depth)` cells per axis at a given `depth`;
/// `depth == 0` is the single root cell covering the whole modeled volume.
#[derive(Clone, Copy, PartialEq, Eq, Structural, Hash, Debug)]
pub struct NodeKey {
    pub depth: u8,
    pub ix: u64,
    pub iy: u64,
    pub iz: u64,
}

impl NodeKey {
    /// The cell that covers the whole volume.
    pub fn root() -> (r: NodeKey)
        ensures
            r == (NodeKey { depth: 0, ix: 0, iy: 0, iz: 0 }),
    {
        NodeKey { depth: 0, ix: 0, iy: 0, iz: 0 }
    }

    pub fn new(depth: u8, ix: u64, iy: u64, iz: u64) -> (r: NodeKey)
        ensures
            r == (NodeKey { depth, ix, iy, iz }),
    {
        NodeKey { depth, ix, iy, iz }
    }

    /// The child at position `i`: the low bit of `i` picks the half along x, the next along y,
    /// the third along z.
    pub open spec fn child(self, i: int) -> NodeKey
        recommends
            0 <= i < 8,
    {
        NodeKey {
            depth: (self.depth + 1) as u8,
            ix: (2 * self.ix + i % 2) as u64,
            iy: (2 * self.iy + (i / 2) % 2) as u64,
            iz: (2 * self.iz + i / 4) as u64,
        }
    }

    /// The children exist: neither the depth nor an index leaves its range.
    pub open spec fn splittable(self) -> bool {
        &&& self.depth < u8::MAX
        &&& 2 * self.ix + 1 <= u64::MAX
        &&& 2 * self.iy + 1 <= u64::MAX
        &&& 2 * self.iz + 1 <= u64::MAX
    }

    /// The node lies in the tree, no deeper than `depth`.
    pub open spec fn is_down_to(self, depth: u8) -> bool {
        &&& self.depth <= depth
        &&& self.ix < pow2(self.depth as nat)
        &&& self.iy < pow2(self.depth as nat)
        &&& self.iz < pow2(self.depth as nat)
    }

    /// The root lies in the tree.
    pub proof fn lemma_root_is_down(depth: u8)
        ensures
            (NodeKey { depth: 0, ix: 0, iy: 0, iz: 0 }).is_down_to(depth),
    {
        lemma2_to64();
    }

    /// The children of a node in the tree lie in the tree.
    pub proof fn lemma_children_are_down(self, depth: u8)
        requires
            depth < 64,
            self.depth < depth,
            self.is_down_to(depth),
        ensures
            self.splittable(),
            forall|i: int| 0 <= i < 8 ==> (#[trigger] self.child(i)).is_down_to(depth),
    {
        lemma2_to64_rest();
        lemma_pow2_unfold((self.depth + 1) as nat);
        if self.depth < 62 {
            lemma_pow2_strictly_increases((self.depth + 1) as nat, 63);
        }
    }

    /// The eight children of this node.
    pub fn children(self) -> (out: [NodeKey; 8])
        requires
            self.splittable(),
        ensures
            forall|i: int| 0 <= i < 8 ==> #[trigger] out@[i] == self.child(i),
    {
        let d: u8 = self.depth + 1;
        let (bx, by, bz): (u64, u64, u64) = (self.ix * 2, self.iy * 2, self.iz * 2);
        let mut out: [NodeKey; 8] = [NodeKey::new(d, 0, 0, 0);8];
        let mut i: usize = 0;
        for dz in 0..2u64
            invariant
                self.splittable(),
                d == self.depth + 1,
                bx == 2 * self.ix,
                by == 2 * self.iy,
                bz == 2 * self.iz,
                i == 4 * dz,
                forall|j: int| 0 <= j < i ==> #[trigger] out@[j] == self.child(j),
        {
            for dy in 0..2u64
                invariant
                    self.splittable(),
                    d == self.depth + 1,
                    bx == 2 * self.ix,
                    by == 2 * self.iy,
                    bz == 2 * self.iz,
                    dz < 2,
                    i == 4 * dz + 2 * dy,
                    forall|j: int| 0 <= j < i ==> #[trigger] out@[j] == self.child(j),
            {
                for dx in 0..2u64
                    invariant
                        self.splittable(),
                        d == self.depth + 1,
                        bx == 2 * self.ix,
                        by == 2 * self.iy,
                        bz == 2 * self.iz,
                        dz < 2,
                        dy < 2,
                        i == 4 * dz + 2 * dy + dx,
                        forall|j: int| 0 <= j < i ==> #[trigger] out@[j] == self.child(j),
                {
                    out[i] = NodeKey::new(d, bx + dx, by + dy, bz + dz);
                    assert(out@[i as int] == self.child(i as int));
                    i += 1;
                }
            }
        }
        out
    }
}

} // verus!
