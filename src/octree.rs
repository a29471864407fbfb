//! The tree, its breadth-first shape, and what it encodes to.
use vstd::prelude::*;
use crate::arena::{Arena, ArenaHandle, Node};
use crate::format::{complete, owed, popcount, stream_bytes, Record};
use crate::voxel::Voxel;

verus! {

/// A sparse voxel octree: its nodes, the handle of its single-node root block, and a
/// payload for the whole volume.
pub struct Octree<T: Voxel> {
    pub arena: Arena<T>,
    pub root: ArenaHandle,
    pub root_data: T,
}

impl<T: Voxel> Octree<T> {
    /// The records (freemask and payload values) of the nodes at positions `v`.
    pub open spec fn records_along(self, v: Seq<int>) -> Seq<Record<T>> {
        Seq::new(v.len(), |j: int| (self.arena@[v[j]].freemask, self.arena@[v[j]].data@))
    }

    /// `v` lists the arena positions of the tree's nodes in breadth-first order: the root
    /// first, then each block of children in the order their parents were listed.
    pub open spec fn is_bfs_order(self, v: Seq<int>) -> bool {
        let nodes = self.arena@;
        let recs = self.records_along(v);
        &&& v.len() >= 1
        &&& v[0] == self.root.index
        &&& nodes[v[0]].block_size == 1
        &&& forall|j: int| 0 <= j < v.len() ==> 0 <= #[trigger] v[j] < nodes.len()
        &&& complete(recs)
        &&& forall|j: int|
            0 <= j < v.len() ==> (#[trigger] nodes[v[j]].freemask == 0 <==> nodes[v[j]].children.spec_is_none())
        &&& forall|j: int, i: int|
            0 <= j < v.len() && 0 <= i < popcount(recs[j].0) ==> {
                &&& #[trigger] v[owed(recs, j) + i] == nodes[v[j]].children.index + i
                &&& nodes[v[owed(recs, j) + i]].block_size == popcount(recs[j].0)
            }
    }

    /// The tree is finite and shaped as a tree of blocks, lists no more nodes than its arena
    /// holds, and is small enough for block indices to fit in four bytes.
    pub open spec fn wf(self) -> bool {
        exists|v: Seq<int>| self.is_bfs_order(v) && v.len() <= u32::MAX && v.len() <= self.arena@.len()
    }

    pub open spec fn bfs_order(self) -> Seq<int> {
        choose|v: Seq<int>| self.is_bfs_order(v) && v.len() <= u32::MAX && v.len() <= self.arena@.len()
    }

    /// The tree's nodes in breadth-first order, as records.
    pub open spec fn records(self) -> Seq<Record<T>> {
        self.records_along(self.bfs_order())
    }

    /// The stream that the tree encodes to.
    pub open spec fn encoding(self) -> Seq<u8> {
        stream_bytes(self.root_data, self.records())
    }

    /// The arena holds the records `recs` in order from the root at position 0: a node with
    /// children points at the block that starts at the node's block index, and every node of
    /// that block records the block's size.
    pub open spec fn is_layout_of(self, recs: Seq<Record<T>>) -> bool {
        let nodes = self.arena@;
        &&& self.root.index == 0
        &&& nodes.len() == recs.len()
        &&& nodes.len() < usize::MAX
        &&& forall|j: int|
            0 <= j < recs.len() ==> {
                &&& (#[trigger] nodes[j]).freemask == recs[j].0
                &&& nodes[j].data@ == recs[j].1
                &&& nodes[j].children == (if recs[j].0 != 0 {
                    ArenaHandle { index: owed(recs, j) as usize }
                } else {
                    ArenaHandle::spec_none()
                })
            }
        &&& nodes.len() > 0 ==> nodes[0].block_size == 1
        &&& forall|j: int, i: int|
            0 <= j < recs.len() && 0 <= i < popcount(recs[j].0) ==> #[trigger] nodes[owed(
                recs,
                j,
            ) + i].block_size == popcount(recs[j].0)
    }

    /// A tree of a single leaf node.
    pub fn new(root_data: T) -> (r: Octree<T>)
        ensures
            r.root_data == root_data,
            r.root.index == 0,
            r.arena@.len() == 1,
            r.arena@[0].freemask == 0,
            r.arena@[0].children.spec_is_none(),
            r.arena@[0].block_size == 1,
    {
        let mut arena = Arena::new();
        let root = arena.allocate(1);
        Octree { arena, root, root_data }
    }
}

} // verus!
