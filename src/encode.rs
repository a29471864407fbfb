//! Writing a tree out as a stream.
use vstd::prelude::*;
use crate::arena::{ArenaHandle, Node};
use crate::format::{
    body_bytes, count_ones, lemma_owed_monotone, lemma_popcount, owed, popcount, record_bytes,
    record_bytes_of, voxels_bytes,
};
use crate::octree::Octree;
use crate::voxel::Voxel;

verus! {

/// The arena positions of the nodes of a queue of blocks, block after block.
pub open spec fn block_nodes(q: Seq<(ArenaHandle, u8)>) -> Seq<int>
    decreases q.len(),
{
    if q.len() == 0 {
        seq![]
    } else {
        block_nodes(q.drop_last()) + Seq::new(q.last().1 as nat, |i: int| q.last().0.index + i)
    }
}

pub proof fn lemma_block_nodes_append(a: Seq<(ArenaHandle, u8)>, b: Seq<(ArenaHandle, u8)>)
    ensures
        block_nodes(a + b) == block_nodes(a) + block_nodes(b),
    decreases b.len(),
{
    if b.len() == 0 {
        assert(a + b =~= a);
        assert(block_nodes(a) + block_nodes(b) =~= block_nodes(a));
    } else {
        lemma_block_nodes_append(a, b.drop_last());
        assert((a + b).drop_last() =~= a + b.drop_last());
        let last = Seq::new(b.last().1 as nat, |i: int| b.last().0.index + i);
        assert(block_nodes(a) + block_nodes(b.drop_last()) + last =~= block_nodes(a) + (
        block_nodes(b.drop_last()) + last));
    }
}

pub proof fn lemma_block_nodes_at(q: Seq<(ArenaHandle, u8)>, h: int, i: int)
    requires
        0 <= h < q.len(),
        0 <= i < q[h].1,
    ensures
        block_nodes(q.subrange(0, h + 1)).len() == block_nodes(q.subrange(0, h)).len() + q[h].1,
        block_nodes(q.subrange(0, h)).len() + i < block_nodes(q).len(),
        block_nodes(q)[block_nodes(q.subrange(0, h)).len() + i] == q[h].0.index + i,
{
    let pre = q.subrange(0, h + 1);
    assert(pre.drop_last() =~= q.subrange(0, h));
    lemma_block_nodes_append(pre, q.subrange(h + 1, q.len() as int));
    assert(pre + q.subrange(h + 1, q.len() as int) =~= q);
}

/// Appends the record of `node`, giving `index` as its children's block index.
fn append_record<T: Voxel>(node: &Node<T>, index: u32, writer: &mut Vec<u8>)
    ensures
        final(writer)@ == old(writer)@ + record_bytes_of(node.freemask, index, node.data@),
{
    let ghost before = old(writer)@;
    writer.push(node.freemask);
    if node.freemask != 0 {
        index.append_bytes(writer);
    }
    let ghost mid = writer@;
    let mut d: usize = 0;
    while d < 8
        invariant
            d <= 8,
            node.data@.len() == 8,
            writer@ == mid + voxels_bytes(node.data@.subrange(0, d as int)),
        decreases 8 - d,
    {
        node.data[d].append_bytes(writer);
        proof {
            assert(node.data@.subrange(0, d + 1).drop_last() =~= node.data@.subrange(0, d as int));
        }
        d = d + 1;
    }
    proof {
        assert(node.data@.subrange(0, 8) =~= node.data@);
        assert(mid =~= before + seq![node.freemask] + (if node.freemask != 0 {
            <u32 as Voxel>::to_bytes_spec(index)
        } else {
            seq![]
        }));
    }
}

impl<T: Voxel> Octree<T> {
    /// Appends the stream of the tree: the bytes of `root_data`, then one record per node in
    /// breadth-first order, where a node with children carries the block index of its
    /// children's block: the breadth-first position of that block's first node.
    pub fn write(&self, writer: &mut Vec<u8>)
        requires
            self.wf(),
        ensures
            final(writer)@ == old(writer)@ + self.encoding(),
    {
        let ghost v = self.bfs_order();
        let ghost recs = self.records();
        let ghost n = v.len();
        let ghost start = old(writer)@ + T::to_bytes_spec(self.root_data);
        let alen = self.arena.len();
        self.root_data.append_bytes(writer);
        let mut queue: Vec<(ArenaHandle, u8)> = Vec::new();
        let mut head: usize = 0;
        let mut current_index: u32 = 1;
        let ghost mut k: int = 0;
        queue.push((self.root, 1));
        proof {
            assert(queue@.drop_last() =~= Seq::<(ArenaHandle, u8)>::empty());
            assert(block_nodes(Seq::<(ArenaHandle, u8)>::empty()) =~= Seq::<int>::empty());
            assert(owed(recs, 0) == 1);
            assert(block_nodes(queue@) =~= v.subrange(0, owed(recs, 0) as int));
            assert(queue@.subrange(0, 0) =~= Seq::<(ArenaHandle, u8)>::empty());
            assert(body_bytes(recs, 0) =~= Seq::<u8>::empty());
            assert(writer@ =~= start + body_bytes(recs, 0));
            lemma_owed_monotone(recs, 0, n as int);
        }
        while head < queue.len()
            invariant
                self.wf(),
                v == self.bfs_order(),
                recs == self.records(),
                n == v.len(),
                self.is_bfs_order(v),
                n <= u32::MAX,
                alen == self.arena@.len(),
                head <= queue@.len(),
                0 <= k <= n,
                owed(recs, k) <= n,
                block_nodes(queue@) == v.subrange(0, owed(recs, k) as int),
                k == block_nodes(queue@.subrange(0, head as int)).len(),
                current_index == owed(recs, k),
                forall|m: int| 0 <= m < queue@.len() ==> (#[trigger] queue@[m]).1 >= 1,
                writer@ == start + body_bytes(recs, k),
            decreases n - k,
        {
            let (nodes, num_of_children) = queue[head];
            let ghost h = head as int;
            let ghost base = k;
            head = head + 1;
            let mut i: u8 = 0;
            while i < num_of_children
                invariant
                    self.is_bfs_order(v),
                    recs == self.records(),
                    recs == self.records_along(v),
                    n == v.len(),
                    n <= u32::MAX,
                    alen == self.arena@.len(),
                    1 <= head <= queue@.len(),
                    h == head - 1,
                    queue@[h] == (nodes, num_of_children),
                    i <= num_of_children,
                    base == block_nodes(queue@.subrange(0, h)).len(),
                    k == base + i,
                    0 <= k <= n,
                    owed(recs, k) <= n,
                    block_nodes(queue@) == v.subrange(0, owed(recs, k) as int),
                    current_index == owed(recs, k),
                    forall|m: int| 0 <= m < queue@.len() ==> (#[trigger] queue@[m]).1 >= 1,
                    writer@ == start + body_bytes(recs, k),
                decreases num_of_children - i,
            {
                proof {
                    lemma_block_nodes_at(queue@, h, i as int);
                    assert(k < owed(recs, k));
                    assert(v[k] == nodes.index + i);
                }
                let node = nodes.offset(i as usize);
                let node_ref = self.arena.get(node);
                let ghost q0 = queue@;
                assert(recs[k] == (node_ref.freemask, node_ref.data@));
                append_record(node_ref, current_index, writer);
                if node_ref.freemask != 0 {
                    let child_block_size = count_ones(node_ref.freemask);
                    queue.push((node_ref.children, child_block_size));
                    proof {
                        assert(queue@.drop_last() == q0);
                        assert forall|m: int| 0 <= m < queue@.len() implies (#[trigger] queue@[m]).1 >= 1 by {
                            if m < q0.len() {
                                assert(queue@[m] == q0[m]);
                            }
                        }
                        lemma_owed_monotone(recs, k + 1, n as int);
                        assert(owed(recs, k + 1) == owed(recs, k) + popcount(recs[k].0));
                        let ow = owed(recs, k) as int;
                        assert(block_nodes(queue@) =~= v.subrange(0, owed(recs, k + 1) as int)) by {
                            assert forall|x: int| ow <= x < owed(recs, k + 1) implies v[x] == block_nodes(queue@)[x] by {
                                assert(v[owed(recs, k) + (x - ow)] == self.arena@[v[k]].children.index + (x - ow));
                            }
                        }
                        assert(queue@.subrange(0, h) =~= q0.subrange(0, h));
                    }
                    current_index = current_index + child_block_size as u32;
                } else {
                    proof {
                        lemma_popcount(node_ref.freemask);
                        lemma_owed_monotone(recs, k + 1, n as int);
                    }
                }
                proof {
                    assert(writer@ =~= start + body_bytes(recs, k + 1));
                    k = k + 1;
                }
                i = i + 1;
            }
            proof {
                lemma_block_nodes_at(queue@, h, 0);
            }
        }
        proof {
            assert(queue@.subrange(0, head as int) =~= queue@);
            assert(k == owed(recs, k));
        }
    }
}

} // verus!
