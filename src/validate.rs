//! Checking that a tree meets the invariants that encoding relies on.
use vstd::prelude::*;
use crate::arena::ArenaHandle;
use crate::encode::{block_nodes, lemma_block_nodes_at};
use crate::format::{
    count_ones, lemma_owed_monotone, lemma_owed_prefix, lemma_popcount, owed, popcount, running,
};
use crate::octree::Octree;
use crate::voxel::Voxel;

verus! {

impl<T: Voxel> Octree<T> {
    /// `v` lists arena positions in range whose first `k` nodes were walked breadth-first: each
    /// has children exactly when its freemask is nonzero, its children's block stands in `v`
    /// where the walk lists it, and every node of that block records the block's size.
    pub open spec fn walked(self, v: Seq<int>, k: int) -> bool {
        let nodes = self.arena@;
        let recs = self.records_along(v);
        &&& forall|j: int| 0 <= j < v.len() ==> 0 <= #[trigger] v[j] < nodes.len()
        &&& v.len() == owed(recs, k)
        &&& running(recs, k)
        &&& forall|j: int|
            0 <= j < k ==> (#[trigger] nodes[v[j]].freemask == 0 <==> nodes[v[j]].children.spec_is_none())
        &&& forall|j: int, i: int|
            0 <= j < k && 0 <= i < popcount(recs[j].0) ==> {
                &&& #[trigger] v[owed(recs, j) + i] == nodes[v[j]].children.index + i
                &&& nodes[v[owed(recs, j) + i]].block_size == popcount(recs[j].0)
            }
    }

    proof fn lemma_walk_step(self, v: Seq<int>, v2: Seq<int>, k: int)
        requires
            self.walked(v, k),
            0 <= k < v.len(),
            ({
                let nd = self.arena@[v[k]];
                let pc = popcount(nd.freemask) as int;
                &&& nd.freemask == 0 ==> nd.children.spec_is_none() && v2 == v
                &&& nd.freemask != 0 ==> {
                    &&& !nd.children.spec_is_none()
                    &&& nd.children.index + pc <= self.arena@.len()
                    &&& forall|x: int| 0 <= x < pc ==> #[trigger] self.arena@[nd.children.index + x].block_size == pc
                    &&& v2.len() == v.len() + pc
                    &&& v2.subrange(0, v.len() as int) == v
                    &&& forall|x: int| 0 <= x < pc ==> #[trigger] v2[v.len() + x] == nd.children.index + x
                }
            }),
        ensures
            self.walked(v2, k + 1),
    {
        let nodes = self.arena@;
        let nd = nodes[v[k]];
        let pc = popcount(nd.freemask) as int;
        let recs = self.records_along(v);
        let recs2 = self.records_along(v2);
        lemma_popcount(nd.freemask);
        assert forall|j: int| 0 <= j < v.len() implies v2[j] == v[j] && #[trigger] recs2[j] == recs[j] by {
            assert(v2[j] == v2.subrange(0, v.len() as int)[j]);
        }
        assert(recs2.subrange(0, v.len() as int) =~= recs);
        assert forall|j: int| 0 <= j <= v.len() implies #[trigger] owed(recs2, j) == owed(recs, j) by {
            lemma_owed_prefix(recs, recs2.subrange(v.len() as int, recs2.len() as int), j);
            assert(recs + recs2.subrange(v.len() as int, recs2.len() as int) =~= recs2);
        }
        assert(owed(recs2, k + 1) == owed(recs, k) + pc);
        assert forall|j: int| 0 <= j < v2.len() implies 0 <= #[trigger] v2[j] < nodes.len() by {
            if j >= v.len() {
                assert(v2[v.len() + (j - v.len())] == nd.children.index + (j - v.len()));
            } else {
                assert(v2[j] == v2.subrange(0, v.len() as int)[j]);
            }
        }
        assert forall|j: int| 0 <= j < k + 1 implies j < #[trigger] owed(recs2, j) by {
            if j < k {
                assert(j < owed(recs, j));
            }
        }
        assert forall|j: int|
            0 <= j < k + 1 implies (#[trigger] nodes[v2[j]].freemask == 0 <==> nodes[v2[j]].children.spec_is_none()) by {
            assert(v2[j] == v[j]);
        }
        assert forall|j: int, i: int|
            0 <= j < k + 1 && 0 <= i < popcount(recs2[j].0) implies {
                &&& #[trigger] v2[owed(recs2, j) + i] == nodes[v2[j]].children.index + i
                &&& nodes[v2[owed(recs2, j) + i]].block_size == popcount(recs2[j].0)
            } by {
            assert(v2[j] == v[j]);
            assert(recs2[j] == recs[j]);
            if j < k {
                lemma_owed_monotone(recs, j + 1, k);
                assert(v[owed(recs, j) + i] == nodes[v[j]].children.index + i);
                assert(v2[owed(recs, j) + i] == v[owed(recs, j) + i]);
            } else {
                assert(v2[v.len() + i] == nd.children.index + i);
            }
        }
    }

    /// On a well-formed tree, a walk that has followed its breadth-first order so far finds
    /// every check at the next node passed, and the next block where that order lists it.
    proof fn lemma_walk_follows(self, v: Seq<int>, k: int)
        requires
            self.wf(),
            self.walked(v, k),
            0 <= k < v.len(),
            v.len() <= self.bfs_order().len(),
            v == self.bfs_order().subrange(0, v.len() as int),
        ensures
            ({
                let vs = self.bfs_order();
                let nd = self.arena@[v[k]];
                let pc = popcount(nd.freemask) as int;
                &&& nd.freemask == 0 <==> nd.children.spec_is_none()
                &&& nd.freemask != 0 ==> {
                    &&& nd.children.index + pc <= self.arena@.len()
                    &&& forall|x: int| 0 <= x < pc ==> #[trigger] self.arena@[nd.children.index + x].block_size == pc
                    &&& v.len() + pc <= vs.len()
                    &&& forall|x: int| 0 <= x < pc ==> #[trigger] vs[v.len() + x] == nd.children.index + x
                }
            }),
    {
        let vs = self.bfs_order();
        let n = vs.len() as int;
        let rs = self.records_along(vs);
        let recs = self.records_along(v);
        assert(recs =~= rs.subrange(0, v.len() as int));
        assert(rs.subrange(0, v.len() as int) + rs.subrange(v.len() as int, n) =~= rs);
        lemma_owed_prefix(recs, rs.subrange(v.len() as int, n), k);
        assert(v.len() == owed(rs, k));
        assert(vs[k] == v[k]);
        let nd = self.arena@[v[k]];
        let pc = popcount(nd.freemask) as int;
        assert(rs[k].0 == nd.freemask);
        lemma_popcount(nd.freemask);
        lemma_owed_monotone(rs, k + 1, n);
        if nd.freemask != 0 {
            assert(vs[owed(rs, k) + (pc - 1)] == nd.children.index + (pc - 1));
            assert forall|x: int| 0 <= x < pc implies #[trigger] self.arena@[nd.children.index + x].block_size == pc by {
                assert(vs[owed(rs, k) + x] == nd.children.index + x);
            }
            assert forall|x: int| 0 <= x < pc implies #[trigger] vs[v.len() + x] == nd.children.index + x by {
                assert(vs[owed(rs, k) + x] == nd.children.index + x);
            }
        }
    }

    /// Walks the tree breadth-first and checks, node by node, what encoding relies on: every
    /// handle in range, children present exactly when the freemask is nonzero, each child
    /// block as long as its parent's freemask has set bits and recording that size, the root
    /// block of size one, and no more nodes than the arena holds nor than `u32::MAX`. The
    /// answer is whether the tree is well formed; a cyclic tree gives `false` once the count
    /// passes that bound.
    pub fn is_well_formed(&self) -> (r: bool)
        ensures
            r == self.wf(),
    {
        let alen = self.arena.len();
        if self.root.index >= alen {
            proof {
                if self.wf() {
                    assert(self.bfs_order()[0] == self.root.index);
                }
            }
            return false;
        }
        if self.arena.get(self.root).block_size != 1 {
            return false;
        }
        let mut queue: Vec<(ArenaHandle, u8)> = Vec::new();
        let mut head: usize = 0;
        let limit: u32 = if alen < u32::MAX as usize {
            alen as u32
        } else {
            u32::MAX
        };
        let mut total: u32 = 1;
        let ghost mut k: int = 0;
        queue.push((self.root, 1));
        proof {
            assert(queue@.drop_last() =~= Seq::<(ArenaHandle, u8)>::empty());
            assert(block_nodes(Seq::<(ArenaHandle, u8)>::empty()) =~= Seq::<int>::empty());
            assert(queue@.subrange(0, 0) =~= Seq::<(ArenaHandle, u8)>::empty());
            assert(owed(self.records_along(block_nodes(queue@)), 0) == 1);
            if self.wf() {
                assert(block_nodes(queue@) =~= self.bfs_order().subrange(0, 1));
            }
        }
        while head < queue.len()
            invariant
                alen == self.arena@.len(),
                self.root.index < alen,
                self.arena@[self.root.index as int].block_size == 1,
                1 <= queue@.len(),
                head <= queue@.len(),
                block_nodes(queue@)[0] == self.root.index,
                k == block_nodes(queue@.subrange(0, head as int)).len(),
                total == block_nodes(queue@).len(),
                k <= total <= limit,
                limit <= u32::MAX,
                limit <= alen,
                limit == alen || limit == u32::MAX,
                forall|m: int| 0 <= m < queue@.len() ==> (#[trigger] queue@[m]).1 >= 1,
                self.walked(block_nodes(queue@), k),
                self.wf() ==> block_nodes(queue@).len() <= self.bfs_order().len() && block_nodes(queue@)
                    == self.bfs_order().subrange(0, block_nodes(queue@).len() as int),
            decreases u32::MAX - k,
        {
            let (nodes, num) = queue[head];
            let ghost h = head as int;
            let ghost k_start = k;
            head = head + 1;
            let mut i: u8 = 0;
            while i < num
                invariant
                    alen == self.arena@.len(),
                    self.root.index < alen,
                    self.arena@[self.root.index as int].block_size == 1,
                    1 <= head <= queue@.len(),
                    h == head - 1,
                    queue@[h] == (nodes, num),
                    i <= num,
                    block_nodes(queue@)[0] == self.root.index,
                    k == block_nodes(queue@.subrange(0, h)).len() + i,
                    k_start == block_nodes(queue@.subrange(0, h)).len(),
                    total == block_nodes(queue@).len(),
                    k <= total <= limit,
                    limit <= u32::MAX,
                    limit <= alen,
                    limit == alen || limit == u32::MAX,
                    forall|m: int| 0 <= m < queue@.len() ==> (#[trigger] queue@[m]).1 >= 1,
                    self.walked(block_nodes(queue@), k),
                    self.wf() ==> block_nodes(queue@).len() <= self.bfs_order().len() && block_nodes(
                        queue@,
                    ) == self.bfs_order().subrange(0, block_nodes(queue@).len() as int),
                decreases num - i,
            {
                let ghost v = block_nodes(queue@);
                let ghost q0 = queue@;
                proof {
                    lemma_block_nodes_at(queue@, h, i as int);
                }
                let node = nodes.offset(i as usize);
                let fm = self.arena.get(node).freemask;
                let children = self.arena.get(node).children;
                proof {
                    if self.wf() {
                        self.lemma_walk_follows(v, k);
                    }
                }
                if fm != 0 {
                    if children.is_none() {
                        return false;
                    }
                    let c = count_ones(fm);
                    if c as u32 > limit || total > limit - c as u32 {
                        proof {
                            if self.wf() {
                                assert(self.bfs_order().len() <= limit);
                            }
                        }
                        return false;
                    }
                    if children.index > alen || alen - children.index < c as usize {
                        return false;
                    }
                    let mut i2: u8 = 0;
                    while i2 < c
                        invariant
                            alen == self.arena@.len(),
                            children.index + c <= alen,
                            i2 <= c,
                            forall|x: int|
                                0 <= x < i2 ==> #[trigger] self.arena@[children.index + x].block_size == c,
                            self.wf() ==> forall|x: int|
                                0 <= x < c ==> #[trigger] self.arena@[children.index + x].block_size == c,
                        decreases c - i2,
                    {
                        if self.arena.get(children.offset(i2 as usize)).block_size != c {
                            return false;
                        }
                        i2 = i2 + 1;
                    }
                    queue.push((children, c));
                    proof {
                        assert(queue@.drop_last() == q0);
                        assert(c as int == popcount(fm));
                        assert(queue@.last() == (children, c));
                        assert(queue@.len() > 0);
                        assert(block_nodes(queue@) == block_nodes(queue@.drop_last()) + Seq::new(
                            queue@.last().1 as nat,
                            |x: int| queue@.last().0.index + x,
                        ));
                        assert(block_nodes(queue@) =~= block_nodes(q0) + Seq::new(c as nat, |x: int| children.index + x));
                        assert(block_nodes(queue@).subrange(0, v.len() as int) =~= v);
                        assert(queue@.drop_last() == q0);
                        assert(queue@.subrange(0, h) =~= q0.subrange(0, h));
                        assert forall|m: int| 0 <= m < queue@.len() implies (#[trigger] queue@[m]).1 >= 1 by {
                            if m < q0.len() {
                                assert(queue@[m] == q0[m]);
                            }
                        }
                        self.lemma_walk_step(v, block_nodes(queue@), k);
                        if self.wf() {
                            let vs = self.bfs_order();
                            let v2 = block_nodes(queue@);
                            assert forall|x: int| 0 <= x < v2.len() implies v2[x] == vs[x] by {
                                if x < v.len() {
                                    assert(v2[x] == v2.subrange(0, v.len() as int)[x]);
                                    assert(v[x] == vs.subrange(0, v.len() as int)[x]);
                                } else {
                                    assert(vs[v.len() + (x - v.len())] == children.index + (x - v.len()));
                                }
                            }
                            assert(v2 =~= vs.subrange(0, v2.len() as int));
                        }
                    }
                    total = total + c as u32;
                } else {
                    if !children.is_none() {
                        return false;
                    }
                    proof {
                        self.lemma_walk_step(v, v, k);
                    }
                }
                proof {
                    k = k + 1;
                }
                i = i + 1;
            }
            proof {
                lemma_block_nodes_at(queue@, h, 0);
                assert(num >= 1);
                assert(k >= k_start + 1);
            }
        }
        proof {
            assert(queue@.subrange(0, head as int) =~= queue@);
            let v = block_nodes(queue@);
            assert(self.is_bfs_order(v));
            assert(v.len() <= u32::MAX && v.len() <= alen);
        }
        true
    }
}

} // verus!
