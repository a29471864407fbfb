//! Reading a tree back from a stream.
use vstd::prelude::*;
use crate::arena::{Arena, ArenaHandle, Node};
use crate::format::{
    count_ones, decode_stream, index_len, lemma_owed_monotone, lemma_owed_prefix, lemma_popcount,
    owed, parse_body, parse_voxels, popcount, record_len, running, Record,
};
use crate::octree::Octree;
use crate::voxel::Voxel;

verus! {

/// Why a stream could not be decoded.
#[derive(Clone, Copy, Debug, PartialEq, Eq, Structural)]
pub enum DecodeError {
    /// The stream ends before the header or a record is complete.
    TruncatedStream,
}

/// Sum of the block sizes of a queue of blocks.
pub open spec fn sizes(q: Seq<(ArenaHandle, u8)>) -> nat
    decreases q.len(),
{
    if q.len() == 0 {
        0
    } else {
        sizes(q.drop_last()) + q.last().1 as nat
    }
}

/// Records `recs` stand decoded in `nodes`, which may hold fresh nodes after them; a node's
/// children handle is set once their block has been allocated.
pub open spec fn decoded_prefix<T: Voxel>(nodes: Seq<Node<T>>, recs: Seq<Record<T>>) -> bool {
    &&& recs.len() <= nodes.len()
    &&& forall|j: int|
        0 <= j < recs.len() ==> {
            &&& (#[trigger] nodes[j]).freemask == recs[j].0
            &&& nodes[j].data@ == recs[j].1
            &&& nodes[j].children == (if recs[j].0 != 0 && owed(recs, j) < nodes.len() {
                ArenaHandle { index: owed(recs, j) as usize }
            } else {
                ArenaHandle::spec_none()
            })
        }
    &&& forall|j: int| recs.len() <= j < nodes.len() ==> (#[trigger] nodes[j]).freemask == 0
    &&& nodes.len() > 0 ==> nodes[0].block_size == 1
    &&& forall|j: int, i: int|
        0 <= j < recs.len() && 0 <= i < popcount(recs[j].0) && owed(recs, j) + i < nodes.len()
            ==> #[trigger] nodes[owed(recs, j) + i].block_size == popcount(recs[j].0)
}

/// Extends the records of a parse result by `recs` in front.
pub open spec fn after<T>(recs: Seq<Record<T>>, r: Option<(Seq<Record<T>>, int)>) -> Option<
    (Seq<Record<T>>, int),
> {
    match r {
        Some((rest, e)) => Some((recs + rest, e)),
        None => None,
    }
}

/// Reads the record at `pos`: its freemask, its payload values, and the position after it;
/// `None` when the bytes end inside it. The block index field is skipped.
fn read_record<T: Voxel>(b: &[u8], pos: usize) -> (r: Option<(u8, [T; 8], usize)>)
    ensures
        match r {
            Some((fm, data, end)) => {
                &&& pos < b@.len()
                &&& pos + record_len::<T>(b@[pos as int]) <= b@.len()
                &&& fm == b@[pos as int]
                &&& data@ == parse_voxels::<T>(b@, pos + 1 + index_len(fm))
                &&& end == pos + record_len::<T>(fm)
            },
            None => !(pos < b@.len() && pos + record_len::<T>(b@[pos as int]) <= b@.len()),
        },
{
    if pos >= b.len() {
        return None;
    }
    let fm = b[pos];
    let idx: usize = if fm != 0 { 4 } else { 0 };
    if b.len() - pos < 1 + idx {
        return None;
    }
    let s = T::byte_size();
    let start = pos + 1 + idx;
    let mut cur = start;
    let mut data = vstd::array::array_fill_for_copy_types::<T, 8>(T::default_value());
    let mut i: usize = 0;
    proof {
        T::lemma_bytes(data@[0]);
    }
    while i < 8
        invariant
            i <= 8,
            s == T::byte_len(),
            s >= 1,
            start == pos + 1 + index_len(fm),
            fm == b@[pos as int],
            cur == start + i * s,
            cur <= b@.len(),
            data@.len() == 8,
            forall|t: int|
                0 <= t < i ==> #[trigger] data@[t] == T::from_bytes_spec(
                    b@.subrange(start + t * s, start + (t + 1) * s),
                ),
        decreases 8 - i,
    {
        if b.len() - cur < s {
            proof {
                assert(i * s + s <= 8 * s) by (nonlinear_arith)
                    requires
                        i < 8,
                ;
            }
            return None;
        }
        let v = T::read_at(b, cur);
        data[i] = v;
        proof {
            assert(cur + s == start + (i + 1) * s) by (nonlinear_arith)
                requires
                    cur == start + i * s,
            ;
        }
        cur = cur + s;
        i = i + 1;
    }
    proof {
        assert(data@ =~= parse_voxels::<T>(b@, start as int));
    }
    Some((fm, data, cur))
}

/// Queue entry `m` is the block of the node with children that pushed it, and starts where
/// the blocks queued before it end.
pub open spec fn queued_block<T>(recs: Seq<Record<T>>, q: Seq<(ArenaHandle, u8)>, m: int) -> bool {
    let p = q[m].0.index as int;
    &&& 0 <= p < recs.len()
    &&& recs[p].0 != 0
    &&& q[m].1 == popcount(recs[p].0)
    &&& sizes(q.subrange(0, m)) == owed(recs, p)
}

proof fn lemma_sizes_prefix(q: Seq<(ArenaHandle, u8)>, m: int)
    requires
        0 <= m < q.len(),
    ensures
        sizes(q.subrange(0, m + 1)) == sizes(q.subrange(0, m)) + q[m].1,
        sizes(q.subrange(0, m + 1)) <= sizes(q),
    decreases q.len() - m,
{
    assert(q.subrange(0, m + 1).drop_last() =~= q.subrange(0, m));
    if m + 1 < q.len() {
        lemma_sizes_prefix(q, m + 1);
    } else {
        assert(q.subrange(0, m + 1) =~= q);
    }
}

/// Blocks of two different nodes with children do not overlap.
proof fn lemma_owed_apart<T>(recs: Seq<Record<T>>, j: int, p: int)
    requires
        0 <= j < recs.len(),
        0 <= p < recs.len(),
        j != p,
    ensures
        owed(recs, j) + popcount(recs[j].0) <= owed(recs, p) || owed(recs, j) >= owed(recs, p)
            + popcount(recs[p].0),
{
    if j < p {
        lemma_owed_monotone(recs, j + 1, p);
    } else {
        lemma_owed_monotone(recs, p + 1, j);
    }
}

/// Allocating the block of the node at `p` (of the root when `p` is none) and pointing
/// the node at it keeps the decoded prefix.
proof fn lemma_patch<T: Voxel>(
    a: Seq<Node<T>>,
    a2: Seq<Node<T>>,
    recs: Seq<Record<T>>,
    p: ArenaHandle,
    bs: u8,
)
    requires
        decoded_prefix(a, recs),
        a.len() == recs.len(),
        bs >= 1,
        a2.len() == a.len() + bs,
        p.spec_is_none() ==> a.len() == 0 && bs == 1,
        !p.spec_is_none() ==> {
            &&& 0 <= p.index < recs.len()
            &&& recs[p.index as int].0 != 0
            &&& bs == popcount(recs[p.index as int].0)
            &&& owed(recs, p.index as int) == a.len()
            &&& a2[p.index as int] == (Node { children: ArenaHandle { index: a.len() as usize }, ..a[p.index as int] })
        },
        forall|j: int| 0 <= j < a.len() && j != p.index ==> a2[j] == a[j],
        forall|j: int|
            a.len() <= j < a2.len() ==> (#[trigger] a2[j]).freemask == 0 && a2[j].block_size == bs,
    ensures
        decoded_prefix(a2, recs),
{
    let k0 = a.len() as int;
    assert forall|j: int| 0 <= j < recs.len() implies {
        &&& (#[trigger] a2[j]).freemask == recs[j].0
        &&& a2[j].data@ == recs[j].1
        &&& a2[j].children == (if recs[j].0 != 0 && owed(recs, j) < a2.len() {
            ArenaHandle { index: owed(recs, j) as usize }
        } else {
            ArenaHandle::spec_none()
        })
    } by {
        if j != p.index {
            if recs[j].0 != 0 && !p.spec_is_none() {
                lemma_owed_apart(recs, j, p.index as int);
                lemma_popcount(recs[j].0);
            }
        }
    }
    assert forall|j: int, i: int|
        0 <= j < recs.len() && 0 <= i < popcount(recs[j].0) && owed(recs, j) + i < a2.len()
        implies #[trigger] a2[owed(recs, j) + i].block_size == popcount(recs[j].0) by {
        if j != p.index && !p.spec_is_none() {
            lemma_owed_apart(recs, j, p.index as int);
        }
    }
}

/// Reading one record keeps every fact the decoder's loops rely on.
proof fn lemma_read_step<T: Voxel>(
    b: Seq<u8>,
    pos: int,
    end: int,
    r0: Seq<Record<T>>,
    rec: Record<T>,
    q0: Seq<(ArenaHandle, u8)>,
    q: Seq<(ArenaHandle, u8)>,
    head: int,
    a0: Seq<Node<T>>,
    a: Seq<Node<T>>,
)
    requires
        T::byte_len() >= 1,
        running(r0, r0.len() as int),
        0 <= pos < b.len(),
        pos + record_len::<T>(b[pos]) <= b.len(),
        rec.0 == b[pos],
        rec.1 == parse_voxels::<T>(b, pos + 1 + index_len(rec.0)),
        end == pos + record_len::<T>(rec.0),
        9 * r0.len() <= pos,
        owed(r0, r0.len() as int) <= 1 + 8 * r0.len(),
        1 <= head <= q0.len(),
        sizes(q0) == owed(r0, r0.len() as int),
        r0.len() < sizes(q0.subrange(0, head)),
        sizes(q0.subrange(0, head)) <= sizes(q0),
        forall|m: int| 1 <= m < q0.len() ==> #[trigger] queued_block(r0, q0, m),
        q0.len() >= 1,
        rec.0 != 0 ==> q == q0.push((ArenaHandle { index: r0.len() as usize }, popcount(rec.0) as u8)),
        rec.0 == 0 ==> q == q0,
        decoded_prefix(a0, r0),
        a0.len() < usize::MAX,
        a0.len() == sizes(q0.subrange(0, head)),
        a == a0.update(r0.len() as int, Node { freemask: rec.0, children: ArenaHandle::spec_none(), data: a[r0.len() as int].data, block_size: a0[r0.len() as int].block_size }),
        a[r0.len() as int].data@ == rec.1,
    ensures
        ({
            let r = r0.push(rec);
            &&& parse_body::<T>(b, pos, r0.len(), owed(r0, r0.len() as int)) == after(
                seq![rec],
                parse_body::<T>(b, end, r.len(), owed(r, r.len() as int)),
            )
            &&& running(r, r.len() as int)
            &&& 9 * r.len() <= end
            &&& owed(r, r.len() as int) <= 1 + 8 * r.len()
            &&& sizes(q) == owed(r, r.len() as int)
            &&& q.subrange(0, head) == q0.subrange(0, head)
            &&& q.len() >= 1
            &&& q[0] == q0[0]
            &&& forall|m: int| 1 <= m < q.len() ==> #[trigger] queued_block(r, q, m)
            &&& decoded_prefix(a, r)
        }),
{
    let k = r0.len() as int;
    let r = r0.push(rec);
    lemma_popcount(rec.0);
    assert forall|j: int| 0 <= j <= k implies #[trigger] owed(r, j) == owed(r0, j) by {
        lemma_owed_prefix(r0, seq![rec], j);
        assert(r0 + seq![rec] =~= r);
    }
    assert(r[k] == rec);
    assert(owed(r, k) == owed(r0, k));
    assert(owed(r, k + 1) == owed(r0, k) + popcount(rec.0));
    assert(k < owed(r0, k));
    assert(record_len::<T>(rec.0) >= 9);
    assert forall|j: int| 0 <= j < k + 1 implies j < #[trigger] owed(r, j) by {
        if j < k {
            assert(j < owed(r0, j));
        }
    }
    if rec.0 != 0 {
        assert(q.drop_last() == q0);
        assert forall|m: int| 1 <= m < q.len() implies #[trigger] queued_block(r, q, m) by {
            if m < q0.len() {
                assert(queued_block(r0, q0, m));
                assert(q.subrange(0, m) =~= q0.subrange(0, m));
                assert(r[q[m].0.index as int] == r0[q0[m].0.index as int]);
            } else {
                assert(q.subrange(0, m) =~= q0);
                assert(q[m].0.index == k);
                assert(r[k] == rec);
                assert(owed(r, k) == owed(r0, k));
            }
        }
        assert(q.subrange(0, head) =~= q0.subrange(0, head));
    } else {
        assert forall|m: int| 1 <= m < q.len() implies #[trigger] queued_block(r, q, m) by {
            assert(queued_block(r0, q0, m));
            assert(r[q[m].0.index as int] == r0[q0[m].0.index as int]);
        }
    }
    assert forall|j: int| 0 <= j < r.len() implies {
        &&& (#[trigger] a[j]).freemask == r[j].0
        &&& a[j].data@ == r[j].1
        &&& a[j].children == (if r[j].0 != 0 && owed(r, j) < a.len() {
            ArenaHandle { index: owed(r, j) as usize }
        } else {
            ArenaHandle::spec_none()
        })
    } by {
        if j < k {
            assert(r[j] == r0[j]);
        }
    }
    assert forall|j: int, i: int|
        0 <= j < r.len() && 0 <= i < popcount(r[j].0) && owed(r, j) + i < a.len()
        implies #[trigger] a[owed(r, j) + i].block_size == popcount(r[j].0) by {
        if j < k {
            assert(r[j] == r0[j]);
        }
    }
    match parse_body::<T>(b, end, r.len(), owed(r, r.len() as int)) {
        Some((rest, e)) => {
            assert(seq![rec] + rest == seq![rec] + rest);
        },
        None => {},
    }
}

impl<T: Voxel> Octree<T> {
    /// Reads a tree from the front of `bytes`: the root payload, then records breadth-first,
    /// each block allocated when its turn comes and linked from the node that owns it, until
    /// no more nodes are owed. Bytes after the last record are left alone; block index fields
    /// are skipped unread.
    pub fn read(bytes: &[u8]) -> (r: Result<Octree<T>, DecodeError>)
        ensures
            match decode_stream::<T>(bytes@) {
                Some((root_data, recs, _)) => r matches Ok(t) && t.root_data == root_data
                    && t.is_layout_of(recs),
                None => r == Err::<Octree<T>, DecodeError>(DecodeError::TruncatedStream),
            },
    {
        let s = T::byte_size();
        proof {
            T::lemma_bytes(vstd::pervasive::arbitrary::<T>());
        }
        if bytes.len() < s {
            return Err(DecodeError::TruncatedStream);
        }
        let root_data = T::read_at(bytes, 0);
        let mut arena: Arena<T> = Arena::new();
        let mut queue: Vec<(ArenaHandle, u8)> = Vec::new();
        let mut head: usize = 0;
        let mut pos: usize = s;
        let ghost mut recs: Seq<Record<T>> = seq![];
        queue.push((ArenaHandle::none(), 1));
        proof {
            assert(queue@.drop_last() =~= Seq::<(ArenaHandle, u8)>::empty());
            assert(sizes(queue@.drop_last()) == 0);
            assert(queue@.subrange(0, 0) =~= Seq::<(ArenaHandle, u8)>::empty());
            assert(after(recs, parse_body::<T>(bytes@, s as int, 0, 1)) =~= parse_body::<T>(bytes@, s as int, 0, 1)) by {
                match parse_body::<T>(bytes@, s as int, 0, 1) {
                    Some((rest, e)) => { assert(recs + rest =~= rest); },
                    None => {},
                }
            }
        }
        while head < queue.len()
            invariant
                s == T::byte_len(),
                s >= 1,
                s <= pos <= bytes@.len(),
                parse_body::<T>(bytes@, s as int, 0, 1) == after(
                    recs,
                    parse_body::<T>(bytes@, pos as int, recs.len(), owed(recs, recs.len() as int)),
                ),
                running(recs, recs.len() as int),
                arena@.len() == recs.len(),
                arena@.len() < usize::MAX,
                9 * recs.len() <= pos,
                owed(recs, recs.len() as int) <= 1 + 8 * recs.len(),
                decoded_prefix(arena@, recs),
                head <= queue@.len(),
                queue@.len() >= 1,
                queue@[0] == (ArenaHandle::spec_none(), 1u8),
                sizes(queue@) == owed(recs, recs.len() as int),
                sizes(queue@.subrange(0, head as int)) == recs.len(),
                forall|m: int| 1 <= m < queue@.len() ==> #[trigger] queued_block(recs, queue@, m),
            decreases bytes@.len() - pos,
        {
            let (parent, block_size) = queue[head];
            let ghost m = head as int;
            let ghost k0 = recs.len();
            let ghost pos0 = pos as int;
            proof {
                lemma_sizes_prefix(queue@, m);
                if m >= 1 {
                    assert(queued_block(recs, queue@, m));
                    lemma_popcount(recs[parent.index as int].0);
                } else {
                    assert(sizes(queue@.subrange(0, 0)) == 0);
                }
                assert(block_size >= 1);
                assert(k0 + block_size <= 1 + 8 * k0);
                assert(1 + 8 * k0 < usize::MAX) by (nonlinear_arith)
                    requires
                        9 * k0 <= pos,
                        pos <= usize::MAX,
                ;
            }
            head = head + 1;
            let ghost a0 = arena@;
            let block = arena.allocate(block_size);
            let ghost a1 = arena@;
            if !parent.is_none() {
                let mut pn = *arena.get(parent);
                pn.children = block;
                arena.set(parent, pn);
            }
            proof {
                assert forall|j: int| 0 <= j < a0.len() && j != parent.index implies arena@[j] == a0[j] by {
                    assert(a1[j] == a1.subrange(0, a0.len() as int)[j]);
                }
                if !parent.spec_is_none() {
                    assert(queued_block(recs, queue@, m));
                    assert(a1[parent.index as int] == a1.subrange(0, a0.len() as int)[parent.index as int]);
                } else {
                    if m >= 1 {
                        assert(queued_block(recs, queue@, m));
                    }
                }
                lemma_patch(a0, arena@, recs, parent, block_size);
            }
            let mut i: u8 = 0;
            while i < block_size
                invariant
                    s == T::byte_len(),
                    s >= 1,
                    s <= pos <= bytes@.len(),
                    parse_body::<T>(bytes@, s as int, 0, 1) == after(
                        recs,
                        parse_body::<T>(bytes@, pos as int, recs.len(), owed(recs, recs.len() as int)),
                    ),
                    running(recs, recs.len() as int),
                    i <= block_size,
                    block_size >= 1,
                    pos0 + i <= pos,
                    block.index == k0,
                    k0 + block_size < usize::MAX,
                    recs.len() == k0 + i,
                    arena@.len() == k0 + block_size,
                    9 * recs.len() <= pos,
                    owed(recs, recs.len() as int) <= 1 + 8 * recs.len(),
                    decoded_prefix(arena@, recs),
                    1 <= head <= queue@.len(),
                    queue@.len() >= 1,
                    queue@[0] == (ArenaHandle::spec_none(), 1u8),
                    sizes(queue@) == owed(recs, recs.len() as int),
                    sizes(queue@.subrange(0, head as int)) == k0 + block_size,
                    forall|m: int| 1 <= m < queue@.len() ==> #[trigger] queued_block(recs, queue@, m),
                decreases block_size - i,
            {
                let node = block.offset(i as usize);
                proof {
                    lemma_sizes_prefix(queue@, head - 1);
                    if head < queue@.len() {
                        lemma_sizes_prefix(queue@, head as int);
                    } else {
                        assert(queue@.subrange(0, head as int) =~= queue@);
                    }
                }
                let ghost k = recs.len() as int;
                let ghost ow = owed(recs, k);
                match read_record::<T>(bytes, pos) {
                    None => {
                        assert(parse_body::<T>(bytes@, pos as int, recs.len(), owed(recs, recs.len() as int)) is None);
                        return Err(DecodeError::TruncatedStream);
                    },
                    Some((fm, data, end)) => {
                        let ghost a_before = arena@;
                        let old_node = *arena.get(node);
                        arena.set(
                            node,
                            Node { freemask: fm, children: ArenaHandle::none(), data, block_size: old_node.block_size },
                        );
                        let ghost q0 = queue@;
                        let ghost r0 = recs;
                        let ghost rec: Record<T> = (fm, data@);
                        if fm != 0 {
                            let c = count_ones(fm);
                            queue.push((node, c));
                        }
                        proof {
                            recs = recs.push(rec);
                            lemma_read_step(bytes@, pos as int, end as int, r0, rec, q0, queue@, head as int, a_before, arena@);
                        }
                        pos = end;
                    },
                }
                i = i + 1;
            }
        }
        proof {
            assert(queue@.subrange(0, head as int) =~= queue@);
            let n = recs.len() as int;
            assert(parse_body::<T>(bytes@, pos as int, recs.len(), owed(recs, n)) == Some((Seq::<Record<T>>::empty(), pos as int)));
            assert(recs + Seq::<Record<T>>::empty() =~= recs);
            assert forall|j: int| 0 <= j < n && recs[j].0 != 0 implies owed(recs, j) + popcount(recs[j].0) <= n && owed(recs, j) < n by {
                lemma_owed_monotone(recs, j + 1, n);
                lemma_popcount(recs[j].0);
            }
        }
        let t = Octree { arena, root: ArenaHandle::new(0), root_data };
        assert(t.is_layout_of(recs));
        Ok(t)
    }
}

} // verus!
