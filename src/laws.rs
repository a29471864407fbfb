//! Properties of the codec as a whole.
use vstd::prelude::*;
use crate::format::{
    body_bytes, complete, decode_stream, index_len, lemma_owed_monotone, lemma_owed_prefix,
    lemma_popcount, owed, parse_body, parse_voxels, popcount, record_bytes, record_len, running,
    voxels_bytes, Record,
};
use crate::octree::Octree;
use crate::voxel::Voxel;

verus! {

proof fn lemma_voxels_bytes<T: Voxel>(d: Seq<T>)
    ensures
        voxels_bytes(d).len() == d.len() * T::byte_len(),
        forall|i: int|
            0 <= i < d.len() ==> #[trigger] voxels_bytes(d).subrange(
                i * T::byte_len(),
                (i + 1) * T::byte_len(),
            ) == T::to_bytes_spec(d[i]),
    decreases d.len(),
{
    let s = T::byte_len();
    if d.len() > 0 {
        let p = d.drop_last();
        lemma_voxels_bytes(p);
        T::lemma_bytes(d.last());
        let n = d.len() - 1;
        assert(p.len() * s + s == d.len() * s) by (nonlinear_arith)
            requires
                p.len() == n,
                d.len() == n + 1,
        ;
        assert forall|i: int| 0 <= i < d.len() implies #[trigger] voxels_bytes(d).subrange(
            i * s,
            (i + 1) * s,
        ) == T::to_bytes_spec(d[i]) by {
            assert(i * s + s == (i + 1) * s) by (nonlinear_arith);
            if i < n {
                assert((i + 1) * s <= n * s) by (nonlinear_arith)
                    requires
                        i < n,
                ;
                assert(0 <= i * s) by (nonlinear_arith)
                    requires
                        0 <= i,
                ;
                assert(voxels_bytes(d).subrange(i * s, (i + 1) * s) =~= voxels_bytes(p).subrange(
                    i * s,
                    (i + 1) * s,
                ));
                assert(d[i] == p[i]);
            } else {
                assert(voxels_bytes(d).subrange(i * s, (i + 1) * s) =~= T::to_bytes_spec(
                    d.last(),
                ));
            }
        }
    }
}

proof fn lemma_body_prefix<T: Voxel>(recs: Seq<Record<T>>, j: int, n: int)
    requires
        0 <= j <= n,
    ensures
        body_bytes(recs, j).len() <= body_bytes(recs, n).len(),
        body_bytes(recs, n).subrange(0, body_bytes(recs, j).len() as int) == body_bytes(recs, j),
    decreases n - j,
{
    if j < n {
        lemma_body_prefix(recs, j, n - 1);
        assert(body_bytes(recs, n) == body_bytes(recs, n - 1) + record_bytes(recs, n - 1));
        assert(body_bytes(recs, n).subrange(0, body_bytes(recs, j).len() as int) =~= body_bytes(
            recs,
            n - 1,
        ).subrange(0, body_bytes(recs, j).len() as int));
    } else {
        assert(body_bytes(recs, n).subrange(0, body_bytes(recs, j).len() as int) =~= body_bytes(
            recs,
            j,
        ));
    }
}

/// Every record of `recs` carries eight payload values.
pub open spec fn eight_values<T>(recs: Seq<Record<T>>) -> bool {
    forall|j: int| 0 <= j < recs.len() ==> (#[trigger] recs[j]).1.len() == 8
}

proof fn lemma_parse_record<T: Voxel>(recs: Seq<Record<T>>, b: Seq<u8>, pos: int, j: int)
    requires
        0 <= j < recs.len(),
        recs[j].1.len() == 8,
        0 <= pos,
        pos + record_bytes(recs, j).len() <= b.len(),
        b.subrange(pos, pos + record_bytes(recs, j).len()) == record_bytes(recs, j),
    ensures
        record_bytes(recs, j).len() == record_len::<T>(recs[j].0),
        b[pos] == recs[j].0,
        parse_voxels::<T>(b, pos + 1 + index_len(recs[j].0)) == recs[j].1,
{
    let fm = recs[j].0;
    let d = recs[j].1;
    let s = T::byte_len();
    lemma_voxels_bytes(d);
    T::lemma_bytes(d[0]);
    <u32 as Voxel>::lemma_bytes(owed(recs, j) as u32);
    let rb = record_bytes(recs, j);
    assert(rb[0] == fm);
    assert(b[pos] == rb[0]);
    let start = 1 + index_len(fm);
    assert(rb.subrange(start as int, rb.len() as int) =~= voxels_bytes(d));
    assert forall|i: int| 0 <= i < 8 implies #[trigger] parse_voxels::<T>(b, pos + start)[i] == d[i] by {
        assert(0 <= i * s && (i + 1) * s <= 8 * s) by (nonlinear_arith)
            requires
                0 <= i < 8,
        ;
        assert(pos + start + (i + 1) * s == pos + start + i * s + s) by (nonlinear_arith);
        assert(b.subrange(pos + start + i * s, pos + start + (i + 1) * s) =~= voxels_bytes(
            d,
        ).subrange(i * s, (i + 1) * s));
        T::lemma_bytes(d[i]);
    }
    assert(parse_voxels::<T>(b, pos + start) =~= d);
}

proof fn lemma_parse_from<T: Voxel>(recs: Seq<Record<T>>, b: Seq<u8>, j: int)
    requires
        complete(recs),
        eight_values(recs),
        b.len() == T::byte_len() + body_bytes(recs, recs.len() as int).len(),
        b.subrange(T::byte_len() as int, b.len() as int) == body_bytes(recs, recs.len() as int),
        0 <= j <= recs.len(),
    ensures
        parse_body::<T>(b, (T::byte_len() + body_bytes(recs, j).len()) as int, j as nat, owed(recs, j))
            == Some((recs.subrange(j, recs.len() as int), b.len() as int)),
    decreases recs.len() - j,
{
    let n = recs.len() as int;
    let s = T::byte_len() as int;
    let pos = s + body_bytes(recs, j).len();
    if j == n {
        assert(recs.subrange(j, n) =~= Seq::<Record<T>>::empty());
    } else {
        assert(j < owed(recs, j));
        lemma_parse_from(recs, b, j + 1);
        lemma_body_prefix(recs, j + 1, n);
        let rb = record_bytes(recs, j);
        assert(body_bytes(recs, j + 1) == body_bytes(recs, j) + rb);
        assert(b.subrange(pos, pos + rb.len()) =~= rb) by {
            assert forall|x: int| 0 <= x < rb.len() implies b.subrange(pos, pos + rb.len())[x]
                == rb[x] by {
                assert(b[pos + x] == body_bytes(recs, n)[pos - s + x]);
                assert(body_bytes(recs, n)[pos - s + x] == body_bytes(recs, n).subrange(
                    0,
                    body_bytes(recs, j + 1).len() as int,
                )[pos - s + x]);
            }
        }
        lemma_parse_record(recs, b, pos, j);
        assert(recs.subrange(j, n) =~= seq![recs[j]] + recs.subrange(j + 1, n));
    }
}

/// Decoding the encoding of a well-formed tree gives back its root payload and its nodes in
/// breadth-first order, freemasks and payload values alike, and consumes the whole stream.
pub proof fn lemma_round_trip<T: Voxel>(t: Octree<T>)
    requires
        t.wf(),
    ensures
        decode_stream::<T>(t.encoding()) == Some((t.root_data, t.records(), t.encoding().len() as int)),
{
    let v = t.bfs_order();
    let recs = t.records();
    let b = t.encoding();
    let s = T::byte_len() as int;
    T::lemma_bytes(t.root_data);
    assert(eight_values(recs)) by {
        assert forall|j: int| 0 <= j < recs.len() implies (#[trigger] recs[j]).1.len() == 8 by {
            assert(recs[j].1 == t.arena@[v[j]].data@);
        }
    }
    assert(b.subrange(s, b.len() as int) =~= body_bytes(recs, recs.len() as int));
    assert(body_bytes(recs, 0) =~= Seq::<u8>::empty());
    lemma_parse_from(recs, b, 0);
    assert(recs.subrange(0, recs.len() as int) =~= recs);
    assert(b.subrange(0, s) =~= T::to_bytes_spec(t.root_data));
}

/// A tree whose root has no children encodes to its header and one record of a freemask
/// byte and eight payload values, and decodes to that single node.
pub proof fn lemma_leaf_root<T: Voxel>(t: Octree<T>)
    requires
        t.wf(),
        t.arena@[t.root.index as int].freemask == 0,
    ensures
        t.records().len() == 1,
        t.encoding().len() == T::byte_len() + 1 + 8 * T::byte_len(),
        decode_stream::<T>(t.encoding()) == Some((t.root_data, t.records(), t.encoding().len() as int)),
{
    let v = t.bfs_order();
    let recs = t.records();
    assert(recs[0].0 == 0);
    lemma_popcount(recs[0].0);
    assert(owed(recs, 0) == 1);
    assert(owed(recs, 1) == 1);
    if recs.len() >= 2 {
        assert(1 < owed(recs, 1));
    }
    assert(recs[0].1 == t.arena@[v[0]].data@);
    lemma_voxels_bytes(recs[0].1);
    assert(body_bytes(recs, 0) =~= Seq::<u8>::empty());
    T::lemma_bytes(t.root_data);
    lemma_round_trip(t);
}

/// When the root has all eight octants, the decoded root points at a block of eight nodes
/// right after it, each recording the block's size and carrying the freemask and payload
/// values of the matching child of the encoded tree.
pub proof fn lemma_saturated_root<T: Voxel>(t: Octree<T>, d: Octree<T>)
    requires
        t.wf(),
        t.arena@[t.root.index as int].freemask == 0xFF,
        decode_stream::<T>(t.encoding()) is Some,
        d.is_layout_of(decode_stream::<T>(t.encoding())->Some_0.1),
    ensures
        d.arena@[0].children.index == 1,
        d.arena@.len() >= 9,
        forall|i: int|
            0 <= i < 8 ==> {
                let c = t.arena@[t.arena@[t.root.index as int].children.index + i];
                &&& (#[trigger] d.arena@[1 + i]).block_size == 8
                &&& d.arena@[1 + i].freemask == c.freemask
                &&& d.arena@[1 + i].data@ == c.data@
            },
{
    lemma_round_trip(t);
    let v = t.bfs_order();
    let recs = t.records();
    lemma_popcount(0xFFu8);
    assert(recs[0].0 == 0xFF);
    assert(owed(recs, 0) == 1);
    assert(owed(recs, 1) == 9);
    lemma_owed_monotone(recs, 1, recs.len() as int);
    assert forall|i: int| 0 <= i < 8 implies {
        let c = t.arena@[t.arena@[t.root.index as int].children.index + i];
        &&& (#[trigger] d.arena@[1 + i]).block_size == 8
        &&& d.arena@[1 + i].freemask == c.freemask
        &&& d.arena@[1 + i].data@ == c.data@
    } by {
        assert(v[owed(recs, 0) + i] == t.arena@[v[0]].children.index + i);
        assert(d.arena@[owed(recs, 0) + i].block_size == popcount(recs[0].0));
    }
}

/// The records of an encoding come in breadth-first order: the freemasks read back from the
/// stream are those met along a breadth-first walk of the tree.
pub proof fn lemma_breadth_first_order<T: Voxel>(t: Octree<T>)
    requires
        t.wf(),
    ensures
        decode_stream::<T>(t.encoding()) is Some,
        decode_stream::<T>(t.encoding())->Some_0.1.map_values(|r: Record<T>| r.0)
            == t.bfs_order().map_values(|x: int| t.arena@[x].freemask),
{
    lemma_round_trip(t);
    assert(t.records().map_values(|r: Record<T>| r.0) =~= t.bfs_order().map_values(
        |x: int| t.arena@[x].freemask,
    ));
}

proof fn lemma_parse_cut<T: Voxel>(b: Seq<u8>, len: int, pos: int, done: nat, ow: nat)
    requires
        parse_body::<T>(b, pos, done, ow) is Some,
        0 <= pos <= len < parse_body::<T>(b, pos, done, ow)->Some_0.1,
        len <= b.len(),
    ensures
        parse_body::<T>(b.subrange(0, len), pos, done, ow) is None,
    decreases b.len() - pos,
{
    let c = b.subrange(0, len);
    if done < ow && pos < len {
        let fm = b[pos];
        assert(c[pos] == fm);
        if pos + record_len::<T>(fm) <= len {
            lemma_parse_cut::<T>(b, len, pos + record_len::<T>(fm), done + 1, ow + popcount(fm));
        }
    }
}

/// A stream cut short anywhere before the end of a tree's encoding is rejected.
pub proof fn lemma_truncated<T: Voxel>(t: Octree<T>, len: int)
    requires
        t.wf(),
        0 <= len < t.encoding().len(),
    ensures
        decode_stream::<T>(t.encoding().subrange(0, len)) is None,
{
    lemma_round_trip(t);
    let b = t.encoding();
    let s = T::byte_len() as int;
    if len >= s {
        lemma_parse_cut::<T>(b, len, s, 0, 1);
    }
}

proof fn lemma_parse_complete<T: Voxel>(b: Seq<u8>, pos: int, pre: Seq<Record<T>>)
    requires
        running(pre, pre.len() as int),
        eight_values(pre),
        parse_body::<T>(b, pos, pre.len(), owed(pre, pre.len() as int)) is Some,
    ensures
        complete(pre + parse_body::<T>(b, pos, pre.len(), owed(pre, pre.len() as int))->Some_0.0),
        eight_values(pre + parse_body::<T>(b, pos, pre.len(), owed(pre, pre.len() as int))->Some_0.0),
    decreases b.len() - pos,
{
    let k = pre.len() as int;
    let ow = owed(pre, k);
    if k >= ow {
        assert(pre + Seq::<Record<T>>::empty() =~= pre);
        if k > 0 {
            assert(k - 1 < owed(pre, k - 1));
        }
    } else {
        let fm = b[pos];
        let rec: Record<T> = (fm, parse_voxels::<T>(b, pos + 1 + index_len(fm)));
        let pre2 = pre.push(rec);
        assert forall|j: int| 0 <= j <= k implies #[trigger] owed(pre2, j) == owed(pre, j) by {
            lemma_owed_prefix(pre, seq![rec], j);
            assert(pre + seq![rec] =~= pre2);
        }
        assert(pre2[k] == rec);
        assert(owed(pre2, k) == ow);
        assert(owed(pre2, k + 1) == ow + popcount(fm));
        assert forall|j: int| 0 <= j < k + 1 implies j < #[trigger] owed(pre2, j) by {
            if j < k {
                assert(j < owed(pre, j));
            }
        }
        assert forall|j: int| 0 <= j < pre2.len() implies (#[trigger] pre2[j]).1.len() == 8 by {
            if j < k {
                assert(pre2[j] == pre[j]);
            }
        }
        lemma_parse_complete::<T>(b, pos + record_len::<T>(fm), pre2);
        let rest = parse_body::<T>(b, pos + record_len::<T>(fm), (k + 1) as nat, owed(pre2, k + 1))->Some_0.0;
        assert(pre + (seq![rec] + rest) =~= pre2 + rest);
    }
}

/// Every node with children points at a block of exactly as many nodes as its freemask has
/// set bits, each recording that size.
pub open spec fn blocks_sized<T: Voxel>(d: Octree<T>) -> bool {
    forall|j: int, i: int|
        0 <= j < d.arena@.len() && d.arena@[j].freemask != 0 && 0 <= i < popcount(
            d.arena@[j].freemask,
        ) ==> {
            &&& child_position(d, j, i) < d.arena@.len()
            &&& d.arena@[#[trigger] child_position(d, j, i)].block_size == popcount(
                d.arena@[j].freemask,
            )
        }
}

/// Arena position of the `i`-th node of the block that the node at `j` points at.
pub open spec fn child_position<T: Voxel>(d: Octree<T>, j: int, i: int) -> int {
    d.arena@[j].children.index + i
}

/// In a decoded tree the root block holds one node, and every node with children points at
/// a block of exactly as many nodes as its freemask has set bits, each recording that size.
pub proof fn lemma_decoded_blocks<T: Voxel>(b: Seq<u8>, d: Octree<T>)
    requires
        decode_stream::<T>(b) is Some,
        d.is_layout_of(decode_stream::<T>(b)->Some_0.1),
    ensures
        d.arena@.len() >= 1,
        d.arena@[d.root.index as int].block_size == 1,
        blocks_sized(d),
{
    let recs = decode_stream::<T>(b)->Some_0.1;
    let s = T::byte_len() as int;
    let e = Seq::<Record<T>>::empty();
    assert(e + recs =~= recs);
    lemma_parse_complete::<T>(b, s, e);
    let n = recs.len() as int;
    if n == 0 {
        assert(owed(recs, 0) == 1);
    }
    assert forall|j: int, i: int|
        0 <= j < d.arena@.len() && d.arena@[j].freemask != 0 && 0 <= i < popcount(
            d.arena@[j].freemask,
        ) implies child_position(d, j, i) < d.arena@.len() && d.arena@[#[trigger] child_position(
            d,
            j,
            i,
        )].block_size == popcount(d.arena@[j].freemask) by {
        lemma_owed_monotone(recs, j + 1, n);
        assert(recs[j].0 == d.arena@[j].freemask);
        assert(owed(recs, j) + popcount(recs[j].0) <= n);
        assert(d.arena@[j].children.index == owed(recs, j));
        assert(d.arena@[owed(recs, j) + i].block_size == popcount(recs[j].0));
    }
    assert(d.arena@.len() >= 1);
    assert(d.arena@[d.root.index as int].block_size == 1);
}

/// A decoded tree lists its nodes breadth-first in arena order, so it meets every invariant
/// that encoding asks of a tree, and can be encoded again when its node count fits the
/// four-byte block index.
pub proof fn lemma_decoded_well_formed<T: Voxel>(b: Seq<u8>, d: Octree<T>)
    requires
        decode_stream::<T>(b) is Some,
        d.is_layout_of(decode_stream::<T>(b)->Some_0.1),
    ensures
        d.is_bfs_order(Seq::new(d.arena@.len(), |j: int| j)),
        d.arena@.len() <= u32::MAX ==> d.wf(),
{
    let recs = decode_stream::<T>(b)->Some_0.1;
    let s = T::byte_len() as int;
    let e = Seq::<Record<T>>::empty();
    assert(e + recs =~= recs);
    lemma_parse_complete::<T>(b, s, e);
    let n = recs.len() as int;
    let v = Seq::new(d.arena@.len(), |j: int| j);
    if n == 0 {
        assert(owed(recs, 0) == 1);
    }
    assert(d.records_along(v) =~= recs);
    assert forall|j: int| 0 <= j < n && recs[j].0 != 0 implies owed(recs, j) + popcount(recs[j].0) <= n by {
        lemma_owed_monotone(recs, j + 1, n);
    }
    assert forall|j: int|
        0 <= j < v.len() implies (#[trigger] d.arena@[v[j]].freemask == 0 <==> d.arena@[v[j]].children.spec_is_none()) by {
        if recs[j].0 != 0 {
            lemma_popcount(recs[j].0);
        }
    }
    assert forall|j: int, i: int|
        0 <= j < v.len() && 0 <= i < popcount(d.records_along(v)[j].0) implies {
            &&& #[trigger] v[owed(d.records_along(v), j) + i] == d.arena@[v[j]].children.index + i
            &&& d.arena@[v[owed(d.records_along(v), j) + i]].block_size == popcount(d.records_along(v)[j].0)
        } by {
        lemma_popcount(recs[j].0);
    }
    if d.arena@.len() <= u32::MAX {
        assert(d.is_bfs_order(v) && v.len() <= u32::MAX && v.len() <= d.arena@.len());
    }
}

proof fn lemma_owed_same_prefix<T>(r1: Seq<Record<T>>, r2: Seq<Record<T>>, j: int)
    requires
        0 <= j <= r1.len(),
        j <= r2.len(),
        forall|x: int| 0 <= x < j ==> (#[trigger] r1[x]).0 == r2[x].0,
    ensures
        owed(r1, j) == owed(r2, j),
    decreases j,
{
    if j > 0 {
        lemma_owed_same_prefix(r1, r2, j - 1);
    }
}

/// Position `k` past the root lies in the block of some earlier record.
proof fn lemma_parent_of<T>(recs: Seq<Record<T>>, k: int, m: int)
    requires
        1 <= k,
        0 <= m <= k,
        k < owed(recs, m),
    ensures
        exists|p: int| 0 <= p < m && owed(recs, p) <= k < owed(recs, p) + popcount(#[trigger] recs[p].0),
    decreases m,
{
    if m == 0 {
        assert(owed(recs, 0) == 1);
    } else if owed(recs, m - 1) <= k {
        assert(owed(recs, m) == owed(recs, m - 1) + popcount(recs[m - 1].0));
    } else {
        lemma_parent_of(recs, k, m - 1);
    }
}

/// A tree has one breadth-first order.
pub proof fn lemma_bfs_order_unique<T: Voxel>(t: Octree<T>, v1: Seq<int>, v2: Seq<int>)
    requires
        t.is_bfs_order(v1),
        t.is_bfs_order(v2),
    ensures
        v1 == v2,
{
    let r1 = t.records_along(v1);
    let r2 = t.records_along(v2);
    let n = if v1.len() <= v2.len() { v1.len() as int } else { v2.len() as int };
    assert forall|k: int| 0 <= k < n implies v1[k] == v2[k] by {
        lemma_bfs_prefix(t, v1, v2, k + 1);
        assert(v1[k] == v1.subrange(0, k + 1)[k]);
        assert(v2[k] == v2.subrange(0, k + 1)[k]);
    }
    assert forall|x: int| 0 <= x < n implies (#[trigger] r1[x]).0 == r2[x].0 by {
        assert(v1[x] == v2[x]);
    }
    lemma_owed_same_prefix(r1, r2, n);
    if v1.len() < v2.len() {
        assert(n < owed(r2, n));
    } else if v2.len() < v1.len() {
        assert(n < owed(r1, n));
    }
    assert(v1 =~= v2);
}

proof fn lemma_bfs_prefix<T: Voxel>(t: Octree<T>, v1: Seq<int>, v2: Seq<int>, k: int)
    requires
        t.is_bfs_order(v1),
        t.is_bfs_order(v2),
        0 <= k <= v1.len(),
        k <= v2.len(),
    ensures
        v1.subrange(0, k) == v2.subrange(0, k),
    decreases k,
{
    if k > 0 {
        lemma_bfs_prefix(t, v1, v2, k - 1);
        let r1 = t.records_along(v1);
        let r2 = t.records_along(v2);
        let j = k - 1;
        assert forall|x: int| 0 <= x < j implies v1[x] == v2[x] by {
            assert(v1[x] == v1.subrange(0, j)[x]);
            assert(v2[x] == v2.subrange(0, j)[x]);
        }
        if j >= 1 {
            assert(j < owed(r1, j));
            lemma_parent_of(r1, j, j);
            let p = choose|p: int| 0 <= p < j && owed(r1, p) <= j < owed(r1, p) + popcount(#[trigger] r1[p].0);
            assert forall|x: int| 0 <= x < p implies (#[trigger] r1[x]).0 == r2[x].0 by {
                assert(v1[x] == v2[x]);
            }
            lemma_owed_same_prefix(r1, r2, p);
            assert(v1[p] == v2[p]);
            assert(r1[p] == r2[p]);
            let i = j - owed(r1, p);
            assert(v1[owed(r1, p) + i] == t.arena@[v1[p]].children.index + i);
            assert(v2[owed(r2, p) + i] == t.arena@[v2[p]].children.index + i);
        }
        assert(v1.subrange(0, k) =~= v2.subrange(0, k));
    }
}

/// Writing a well-formed tree and reading the stream back gives a well-formed tree with the
/// same root payload whose nodes, in breadth-first order, carry the same freemasks and payload
/// values as the tree written.
pub proof fn lemma_round_trip_tree<T: Voxel>(t: Octree<T>, d: Octree<T>)
    requires
        t.wf(),
        decode_stream::<T>(t.encoding()) is Some,
        d.root_data == decode_stream::<T>(t.encoding())->Some_0.0,
        d.is_layout_of(decode_stream::<T>(t.encoding())->Some_0.1),
    ensures
        d.wf(),
        d.root_data == t.root_data,
        d.records() == t.records(),
{
    lemma_round_trip(t);
    lemma_decoded_well_formed(t.encoding(), d);
    let id = Seq::new(d.arena@.len(), |j: int| j);
    assert(d.arena@.len() == t.records().len());
    lemma_bfs_order_unique(d, d.bfs_order(), id);
    assert(d.records_along(id) =~= t.records());
}

} // verus!
