//! The stream layout shared by the encoder and the decoder.
//!
//! A stream is the header (the bytes of the tree's `root_data`) followed by one record per node
//! in breadth-first order. A record is the freemask byte; for a node with children, the four-byte
//! block index of its children's block, least significant byte first; then the node's eight
//! payload values. Block indices count nodes: the root's block is 0 and each later block starts
//! where the blocks before it, in breadth-first order, end. No magic number, version or length
//! is stored.
use vstd::prelude::*;
use crate::voxel::Voxel;

verus! {

/// What a record carries: the freemask and the eight payload values.
pub type Record<T> = (u8, Seq<T>);

/// Number of set bits of `x`.
pub open spec fn popcount(x: u8) -> nat {
    (x & 1) as nat + ((x >> 1u8) & 1) as nat + ((x >> 2u8) & 1) as nat + ((x >> 3u8) & 1) as nat
        + ((x >> 4u8) & 1) as nat + ((x >> 5u8) & 1) as nat + ((x >> 6u8) & 1) as nat + ((x >> 7u8)
        & 1) as nat
}

pub proof fn lemma_popcount(x: u8)
    ensures
        popcount(x) <= 8,
        popcount(x) == 0 <==> x == 0,
        x == 0xFF ==> popcount(x) == 8,
{
    assert(((x & 1) <= 1 && ((x >> 1u8) & 1) <= 1 && ((x >> 2u8) & 1) <= 1 && ((x >> 3u8) & 1) <= 1
        && ((x >> 4u8) & 1) <= 1 && ((x >> 5u8) & 1) <= 1 && ((x >> 6u8) & 1) <= 1 && ((x >> 7u8)
        & 1) <= 1)) by (bit_vector);
    assert(((x & 1) == 0 && ((x >> 1u8) & 1) == 0 && ((x >> 2u8) & 1) == 0 && ((x >> 3u8) & 1) == 0
        && ((x >> 4u8) & 1) == 0 && ((x >> 5u8) & 1) == 0 && ((x >> 6u8) & 1) == 0 && ((x >> 7u8)
        & 1) == 0) <==> x == 0) by (bit_vector);
    assert(x == 0xFF ==> ((x & 1) == 1 && ((x >> 1u8) & 1) == 1 && ((x >> 2u8) & 1) == 1 && ((x
        >> 3u8) & 1) == 1 && ((x >> 4u8) & 1) == 1 && ((x >> 5u8) & 1) == 1 && ((x >> 6u8) & 1)
        == 1 && ((x >> 7u8) & 1) == 1)) by (bit_vector);
}

/// Number of children that a node with freemask `x` has.
pub fn count_ones(x: u8) -> (r: u8)
    ensures
        r == popcount(x),
        r <= 8,
        r == 0 <==> x == 0,
{
    proof {
        lemma_popcount(x);
    }
    (x & 1) + ((x >> 1u8) & 1) + ((x >> 2u8) & 1) + ((x >> 3u8) & 1) + ((x >> 4u8) & 1) + ((x
        >> 5u8) & 1) + ((x >> 6u8) & 1) + ((x >> 7u8) & 1)
}

/// One more than the number of children of the first `j` records: the block index
/// assigned to the children of record `j`, and the number of nodes owed after `j` records.
pub open spec fn owed<T>(recs: Seq<Record<T>>, j: int) -> nat
    decreases j,
{
    if j <= 0 {
        1
    } else {
        owed(recs, j - 1) + popcount(recs[j - 1].0)
    }
}

pub proof fn lemma_owed_monotone<T>(recs: Seq<Record<T>>, j: int, k: int)
    requires
        j <= k,
    ensures
        owed(recs, j) <= owed(recs, k),
    decreases k - j,
{
    if j < k {
        lemma_owed_monotone(recs, j, k - 1);
    }
}

pub proof fn lemma_owed_prefix<T>(a: Seq<Record<T>>, b: Seq<Record<T>>, j: int)
    requires
        j <= a.len(),
    ensures
        owed(a + b, j) == owed(a, j),
    decreases j,
{
    if j > 0 {
        lemma_owed_prefix(a, b, j - 1);
        assert((a + b)[j - 1] == a[j - 1]);
    }
}

/// While the first `k` records are read, more nodes are still owed.
pub open spec fn running<T>(recs: Seq<Record<T>>, k: int) -> bool {
    forall|j: int| 0 <= j < k ==> j < #[trigger] owed(recs, j)
}

/// The records form a whole tree: reading stops after exactly the last one.
pub open spec fn complete<T>(recs: Seq<Record<T>>) -> bool {
    running(recs, recs.len() as int) && owed(recs, recs.len() as int) == recs.len()
}

/// Bytes of a sequence of payload values, in order.
pub open spec fn voxels_bytes<T: Voxel>(d: Seq<T>) -> Seq<u8>
    decreases d.len(),
{
    if d.len() == 0 {
        seq![]
    } else {
        voxels_bytes(d.drop_last()) + T::to_bytes_spec(d.last())
    }
}

/// Length of the block-index field of a record with freemask `fm`.
pub open spec fn index_len(fm: u8) -> nat {
    if fm != 0 {
        4
    } else {
        0
    }
}

/// Length of a record with freemask `fm`.
pub open spec fn record_len<T: Voxel>(fm: u8) -> nat {
    1 + index_len(fm) + 8 * T::byte_len()
}

/// Bytes of a record with freemask `fm`, children's block index `index` and payload values `data`.
pub open spec fn record_bytes_of<T: Voxel>(fm: u8, index: u32, data: Seq<T>) -> Seq<u8> {
    seq![fm] + (if fm != 0 {
        <u32 as Voxel>::to_bytes_spec(index)
    } else {
        seq![]
    }) + voxels_bytes(data)
}

/// Bytes of record `j`: its freemask, its children's block index when it has children,
/// and its payload values.
pub open spec fn record_bytes<T: Voxel>(recs: Seq<Record<T>>, j: int) -> Seq<u8> {
    record_bytes_of(recs[j].0, owed(recs, j) as u32, recs[j].1)
}

/// Bytes of the first `k` records.
pub open spec fn body_bytes<T: Voxel>(recs: Seq<Record<T>>, k: int) -> Seq<u8>
    decreases k,
{
    if k <= 0 {
        seq![]
    } else {
        body_bytes(recs, k - 1) + record_bytes(recs, k - 1)
    }
}

/// The whole stream for a tree with payload `root_data` whose nodes, breadth-first, are `recs`.
pub open spec fn stream_bytes<T: Voxel>(root_data: T, recs: Seq<Record<T>>) -> Seq<u8> {
    T::to_bytes_spec(root_data) + body_bytes(recs, recs.len() as int)
}

/// The eight payload values stored from `pos` on.
pub open spec fn parse_voxels<T: Voxel>(b: Seq<u8>, pos: int) -> Seq<T> {
    Seq::new(
        8,
        |i: int| T::from_bytes_spec(b.subrange(pos + i * T::byte_len(), pos + (i + 1) * T::byte_len())),
    )
}

/// Reads records from `pos` on, `done` of them read before and `owed` nodes owed in all,
/// until no more are owed. Gives the records and the position after them, or `None`
/// when the bytes end inside a record.
pub open spec fn parse_body<T: Voxel>(b: Seq<u8>, pos: int, done: nat, owed: nat) -> Option<
    (Seq<Record<T>>, int),
>
    decreases b.len() - pos,
{
    if done >= owed {
        Some((seq![], pos))
    } else if 0 <= pos < b.len() && pos + record_len::<T>(b[pos]) <= b.len() {
        let fm = b[pos];
        let rec: Record<T> = (fm, parse_voxels::<T>(b, pos + 1 + index_len(fm)));
        match parse_body::<T>(b, pos + record_len::<T>(fm), done + 1, owed + popcount(fm)) {
            Some((rest, e)) => Some((seq![rec] + rest, e)),
            None => None,
        }
    } else {
        None
    }
}

/// What a stream decodes to: the root payload, the records breadth-first, and the
/// position after the last record; `None` when the stream is truncated.
pub open spec fn decode_stream<T: Voxel>(b: Seq<u8>) -> Option<(T, Seq<Record<T>>, int)> {
    let s = T::byte_len();
    if b.len() < s {
        None
    } else {
        match parse_body::<T>(b, s as int, 0, 1) {
            Some((recs, e)) => Some((T::from_bytes_spec(b.subrange(0, s as int)), recs, e)),
            None => None,
        }
    }
}

} // verus!
