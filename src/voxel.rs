//! Payload values stored per octant, and their fixed-size byte form.
use vstd::prelude::*;

verus! {

/// A fixed-size, pointer-free payload value, copied to and from the stream byte for byte.
pub trait Voxel: Copy + Sized {
    /// Number of bytes that one value occupies in the stream.
    spec fn byte_len() -> nat;

    /// The bytes written for `v`.
    spec fn to_bytes_spec(v: Self) -> Seq<u8>;

    /// The value read back from `Self::byte_len()` bytes.
    spec fn from_bytes_spec(b: Seq<u8>) -> Self;

    /// Every value has a nonempty byte form of the fixed length, and reading it gives the value back.
    proof fn lemma_bytes(v: Self)
        ensures
            Self::byte_len() >= 1,
            Self::to_bytes_spec(v).len() == Self::byte_len(),
            Self::from_bytes_spec(Self::to_bytes_spec(v)) == v,
    ;

    fn byte_size() -> (r: usize)
        ensures
            r == Self::byte_len(),
    ;

    /// The default value of a fresh octant.
    fn default_value() -> Self;

    /// Appends the bytes of `self`.
    fn append_bytes(&self, out: &mut Vec<u8>)
        ensures
            final(out)@ == old(out)@ + Self::to_bytes_spec(*self),
    ;

    /// Reads a value from the `Self::byte_len()` bytes of `b` that start at `pos`.
    fn read_at(b: &[u8], pos: usize) -> (r: Self)
        requires
            pos + Self::byte_len() <= b@.len(),
        ensures
            r == Self::from_bytes_spec(b@.subrange(pos as int, pos + Self::byte_len())),
    ;
}

impl Voxel for u8 {
    open spec fn byte_len() -> nat {
        1
    }

    open spec fn to_bytes_spec(v: u8) -> Seq<u8> {
        seq![v]
    }

    open spec fn from_bytes_spec(b: Seq<u8>) -> u8 {
        b[0]
    }

    proof fn lemma_bytes(v: u8) {
    }

    fn byte_size() -> (r: usize) {
        1
    }

    fn default_value() -> u8 {
        0
    }

    fn append_bytes(&self, out: &mut Vec<u8>) {
        out.push(*self);
    }

    fn read_at(b: &[u8], pos: usize) -> (r: u8) {
        b[pos]
    }
}

impl Voxel for u32 {
    /// Four bytes, least significant first.
    open spec fn byte_len() -> nat {
        4
    }

    open spec fn to_bytes_spec(v: u32) -> Seq<u8> {
        seq![(v & 0xff) as u8, ((v >> 8u32) & 0xff) as u8, ((v >> 16u32) & 0xff) as u8, ((v >> 24u32) & 0xff) as u8]
    }

    open spec fn from_bytes_spec(b: Seq<u8>) -> u32 {
        (b[0] as u32) | ((b[1] as u32) << 8u32) | ((b[2] as u32) << 16u32) | ((b[3] as u32) << 24u32)
    }

    proof fn lemma_bytes(v: u32) {
        let b0 = (v & 0xff) as u8;
        let b1 = ((v >> 8u32) & 0xff) as u8;
        let b2 = ((v >> 16u32) & 0xff) as u8;
        let b3 = ((v >> 24u32) & 0xff) as u8;
        assert(v == (b0 as u32) | ((b1 as u32) << 8u32) | ((b2 as u32) << 16u32) | ((b3 as u32) << 24u32)) by (bit_vector)
            requires
                b0 == (v & 0xff) as u8,
                b1 == ((v >> 8u32) & 0xff) as u8,
                b2 == ((v >> 16u32) & 0xff) as u8,
                b3 == ((v >> 24u32) & 0xff) as u8,
        ;
    }

    fn byte_size() -> (r: usize) {
        4
    }

    fn default_value() -> u32 {
        0
    }

    fn append_bytes(&self, out: &mut Vec<u8>) {
        let v = *self;
        out.push((v & 0xff) as u8);
        out.push(((v >> 8u32) & 0xff) as u8);
        out.push(((v >> 16u32) & 0xff) as u8);
        out.push(((v >> 24u32) & 0xff) as u8);
    }

    fn read_at(b: &[u8], pos: usize) -> (r: u32) {
        let r = (b[pos] as u32) | ((b[pos + 1] as u32) << 8u32) | ((b[pos + 2] as u32) << 16u32) | ((b[pos + 3] as u32) << 24u32);
        proof {
            let s = b@.subrange(pos as int, pos + 4);
            assert(s[0] == b@[pos as int] && s[1] == b@[pos + 1] && s[2] == b@[pos + 2] && s[3] == b@[pos + 3]);
        }
        r
    }
}

impl Voxel for u16 {
    /// Two bytes, least significant first.
    open spec fn byte_len() -> nat {
        2
    }

    open spec fn to_bytes_spec(v: u16) -> Seq<u8> {
        seq![(v & 0xff) as u8, ((v >> 8u16) & 0xff) as u8]
    }

    open spec fn from_bytes_spec(b: Seq<u8>) -> u16 {
        (b[0] as u16) | ((b[1] as u16) << 8u16)
    }

    proof fn lemma_bytes(v: u16) {
        let b0 = (v & 0xff) as u8;
        let b1 = ((v >> 8u16) & 0xff) as u8;
        assert(v == (b0 as u16) | ((b1 as u16) << 8u16)) by (bit_vector)
            requires
                b0 == (v & 0xff) as u8,
                b1 == ((v >> 8u16) & 0xff) as u8,
        ;
    }

    fn byte_size() -> (r: usize) {
        2
    }

    fn default_value() -> u16 {
        0
    }

    fn append_bytes(&self, out: &mut Vec<u8>) {
        let v = *self;
        out.push((v & 0xff) as u8);
        out.push(((v >> 8u16) & 0xff) as u8);
    }

    fn read_at(b: &[u8], pos: usize) -> (r: u16) {
        let r = (b[pos] as u16) | ((b[pos + 1] as u16) << 8u16);
        proof {
            let s = b@.subrange(pos as int, pos + 2);
            assert(s[0] == b@[pos as int] && s[1] == b@[pos + 1]);
        }
        r
    }
}

impl Voxel for u64 {
    /// Eight bytes, least significant first.
    open spec fn byte_len() -> nat {
        8
    }

    open spec fn to_bytes_spec(v: u64) -> Seq<u8> {
        seq![
            (v & 0xff) as u8,
            ((v >> 8u64) & 0xff) as u8,
            ((v >> 16u64) & 0xff) as u8,
            ((v >> 24u64) & 0xff) as u8,
            ((v >> 32u64) & 0xff) as u8,
            ((v >> 40u64) & 0xff) as u8,
            ((v >> 48u64) & 0xff) as u8,
            ((v >> 56u64) & 0xff) as u8,
        ]
    }

    open spec fn from_bytes_spec(b: Seq<u8>) -> u64 {
        (b[0] as u64) | ((b[1] as u64) << 8u64) | ((b[2] as u64) << 16u64) | ((b[3] as u64)
            << 24u64) | ((b[4] as u64) << 32u64) | ((b[5] as u64) << 40u64) | ((b[6] as u64)
            << 48u64) | ((b[7] as u64) << 56u64)
    }

    proof fn lemma_bytes(v: u64) {
        let b0 = (v & 0xff) as u8;
        let b1 = ((v >> 8u64) & 0xff) as u8;
        let b2 = ((v >> 16u64) & 0xff) as u8;
        let b3 = ((v >> 24u64) & 0xff) as u8;
        let b4 = ((v >> 32u64) & 0xff) as u8;
        let b5 = ((v >> 40u64) & 0xff) as u8;
        let b6 = ((v >> 48u64) & 0xff) as u8;
        let b7 = ((v >> 56u64) & 0xff) as u8;
        assert(v == (b0 as u64) | ((b1 as u64) << 8u64) | ((b2 as u64) << 16u64) | ((b3 as u64)
            << 24u64) | ((b4 as u64) << 32u64) | ((b5 as u64) << 40u64) | ((b6 as u64) << 48u64)
            | ((b7 as u64) << 56u64)) by (bit_vector)
            requires
                b0 == (v & 0xff) as u8,
                b1 == ((v >> 8u64) & 0xff) as u8,
                b2 == ((v >> 16u64) & 0xff) as u8,
                b3 == ((v >> 24u64) & 0xff) as u8,
                b4 == ((v >> 32u64) & 0xff) as u8,
                b5 == ((v >> 40u64) & 0xff) as u8,
                b6 == ((v >> 48u64) & 0xff) as u8,
                b7 == ((v >> 56u64) & 0xff) as u8,
        ;
    }

    fn byte_size() -> (r: usize) {
        8
    }

    fn default_value() -> u64 {
        0
    }

    fn append_bytes(&self, out: &mut Vec<u8>) {
        let v = *self;
        out.push((v & 0xff) as u8);
        out.push(((v >> 8u64) & 0xff) as u8);
        out.push(((v >> 16u64) & 0xff) as u8);
        out.push(((v >> 24u64) & 0xff) as u8);
        out.push(((v >> 32u64) & 0xff) as u8);
        out.push(((v >> 40u64) & 0xff) as u8);
        out.push(((v >> 48u64) & 0xff) as u8);
        out.push(((v >> 56u64) & 0xff) as u8);
    }

    fn read_at(b: &[u8], pos: usize) -> (r: u64) {
        let r = (b[pos] as u64) | ((b[pos + 1] as u64) << 8u64) | ((b[pos + 2] as u64) << 16u64)
            | ((b[pos + 3] as u64) << 24u64) | ((b[pos + 4] as u64) << 32u64) | ((b[pos + 5]
            as u64) << 40u64) | ((b[pos + 6] as u64) << 48u64) | ((b[pos + 7] as u64) << 56u64);
        proof {
            let s = b@.subrange(pos as int, pos + 8);
            assert(s[0] == b@[pos as int] && s[1] == b@[pos + 1] && s[2] == b@[pos + 2] && s[3]
                == b@[pos + 3] && s[4] == b@[pos + 4] && s[5] == b@[pos + 5] && s[6] == b@[pos + 6]
                && s[7] == b@[pos + 7]);
        }
        r
    }
}

} // verus!
