use octree_io::arena::{ArenaHandle, Node};
use octree_io::decode::DecodeError;
use octree_io::format::count_ones;
use octree_io::octree::Octree;
use octree_io::voxel::Voxel;

fn set_node(t: &mut Octree<u32>, h: ArenaHandle, freemask: u8, children: ArenaHandle, data: [u32; 8]) {
    let mut n: Node<u32> = *t.arena.get(h);
    n.freemask = freemask;
    n.children = children;
    n.data = data;
    t.arena.set(h, n);
}

fn vals(base: u32) -> [u32; 8] {
    [base, base + 1, base + 2, base + 3, base + 4, base + 5, base + 6, base + 7]
}

/// Root with children in octants 0 and 2; the first child has one child in octant 0.
fn two_level_tree() -> Octree<u32> {
    let mut t = Octree::new(0xAABBCCDDu32);
    let root = t.root;
    let kids = t.arena.allocate(2);
    let grand = t.arena.allocate(1);
    set_node(&mut t, root, 0b101, kids, vals(10));
    set_node(&mut t, kids, 0b1, grand, vals(20));
    set_node(&mut t, kids.offset(1), 0, ArenaHandle::none(), vals(30));
    set_node(&mut t, grand, 0, ArenaHandle::none(), vals(40));
    t
}

fn encode(t: &Octree<u32>) -> Vec<u8> {
    let mut out = Vec::new();
    t.write(&mut out);
    out
}

fn freemasks(t: &Octree<u32>) -> Vec<u8> {
    (0..t.arena.len()).map(|i| t.arena.get(ArenaHandle::new(i)).freemask).collect()
}

fn record(out: &mut Vec<u8>, fm: u8, index: Option<u32>, data: [u32; 8]) {
    out.push(fm);
    if let Some(i) = index {
        out.extend_from_slice(&i.to_le_bytes());
    }
    for v in data {
        out.extend_from_slice(&v.to_le_bytes());
    }
}

#[test]
fn leaf_root_encodes_to_one_record() {
    let t = Octree::new(5u32);
    let bytes = encode(&t);
    assert_eq!(bytes.len(), 4 + 1 + 8 * 4);
    assert_eq!(&bytes[0..4], &[5, 0, 0, 0]);
    assert_eq!(bytes[4], 0);
    let d = Octree::<u32>::read(&bytes).unwrap();
    assert_eq!(d.arena.len(), 1);
    assert_eq!(d.root_data, 5);
    let r = d.arena.get(d.root);
    assert_eq!(r.freemask, 0);
    assert!(r.children.is_none());
    assert_eq!(r.block_size, 1);
}

#[test]
fn two_level_tree_stream_is_exact() {
    let t = two_level_tree();
    let mut expected = Vec::new();
    expected.extend_from_slice(&0xAABBCCDDu32.to_le_bytes());
    record(&mut expected, 0b101, Some(1), vals(10));
    record(&mut expected, 0b1, Some(3), vals(20));
    record(&mut expected, 0, None, vals(30));
    record(&mut expected, 0, None, vals(40));
    assert_eq!(encode(&t), expected);
}

#[test]
fn round_trip_keeps_shape_and_values() {
    let t = two_level_tree();
    let d = Octree::<u32>::read(&encode(&t)).unwrap();
    assert_eq!(d.root_data, 0xAABBCCDD);
    assert_eq!(d.root.index, 0);
    assert_eq!(freemasks(&d), vec![0b101, 0b1, 0, 0]);
    let expect_children = [Some(1usize), Some(3), None, None];
    let expect_sizes = [1u8, 2, 2, 1];
    let expect_data = [vals(10), vals(20), vals(30), vals(40)];
    for i in 0..4 {
        let n = d.arena.get(ArenaHandle::new(i));
        match expect_children[i] {
            Some(c) => assert_eq!(n.children.index, c),
            None => assert!(n.children.is_none()),
        }
        assert_eq!(n.block_size, expect_sizes[i]);
        assert_eq!(n.data, expect_data[i]);
    }
    assert_eq!(encode(&d), encode(&t));
}

#[test]
fn saturated_root_decodes_to_block_of_eight() {
    let mut t = Octree::new(1u32);
    let root = t.root;
    let kids = t.arena.allocate(8);
    let grand = t.arena.allocate(2);
    set_node(&mut t, root, 0xFF, kids, vals(0));
    for i in 0..8 {
        let h = kids.offset(i);
        if i == 3 {
            set_node(&mut t, h, 0b1000_0001, grand, vals(100 + i as u32));
        } else {
            set_node(&mut t, h, 0, ArenaHandle::none(), vals(100 + i as u32));
        }
    }
    set_node(&mut t, grand, 0, ArenaHandle::none(), vals(200));
    set_node(&mut t, grand.offset(1), 0, ArenaHandle::none(), vals(300));
    let d = Octree::<u32>::read(&encode(&t)).unwrap();
    assert_eq!(d.arena.len(), 11);
    let r = d.arena.get(d.root);
    assert_eq!(r.children.index, 1);
    for i in 0..8 {
        let n = d.arena.get(ArenaHandle::new(1 + i));
        assert_eq!(n.block_size, 8);
        assert_eq!(n.data, vals(100 + i as u32));
        assert_eq!(n.freemask, if i == 3 { 0b1000_0001 } else { 0 });
    }
    assert_eq!(d.arena.get(ArenaHandle::new(4)).children.index, 9);
    assert_eq!(d.arena.get(ArenaHandle::new(9)).block_size, 2);
    assert_eq!(d.arena.get(ArenaHandle::new(10)).data, vals(300));
}

#[test]
fn stream_follows_breadth_first_order() {
    // Arena order differs from breadth-first order: deeper blocks are allocated first.
    let mut t = Octree::new(0u32);
    let root = t.root;
    let deep = t.arena.allocate(1);
    let deeper = t.arena.allocate(3);
    let kids = t.arena.allocate(2);
    set_node(&mut t, deeper, 0, ArenaHandle::none(), vals(1));
    set_node(&mut t, deeper.offset(1), 0, ArenaHandle::none(), vals(2));
    set_node(&mut t, deeper.offset(2), 0, ArenaHandle::none(), vals(3));
    set_node(&mut t, deep, 0b0111, deeper, vals(4));
    set_node(&mut t, kids, 0, ArenaHandle::none(), vals(5));
    set_node(&mut t, kids.offset(1), 0b0100_0000, deep, vals(6));
    set_node(&mut t, root, 0b11, kids, vals(7));
    let d = Octree::<u32>::read(&encode(&t)).unwrap();
    // Breadth-first: root, its two children, the second child's child, then its three children.
    assert_eq!(freemasks(&d), vec![0b11, 0, 0b0100_0000, 0b0111, 0, 0, 0]);
    let data: Vec<[u32; 8]> = (0..7).map(|i| d.arena.get(ArenaHandle::new(i)).data).collect();
    assert_eq!(data, vec![vals(7), vals(5), vals(6), vals(4), vals(1), vals(2), vals(3)]);
}

#[test]
fn truncated_stream_is_rejected() {
    let t = two_level_tree();
    let bytes = encode(&t);
    for cut in 0..bytes.len() {
        assert_eq!(Octree::<u32>::read(&bytes[..cut]).err(), Some(DecodeError::TruncatedStream));
    }
    let short = &bytes[..bytes.len() - 1];
    assert!(matches!(Octree::<u32>::read(short), Err(DecodeError::TruncatedStream)));
}

#[test]
fn empty_stream_is_rejected() {
    assert_eq!(Octree::<u32>::read(&[]).err(), Some(DecodeError::TruncatedStream));
    assert_eq!(Octree::<u32>::read(&[1, 2, 3, 4]).err(), Some(DecodeError::TruncatedStream));
}

#[test]
fn trailing_bytes_are_left_alone() {
    let t = two_level_tree();
    let mut bytes = encode(&t);
    bytes.extend_from_slice(&[9, 9, 9]);
    let d = Octree::<u32>::read(&bytes).unwrap();
    assert_eq!(freemasks(&d), vec![0b101, 0b1, 0, 0]);
}

#[test]
fn block_index_field_is_not_checked() {
    let t = two_level_tree();
    let mut bytes = encode(&t);
    // The root's block index follows the header and the freemask byte.
    bytes[5] = 0xEE;
    let d = Octree::<u32>::read(&bytes).unwrap();
    assert_eq!(d.arena.get(d.root).children.index, 1);
}

#[test]
fn byte_payloads_round_trip() {
    let mut t = Octree::new(7u8);
    let root = t.root;
    let kids = t.arena.allocate(1);
    let mut r: Node<u8> = *t.arena.get(root);
    r.freemask = 0b10;
    r.children = kids;
    r.data = [1, 2, 3, 4, 5, 6, 7, 8];
    t.arena.set(root, r);
    let mut out = Vec::new();
    t.write(&mut out);
    assert_eq!(out.len(), 1 + (1 + 4 + 8) + (1 + 8));
    let d = Octree::<u8>::read(&out).unwrap();
    assert_eq!(d.root_data, 7);
    assert_eq!(d.arena.get(d.root).data, [1, 2, 3, 4, 5, 6, 7, 8]);
    assert_eq!(d.arena.len(), 2);
}

#[test]
fn count_ones_counts_children() {
    assert_eq!(count_ones(0), 0);
    assert_eq!(count_ones(0xFF), 8);
    assert_eq!(count_ones(0b1010_0101), 4);
}

#[test]
fn u32_payload_bytes_are_least_significant_first() {
    let mut out = Vec::new();
    0x01020304u32.append_bytes(&mut out);
    assert_eq!(out, vec![4, 3, 2, 1]);
    assert_eq!(<u32 as Voxel>::read_at(&[0, 4, 3, 2, 1], 1), 0x01020304);
    assert_eq!(<u32 as Voxel>::byte_size(), 4);
    assert_eq!(<u8 as Voxel>::byte_size(), 1);
}

#[test]
fn built_trees_are_well_formed() {
    assert!(two_level_tree().is_well_formed());
    assert!(Octree::new(0u32).is_well_formed());
    let d = Octree::<u32>::read(&encode(&two_level_tree())).unwrap();
    assert!(d.is_well_formed());
}

#[test]
fn cyclic_tree_is_not_well_formed() {
    let mut t = Octree::new(0u32);
    let root = t.root;
    let kids = t.arena.allocate(1);
    set_node(&mut t, root, 0b1, kids, vals(0));
    // The child points back at itself.
    set_node(&mut t, kids, 0b1, kids, vals(0));
    assert!(!t.is_well_formed());
}

#[test]
fn mismatched_block_is_not_well_formed() {
    // Two children claimed, but the block was allocated with one node.
    let mut t = Octree::new(0u32);
    let root = t.root;
    let kids = t.arena.allocate(1);
    let _other = t.arena.allocate(1);
    set_node(&mut t, root, 0b11, kids, vals(0));
    assert!(!t.is_well_formed());
    // A leaf with a children handle.
    let mut u = Octree::new(0u32);
    let r = u.root;
    set_node(&mut u, r, 0, ArenaHandle::new(0), vals(0));
    assert!(!u.is_well_formed());
    // A children handle past the arena's end.
    let mut w = Octree::new(0u32);
    let r = w.root;
    set_node(&mut w, r, 0b1, ArenaHandle::new(5), vals(0));
    assert!(!w.is_well_formed());
}

#[test]
fn wide_payloads_round_trip() {
    let mut t = Octree::new(0x0102u16);
    let root = t.root;
    let mut r: Node<u16> = *t.arena.get(root);
    r.data = [0xFFFF, 1, 2, 3, 4, 5, 6, 0x8000];
    t.arena.set(root, r);
    let mut out = Vec::new();
    t.write(&mut out);
    assert_eq!(out.len(), 2 + 1 + 16);
    assert_eq!(&out[0..2], &[2, 1]);
    let d = Octree::<u16>::read(&out).unwrap();
    assert_eq!(d.root_data, 0x0102);
    assert_eq!(d.arena.get(d.root).data, [0xFFFF, 1, 2, 3, 4, 5, 6, 0x8000]);

    let t = Octree::new(0x0102030405060708u64);
    let mut out = Vec::new();
    t.write(&mut out);
    assert_eq!(out.len(), 8 + 1 + 64);
    assert_eq!(&out[0..8], &[8, 7, 6, 5, 4, 3, 2, 1]);
    let d = Octree::<u64>::read(&out).unwrap();
    assert_eq!(d.root_data, 0x0102030405060708);
}
