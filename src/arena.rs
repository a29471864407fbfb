//! Node storage: an arena of contiguous sibling blocks, addressed by handles.
use vstd::prelude::*;
use crate::voxel::Voxel;

verus! {

/// The handle value that addresses no node.
pub const NONE_INDEX: usize = usize::MAX;

/// Identifies a node of an arena by its position; `NONE_INDEX` stands for no node.
#[derive(Clone, Copy, Debug, PartialEq, Eq, Structural)]
pub struct ArenaHandle {
    pub index: usize,
}

impl ArenaHandle {
    pub open spec fn spec_none() -> ArenaHandle {
        ArenaHandle { index: NONE_INDEX }
    }

    pub open spec fn spec_is_none(self) -> bool {
        self.index == NONE_INDEX
    }

    pub fn new(index: usize) -> (r: ArenaHandle)
        ensures
            r.index == index,
    {
        ArenaHandle { index }
    }

    pub fn none() -> (r: ArenaHandle)
        ensures
            r == ArenaHandle::spec_none(),
    {
        ArenaHandle { index: NONE_INDEX }
    }

    pub fn is_none(&self) -> (r: bool)
        ensures
            r == self.spec_is_none(),
    {
        self.index == NONE_INDEX
    }

    /// The handle of the `i`-th node of the block that starts at `self`.
    pub fn offset(&self, i: usize) -> (r: ArenaHandle)
        requires
            self.index + i < NONE_INDEX,
        ensures
            r.index == self.index + i,
    {
        ArenaHandle { index: self.index + i }
    }
}

/// One node: which octants have children, where the children's block starts,
/// a payload per octant, and the size of the block this node was allocated in.
#[derive(Clone, Copy)]
pub struct Node<T: Voxel> {
    pub freemask: u8,
    pub children: ArenaHandle,
    pub data: [T; 8],
    pub block_size: u8,
}

/// Exclusive owner of all nodes of a tree.
pub struct Arena<T: Voxel> {
    nodes: Vec<Node<T>>,
}

impl<T: Voxel> View for Arena<T> {
    type V = Seq<Node<T>>;

    closed spec fn view(&self) -> Seq<Node<T>> {
        self.nodes@
    }
}

impl<T: Voxel> Arena<T> {
    pub fn new() -> (r: Arena<T>)
        ensures
            r@ == Seq::<Node<T>>::empty(),
    {
        Arena { nodes: Vec::new() }
    }

    pub fn len(&self) -> (r: usize)
        ensures
            r == self@.len(),
    {
        self.nodes.len()
    }

    /// Appends a block of `n` fresh leaf nodes and returns the handle of its first node.
    pub fn allocate(&mut self, n: u8) -> (r: ArenaHandle)
        requires
            old(self)@.len() + n < NONE_INDEX,
        ensures
            r.index == old(self)@.len(),
            final(self)@.len() == old(self)@.len() + n,
            final(self)@.subrange(0, old(self)@.len() as int) == old(self)@,
            forall|k: int|
                old(self)@.len() <= k < final(self)@.len() ==> {
                    &&& (#[trigger] final(self)@[k]).freemask == 0
                    &&& final(self)@[k].children.spec_is_none()
                    &&& final(self)@[k].block_size == n
                },
    {
        let start = self.nodes.len();
        let d = T::default_value();
        let mut i: u8 = 0;
        while i < n
            invariant
                i <= n,
                start == old(self)@.len(),
                start + n < NONE_INDEX,
                self.nodes@.len() == start + i,
                self.nodes@.subrange(0, start as int) == old(self)@,
                forall|k: int|
                    start <= k < self.nodes@.len() ==> {
                        &&& (#[trigger] self.nodes@[k]).freemask == 0
                        &&& self.nodes@[k].children.spec_is_none()
                        &&& self.nodes@[k].block_size == n
                    },
            decreases n - i,
        {
            let node = Node {
                freemask: 0,
                children: ArenaHandle::none(),
                data: vstd::array::array_fill_for_copy_types(d),
                block_size: n,
            };
            self.nodes.push(node);
            assert(self.nodes@.subrange(0, start as int) =~= old(self)@);
            i = i + 1;
        }
        ArenaHandle { index: start }
    }

    pub fn get(&self, h: ArenaHandle) -> (r: &Node<T>)
        requires
            h.index < self@.len(),
        ensures
            *r == self@[h.index as int],
    {
        &self.nodes[h.index]
    }

    pub fn set(&mut self, h: ArenaHandle, node: Node<T>)
        requires
            h.index < old(self)@.len(),
        ensures
            final(self)@ == old(self)@.update(h.index as int, node),
    {
        self.nodes.set(h.index, node);
    }
}

} // verus!
