use vstd::prelude::*;
use crate::errors::RstzError;

verus! {

/// Number of child slots of a tree node.
pub const MAX_CHILDREN_PER_NODE: usize = 32;

/// Length of a node key in bytes.
pub const KEY_BYTE_LENGHT: usize = 16;

/// A child slot: empty, or holding a node.
pub type ChdPtr = Option<Box<NodeType>>;

/// What a child slot holds: an inner node or a leaf.
pub enum NodeType {
    TreeNode(Node),
    LeafNode(TSNode),
}

/// Inner node of the tree: its index in its parent, its key and its child slots.
pub struct Node {
    pub pidx: Option<usize>,
    key: [u8; KEY_BYTE_LENGHT],
    children: Vec<ChdPtr>,
}

/// Leaf of the tree, holding encoded samples.
pub struct TSNode {
    ts: Vec<u8>,
}

impl TSNode {
    pub fn new(ts: Vec<u8>) -> (r: TSNode)
        ensures
            r.samples() == ts@,
    {
        TSNode { ts }
    }

    pub closed spec fn samples(&self) -> Seq<u8> {
        self.ts@
    }
}

impl Node {
    pub closed spec fn parent_index(&self) -> Option<usize> {
        self.pidx
    }

    pub closed spec fn key(&self) -> [u8; KEY_BYTE_LENGHT] {
        self.key
    }

    /// The child slots, in index order.
    pub closed spec fn children(&self) -> Seq<ChdPtr> {
        self.children@
    }

    /// The node has exactly `MAX_CHILDREN_PER_NODE` child slots.
    pub open spec fn wf(&self) -> bool {
        self.children().len() == MAX_CHILDREN_PER_NODE
    }

    /// A node with every child slot empty.
    pub fn new(pidx: Option<usize>, key: [u8; KEY_BYTE_LENGHT]) -> (r: Node)
        ensures
            r.wf(),
            r.parent_index() == pidx,
            r.key() == key,
            forall|i: int| 0 <= i < MAX_CHILDREN_PER_NODE ==> r.children()[i] is None,
    {
        let mut children: Vec<ChdPtr> = Vec::new();
        let mut i: usize = 0;
        while i < MAX_CHILDREN_PER_NODE
            invariant
                i <= MAX_CHILDREN_PER_NODE,
                children@.len() == i,
                forall|j: int| 0 <= j < i ==> children@[j] is None,
            decreases MAX_CHILDREN_PER_NODE - i,
        {
            children.push(None);
            i = i + 1;
        }
        Node { pidx, key, children }
    }

    /// The child slot at `idx`, to be changed in place.
    pub fn child_as_mut(&mut self, idx: usize) -> (r: &mut ChdPtr)
        requires
            old(self).wf(),
            idx < MAX_CHILDREN_PER_NODE,
        ensures
            *r == old(self).children()[idx as int],
            final(self).children() == old(self).children().update(idx as int, *final(r)),
            final(self).parent_index() == old(self).parent_index(),
            final(self).key() == old(self).key(),
    {
        &mut self.children[idx]
    }

    /// The child slot at `idx`.
    pub fn child_as_ref(&self, idx: usize) -> (r: &ChdPtr)
        requires
            self.wf(),
            idx < MAX_CHILDREN_PER_NODE,
        ensures
            *r == self.children()[idx as int],
    {
        &self.children[idx]
    }

    /// Puts `child` in slot `index`; fails when there is no such slot.
    pub fn add_child(&mut self, child: NodeType, index: usize) -> (r: Result<(), RstzError>)
        requires
            old(self).wf(),
        ensures
            final(self).wf(),
            final(self).parent_index() == old(self).parent_index(),
            final(self).key() == old(self).key(),
            index < MAX_CHILDREN_PER_NODE ==> r is Ok && final(self).children() == old(
                self,
            ).children().update(index as int, Some(Box::new(child))),
            index >= MAX_CHILDREN_PER_NODE ==> r is Err && r->Err_0 is Message && final(self)
                .children() == old(self).children(),
    {
        if index >= MAX_CHILDREN_PER_NODE {
            return Err(RstzError::new("Child index out of bounds"));
        }
        self.children.set(index, Some(Box::new(child)));
        Ok(())
    }
}

} // verus!
