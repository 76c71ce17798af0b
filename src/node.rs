use vstd::prelude::*;

verus! {

/// Index of a node in the arena of a `BstTree`.
pub type BstNodeLink = usize;

/// One slot of the arena: an optional key and three links by index.
/// A node without a key is the sentinel of an empty tree.
#[derive(Clone, Copy, Debug, PartialEq, Eq)]
pub struct BstNode {
    pub key: Option<i32>,
    pub parent: Option<BstNodeLink>,
    pub left: Option<BstNodeLink>,
    pub right: Option<BstNodeLink>,
}

impl BstNode {
    /// The keyless node with no links that stands for an empty tree.
    pub open spec fn sentinel() -> BstNode {
        BstNode { key: None, parent: None, left: None, right: None }
    }

    /// A detached leaf holding `key`.
    pub open spec fn leaf(key: i32, parent: Option<BstNodeLink>) -> BstNode {
        BstNode { key: Some(key), parent, left: None, right: None }
    }

    /// A leaf with no parent.
    pub fn new(key: i32) -> (r: BstNode)
        ensures
            r == BstNode::leaf(key, None),
    {
        BstNode { key: Some(key), parent: None, left: None, right: None }
    }

    /// A leaf whose parent link is `parent`.
    pub fn new_with_parent(parent: BstNodeLink, value: i32) -> (r: BstNode)
        ensures
            r == BstNode::leaf(value, Some(parent)),
    {
        let mut n = BstNode::new(value);
        n.parent = Some(parent);
        n
    }

    /// A copy of this node's key and links.
    pub fn get_bst_nodelink_copy(&self) -> (r: BstNode)
        ensures
            r == *self,
    {
        *self
    }
}

} // verus!
