use vstd::prelude::*;
use crate::node::{BstNode, BstNodeLink};
use vstd::multiset::Multiset;
use crate::shape::Shape;

verus! {

/// `nodes` after the subtree topped by `u` is replaced by the one that `v`
/// links to, at `u`'s parent; unchanged if `u` has no parent in the arena.
pub open spec fn transplanted(
    nodes: Seq<BstNode>,
    u: BstNodeLink,
    v: Option<BstNodeLink>,
) -> Seq<BstNode> {
    let p = nodes[u as int].parent->0;
    if nodes[u as int].parent is Some && p < nodes.len() {
        let pn = nodes[p as int];
        let n1 = nodes.update(
            p as int,
            if pn.left == Some(u) {
                BstNode { left: v, ..pn }
            } else {
                BstNode { right: v, ..pn }
            },
        );
        match v {
            Some(x) => n1.update(x as int, BstNode { parent: Some(p), ..n1[x as int] }),
            None => n1,
        }
    } else {
        nodes
    }
}

/// A binary search tree: an arena of nodes and the index of the top one.
/// An empty tree has a keyless sentinel on top.
pub struct BstTree {
    pub nodes: Vec<BstNode>,
    pub root: BstNodeLink,
    pub shape: Ghost<Shape>,
}

impl BstTree {
    /// The tree that the arena holds.
    pub open spec fn model(&self) -> Shape {
        self.shape@
    }

    pub open spec fn wf(&self) -> bool {
        &&& self.root < self.nodes.len()
        &&& self.model().is_bst()
        &&& if self.model() is Nil {
            self.nodes@[self.root as int] == BstNode::sentinel()
        } else {
            self.model().realized(self.nodes@, Some(self.root), None)
        }
    }

    /// `x` is a node of the tree (for an empty tree: its sentinel).
    pub open spec fn has_node(&self, x: BstNodeLink) -> bool {
        if self.model() is Nil {
            x == self.root
        } else {
            self.model().ids().contains(x)
        }
    }

    /// The subtree topped by `x`.
    pub open spec fn at(&self, x: BstNodeLink) -> Shape {
        self.model().sub(x)
    }

    /// A node of the tree has a slot, tops a realized subtree, and has a key
    /// unless it is the sentinel of an empty tree.
    pub proof fn lemma_has_node(&self, x: BstNodeLink)
        requires
            self.wf(),
            self.has_node(x),
        ensures
            x < self.nodes.len(),
            self.model() is Nil ==> self.at(x) == Shape::Nil && self.nodes@[x as int].key is None,
            !(self.model() is Nil) ==> {
                &&& self.nodes@[x as int].key is Some
                &&& self.at(x).realized(self.nodes@, Some(x), self.nodes@[x as int].parent)
                &&& self.at(x).ids().subset_of(self.model().ids())
                &&& self.at(x).is_bst()
                &&& self.at(x).top() == Some(x)
            },
    {
        if !(self.model() is Nil) {
            self.model().lemma_sub(self.nodes@, Some(self.root), None, x);
            self.model().lemma_parent(self.nodes@, Some(self.root), None, x);
        }
    }

    /// An empty tree: one sentinel node.
    pub fn new() -> (r: BstTree)
        ensures
            r.wf(),
            r.model() == Shape::Nil,
            r.nodes@.len() == 1,
    {
        let mut nodes: Vec<BstNode> = Vec::new();
        nodes.push(BstNode { key: None, parent: None, left: None, right: None });
        BstTree { nodes, root: 0, shape: Ghost(Shape::Nil) }
    }

    /// The index of the top node.
    pub fn get_root_link(&self) -> (r: BstNodeLink)
        ensures
            r == self.root,
            self.wf() ==> self.has_node(r),
    {
        proof {
            if self.wf() && !(self.model() is Nil) {
                self.model().lemma_link(self.nodes@, Some(self.root), None);
            }
        }
        self.root
    }

    /// A copy of node `i`.
    pub fn node(&self, i: BstNodeLink) -> (r: BstNode)
        requires
            i < self.nodes.len(),
        ensures
            r == self.nodes@[i as int],
    {
        self.nodes[i]
    }

    /// The number of slots in the arena, detached ones included.
    pub fn len(&self) -> (r: usize)
        ensures
            r == self.nodes.len(),
    {
        self.nodes.len()
    }

    /// Whether the tree holds no key.
    pub fn is_empty(&self) -> (r: bool)
        requires
            self.wf(),
        ensures
            r == (self.model() is Nil),
    {
        self.nodes[self.root].key.is_none()
    }

    /// The keys in in-order.
    pub fn in_order(&self) -> (r: Vec<i32>)
        requires
            self.wf(),
        ensures
            r@ == self.model().inorder(),
    {
        let mut out: Vec<i32> = Vec::new();
        if self.nodes[self.root].key.is_some() {
            self.collect(Some(self.root), Ghost(self.model()), Ghost(None), &mut out);
        }
        out
    }

    fn collect(
        &self,
        link: Option<BstNodeLink>,
        Ghost(s): Ghost<Shape>,
        Ghost(p): Ghost<Option<BstNodeLink>>,
        out: &mut Vec<i32>,
    )
        requires
            s.realized(self.nodes@, link, p),
        ensures
            final(out)@ == old(out)@ + s.inorder(),
        decreases s.height(),
    {
        match link {
            None => {
                assert(old(out)@ + s.inorder() == old(out)@);
            },
            Some(i) => {
                let n = self.nodes[i];
                let ghost l: Shape = *s->left;
                let ghost r: Shape = *s->right;
                self.collect(n.left, Ghost(l), Ghost(Some(i)), out);
                if let Some(k) = n.key {
                    out.push(k);
                }
                self.collect(n.right, Ghost(r), Ghost(Some(i)), out);
                assert(final(out)@ == old(out)@ + s.inorder());
            },
        }
    }
}

impl BstNode {
    /// Puts a detached leaf holding `value` into the arena and returns its index.
    pub fn new_bst_nodelink(tree: &mut BstTree, value: i32) -> (r: BstNodeLink)
        requires
            old(tree).nodes.len() < usize::MAX,
        ensures
            r == old(tree).nodes.len(),
            final(tree).nodes@ == old(tree).nodes@.push(BstNode::leaf(value, None)),
            final(tree).root == old(tree).root,
            final(tree).model() == old(tree).model(),
            old(tree).wf() ==> final(tree).wf(),
    {
        let r = tree.nodes.len();
        tree.nodes.push(BstNode::new(value));
        proof {
            if old(tree).wf() && !(tree.model() is Nil) {
                tree.model().lemma_link(old(tree).nodes@, Some(tree.root), None);
                assert(crate::shape::same_on(old(tree).nodes@, tree.nodes@, tree.model().ids()));
                tree.model().lemma_frame(old(tree).nodes@, tree.nodes@, Some(tree.root), None);
            }
        }
        r
    }

    /// Puts a leaf holding `value` into the arena as the left child of `node`,
    /// replacing the link that was there. Search order is not checked.
    pub fn add_left_child(tree: &mut BstTree, node: BstNodeLink, value: i32)
        requires
            node < old(tree).nodes.len(),
            old(tree).nodes.len() < usize::MAX,
        ensures
            final(tree).nodes@ == old(tree).nodes@.update(
                node as int,
                BstNode { left: Some(old(tree).nodes.len() as BstNodeLink), ..old(tree).nodes@[node as int] },
            ).push(BstNode::leaf(value, Some(node))),
            final(tree).root == old(tree).root,
    {
        let child = tree.nodes.len();
        tree.nodes.push(BstNode::new_with_parent(node, value));
        let mut n = tree.nodes[node];
        n.left = Some(child);
        tree.nodes.set(node, n);
    }

    /// Puts a leaf holding `value` into the arena as the right child of `node`,
    /// replacing the link that was there. Search order is not checked.
    pub fn add_right_child(tree: &mut BstTree, node: BstNodeLink, value: i32)
        requires
            node < old(tree).nodes.len(),
            old(tree).nodes.len() < usize::MAX,
        ensures
            final(tree).nodes@ == old(tree).nodes@.update(
                node as int,
                BstNode { right: Some(old(tree).nodes.len() as BstNodeLink), ..old(tree).nodes@[node as int] },
            ).push(BstNode::leaf(value, Some(node))),
            final(tree).root == old(tree).root,
    {
        let child = tree.nodes.len();
        tree.nodes.push(BstNode::new_with_parent(node, value));
        let mut n = tree.nodes[node];
        n.right = Some(child);
        tree.nodes.set(node, n);
    }

    fn search_below(
        tree: &BstTree,
        node: BstNodeLink,
        value: i32,
        Ghost(s): Ghost<Shape>,
        Ghost(p): Ghost<Option<BstNodeLink>>,
    ) -> (r: Option<BstNodeLink>)
        requires
            s.realized(tree.nodes@, Some(node), p),
        ensures
            r == s.find(value),
        decreases s.height(),
    {
        let n = tree.nodes[node];
        proof {
            s->left.lemma_link(tree.nodes@, n.left, Some(node));
            s->right.lemma_link(tree.nodes@, n.right, Some(node));
        }
        if let Some(key) = n.key {
            if key == value {
                return Some(node);
            }
            if value < key {
                if let Some(c) = n.left {
                    return BstNode::search_below(tree, c, value, Ghost(*s->left), Ghost(Some(node)));
                }
            } else if let Some(c) = n.right {
                return BstNode::search_below(tree, c, value, Ghost(*s->right), Ghost(Some(node)));
            }
        }
        None
    }

    /// Searches the subtree topped by `node` for `value`, recursively.
    pub fn tree_search(tree: &BstTree, node: BstNodeLink, value: &i32) -> (r: Option<BstNodeLink>)
        requires
            tree.wf(),
            tree.has_node(node),
        ensures
            r == tree.at(node).find(*value),
            r matches Some(i) ==> tree.has_node(i) && i < tree.nodes.len()
                && tree.nodes@[i as int].key == Some(*value),
    {
        proof {
            tree.lemma_has_node(node);
        }
        if tree.nodes[node].key.is_none() {
            return None;
        }
        proof {
            tree.at(node).lemma_find_node(tree.nodes@, Some(node), tree.nodes@[node as int].parent, *value);
        }
        BstNode::search_below(tree, node, *value, Ghost(tree.at(node)), Ghost(tree.nodes@[node as int].parent))
    }

    /// Searches the subtree topped by `node` for `value`, by a loop.
    pub fn tree_search_link(tree: &BstTree, node: BstNodeLink, value: &i32) -> (r: Option<BstNodeLink>)
        requires
            tree.wf(),
            tree.has_node(node),
        ensures
            r == tree.at(node).find(*value),
            r matches Some(i) ==> tree.has_node(i) && i < tree.nodes.len()
                && tree.nodes@[i as int].key == Some(*value),
    {
        proof {
            tree.lemma_has_node(node);
        }
        if tree.nodes[node].key.is_none() {
            return None;
        }
        proof {
            tree.at(node).lemma_find_node(tree.nodes@, Some(node), tree.nodes@[node as int].parent, *value);
        }
        let ghost top = tree.at(node);
        let mut current = node;
        let ghost mut s = top;
        let ghost mut p = tree.nodes@[node as int].parent;
        loop
            invariant
                s.realized(tree.nodes@, Some(current), p),
                top == tree.at(node),
                s.find(*value) == top.find(*value),
                s.ids().subset_of(top.ids()),
                top.find(*value) is Some ==> top.find(*value)->0 < tree.nodes.len()
                    && tree.nodes@[top.find(*value)->0 as int].key == Some(*value),
                top.ids().subset_of(tree.model().ids()),
            decreases s.height(),
        {
            let n = tree.nodes[current];
            proof {
                s.lemma_link(tree.nodes@, Some(current), p);
                s->left.lemma_link(tree.nodes@, n.left, Some(current));
                s->right.lemma_link(tree.nodes@, n.right, Some(current));
            }
            let next = match n.key {
                Some(key) => {
                    if *value == key {
                        return Some(current);
                    } else if *value < key {
                        n.left
                    } else {
                        n.right
                    }
                },
                None => {
                    return None;
                },
            };
            match next {
                Some(c) => {
                    proof {
                        if *value < s->key {
                            s = *s->left;
                        } else {
                            s = *s->right;
                        }
                        p = Some(current);
                    }
                    current = c;
                },
                None => {
                    proof {
                        assert(n.key == Some(s->key));
                        assert(*value != s->key);
                        if *value < s->key {
                            assert(*s->left is Nil);
                            assert(s->left.find(*value) is None);
                        } else {
                            assert(*s->right is Nil);
                            assert(s->right.find(*value) is None);
                        }
                        assert(s.find(*value) is None);
                    }
                    return None;
                },
            }
        }
    }

    fn leftmost_below(
        tree: &BstTree,
        node: BstNodeLink,
        Ghost(s): Ghost<Shape>,
        Ghost(p): Ghost<Option<BstNodeLink>>,
    ) -> (r: BstNodeLink)
        requires
            s.realized(tree.nodes@, Some(node), p),
        ensures
            r == s.leftmost(),
    {
        let mut current = node;
        let ghost mut cs = s;
        let ghost mut cp = p;
        loop
            invariant
                cs.realized(tree.nodes@, Some(current), cp),
                cs.leftmost() == s.leftmost(),
            decreases cs.height(),
        {
            proof {
                cs.lemma_link(tree.nodes@, Some(current), cp);
                cs->left.lemma_link(tree.nodes@, tree.nodes@[current as int].left, Some(current));
            }
            match tree.nodes[current].left {
                Some(c) => {
                    proof {
                        cs = *cs->left;
                        cp = Some(current);
                    }
                    current = c;
                },
                None => {
                    return current;
                },
            }
        }
    }

    /// The node with the smallest key of the subtree topped by `node`, found by
    /// following left links; `node` itself for an empty tree.
    pub fn minimum(tree: &BstTree, node: BstNodeLink) -> (r: BstNodeLink)
        requires
            tree.wf(),
            tree.has_node(node),
        ensures
            tree.has_node(r),
            r < tree.nodes.len(),
            tree.model() is Nil ==> r == node,
            !(tree.model() is Nil) ==> {
                &&& r == tree.at(node).leftmost()
                &&& tree.nodes@[r as int].key == Some(tree.at(node).leftmost_key())
                &&& tree.nodes@[r as int].left is None
            },
    {
        proof {
            tree.lemma_has_node(node);
        }
        if tree.nodes[node].key.is_none() {
            return node;
        }
        proof {
            tree.at(node).lemma_leftmost(tree.nodes@, Some(node), tree.nodes@[node as int].parent);
        }
        BstNode::leftmost_below(tree, node, Ghost(tree.at(node)), Ghost(tree.nodes@[node as int].parent))
    }

    fn rightmost_below(
        tree: &BstTree,
        node: BstNodeLink,
        Ghost(s): Ghost<Shape>,
        Ghost(p): Ghost<Option<BstNodeLink>>,
    ) -> (r: BstNodeLink)
        requires
            s.realized(tree.nodes@, Some(node), p),
        ensures
            r == s.rightmost(),
    {
        let mut current = node;
        let ghost mut cs = s;
        let ghost mut cp = p;
        loop
            invariant
                cs.realized(tree.nodes@, Some(current), cp),
                cs.rightmost() == s.rightmost(),
            decreases cs.height(),
        {
            proof {
                cs.lemma_link(tree.nodes@, Some(current), cp);
                cs->right.lemma_link(tree.nodes@, tree.nodes@[current as int].right, Some(current));
            }
            match tree.nodes[current].right {
                Some(c) => {
                    proof {
                        cs = *cs->right;
                        cp = Some(current);
                    }
                    current = c;
                },
                None => {
                    return current;
                },
            }
        }
    }

    /// The node with the largest key of the subtree topped by `node`, found by
    /// following right links; `node` itself for an empty tree.
    pub fn maximum(tree: &BstTree, node: BstNodeLink) -> (r: BstNodeLink)
        requires
            tree.wf(),
            tree.has_node(node),
        ensures
            tree.has_node(r),
            r < tree.nodes.len(),
            tree.model() is Nil ==> r == node,
            !(tree.model() is Nil) ==> {
                &&& r == tree.at(node).rightmost()
                &&& tree.nodes@[r as int].key == Some(tree.at(node).rightmost_key())
                &&& tree.nodes@[r as int].right is None
            },
    {
        proof {
            tree.lemma_has_node(node);
        }
        if tree.nodes[node].key.is_none() {
            return node;
        }
        proof {
            tree.at(node).lemma_rightmost(tree.nodes@, Some(node), tree.nodes@[node as int].parent);
        }
        BstNode::rightmost_below(tree, node, Ghost(tree.at(node)), Ghost(tree.nodes@[node as int].parent))
    }

    /// The top node of the tree, reached from `node` by parent links.
    pub fn get_root(tree: &BstTree, node: BstNodeLink) -> (r: BstNodeLink)
        requires
            tree.wf(),
            tree.has_node(node),
        ensures
            r == tree.root,
    {
        proof {
            tree.lemma_has_node(node);
        }
        let mut current = node;
        loop
            invariant
                tree.wf(),
                tree.has_node(current),
            decreases tree.model().depth(current),
        {
            proof {
                tree.lemma_has_node(current);
                if !(tree.model() is Nil) {
                    tree.model().lemma_parent(tree.nodes@, Some(tree.root), None, current);
                }
            }
            match tree.nodes[current].parent {
                None => {
                    return current;
                },
                Some(q) => {
                    current = q;
                },
            }
        }
    }

    /// Hangs the detached leaf `new_node` into the tree: it becomes the top
    /// node of an empty tree, else the child of the node where a search for its
    /// key runs out (smaller keys left, equal or greater right).
    pub fn tree_insert_link(tree: &mut BstTree, new_node: BstNodeLink)
        requires
            old(tree).wf(),
            new_node < old(tree).nodes.len(),
            old(tree).nodes@[new_node as int].key is Some,
            old(tree).nodes@[new_node as int] == BstNode::leaf(
                old(tree).nodes@[new_node as int].key->0,
                None,
            ),
            !old(tree).model().ids().contains(new_node),
        ensures
            final(tree).wf(),
            final(tree).model() == old(tree).model().ins(
                new_node,
                old(tree).nodes@[new_node as int].key->0,
            ),
            final(tree).model().keys() == old(tree).model().keys().insert(
                old(tree).nodes@[new_node as int].key->0,
            ),
            final(tree).model().ids() == old(tree).model().ids().insert(new_node),
            final(tree).nodes.len() == old(tree).nodes.len(),
    {
        let ghost k = tree.nodes@[new_node as int].key->0;
        let ghost t = tree.model();
        if tree.nodes[tree.root].key.is_none() {
            tree.root = new_node;
            proof {
                let leaf = tree.model().ins(new_node, k);
                assert(leaf->left.realized(tree.nodes@, None, Some(new_node)));
                assert(leaf->right.realized(tree.nodes@, None, Some(new_node)));
                assert(leaf->left.keys() == Multiset::<i32>::empty());
                assert(leaf->right.keys() == Multiset::<i32>::empty());
                assert(leaf->left.is_bst());
                assert(leaf->right.is_bst());
                assert(leaf.keys() =~= t.keys().insert(k));
                assert(leaf.ids() =~= t.ids().insert(new_node));
                tree.shape = Ghost(leaf);
            }
            return;
        }
        let new_key = tree.nodes[new_node].key.unwrap();
        let mut current = tree.root;
        let ghost mut cs = t;
        let ghost mut cp: Option<BstNodeLink> = None;
        loop
            invariant
                t == tree.model(),
                tree.wf(),
                !(t is Nil),
                new_key == k,
                cs.realized(tree.nodes@, Some(current), cp),
                cs.ins_parent(k) == t.ins_parent(k),
            ensures
                t == tree.model(),
                tree.wf(),
                new_key == k,
                current == t.ins_parent(k),
            decreases cs.height(),
        {
            proof {
                cs.lemma_link(tree.nodes@, Some(current), cp);
                cs->left.lemma_link(tree.nodes@, tree.nodes@[current as int].left, Some(current));
                cs->right.lemma_link(tree.nodes@, tree.nodes@[current as int].right, Some(current));
            }
            let n = tree.nodes[current];
            let next = if new_key < n.key.unwrap() {
                n.left
            } else {
                n.right
            };
            match next {
                Some(c) => {
                    proof {
                        if k < cs->key {
                            cs = *cs->left;
                        } else {
                            cs = *cs->right;
                        }
                        cp = Some(current);
                    }
                    current = c;
                },
                None => {
                    break ;
                },
            }
        }
        let ghost old_nodes = tree.nodes@;
        let parent = current;
        proof {
            t.lemma_ins_parent(k);
            t.lemma_link(tree.nodes@, Some(tree.root), None);
        }
        let mut leaf = tree.nodes[new_node];
        leaf.parent = Some(parent);
        tree.nodes.set(new_node, leaf);
        let mut p = tree.nodes[parent];
        if new_key < p.key.unwrap() {
            p.left = Some(new_node);
        } else {
            p.right = Some(new_node);
        }
        tree.nodes.set(parent, p);
        proof {
            assert(crate::shape::same_on(old_nodes, tree.nodes@, t.ids().remove(parent)));
            t.lemma_ins(old_nodes, tree.nodes@, Some(tree.root), None, new_node, k);
            tree.shape = Ghost(t.ins(new_node, k));
        }
    }

    /// Adds `key` to the tree in a new leaf at the end of the arena.
    pub fn tree_insert(tree: &mut BstTree, key: i32)
        requires
            old(tree).wf(),
            old(tree).nodes.len() < usize::MAX,
        ensures
            final(tree).wf(),
            final(tree).model() == old(tree).model().ins(old(tree).nodes.len() as BstNodeLink, key),
            final(tree).model().keys() == old(tree).model().keys().insert(key),
            final(tree).nodes.len() == old(tree).nodes.len() + 1,
    {
        proof {
            if !(tree.model() is Nil) {
                tree.model().lemma_link(tree.nodes@, Some(tree.root), None);
            }
        }
        let new_node = BstNode::new_bst_nodelink(tree, key);
        BstNode::tree_insert_link(tree, new_node);
    }

    /// Puts the subtree linked by `v` where the subtree topped by `u` hangs,
    /// at `u`'s parent (the child slot that holds `u`, else the right one),
    /// and points `v` back at that parent. A node without a parent is left
    /// alone: replacing the top is the caller's work.
    pub fn transplant(tree: &mut BstTree, u: BstNodeLink, v: Option<BstNodeLink>)
        requires
            u < old(tree).nodes.len(),
            v matches Some(x) ==> x < old(tree).nodes.len(),
        ensures
            final(tree).nodes@ == transplanted(old(tree).nodes@, u, v),
            final(tree).root == old(tree).root,
            final(tree).shape == old(tree).shape,
    {
        if let Some(p) = tree.nodes[u].parent {
            if p < tree.nodes.len() {
                let mut pn = tree.nodes[p];
                if pn.left == Some(u) {
                    pn.left = v;
                } else {
                    pn.right = v;
                }
                tree.nodes.set(p, pn);
                if let Some(x) = v {
                    let mut xn = tree.nodes[x];
                    xn.parent = Some(p);
                    tree.nodes.set(x, xn);
                }
            }
        }
    }

    /// Removes `z`, which lacks a left or a right child, by lifting its one
    /// subtree (or nothing) into its place.
    fn delete_with_one_side(tree: &mut BstTree, z: BstNodeLink)
        requires
            old(tree).wf(),
            old(tree).model().ids().contains(z),
            old(tree).nodes@[z as int].left is None || old(tree).nodes@[z as int].right is None,
        ensures
            final(tree).wf(),
            final(tree).model() == old(tree).model().del(z),
            final(tree).nodes.len() == old(tree).nodes.len(),
    {
        let ghost t = tree.model();
        let ghost n0 = tree.nodes@;
        let ghost sz = t.sub(z);
        proof {
            t.lemma_sub(n0, Some(tree.root), None, z);
            t.lemma_parent(n0, Some(tree.root), None, z);
            t.lemma_link(n0, Some(tree.root), None);
            sz.lemma_link(n0, Some(z), n0[z as int].parent);
            sz->left.lemma_link(n0, n0[z as int].left, Some(z));
            sz->right.lemma_link(n0, n0[z as int].right, Some(z));
            sz.lemma_del_top(n0, Some(z), n0[z as int].parent);
            t.lemma_replace_facts(n0, Some(tree.root), None, z, sz.del_top());
        }
        let zn = tree.nodes[z];
        let child = if zn.left.is_none() {
            zn.right
        } else {
            zn.left
        };
        let ghost t2 = sz.del_top();
        assert(t2.realized(n0, child, Some(z)));
        assert(t2.ids().subset_of(sz.ids()));
        if z == tree.root {
            assert(t.sub(z) == t);
            match child {
                Some(c) => {
                    let mut cn = tree.nodes[c];
                    cn.parent = None;
                    tree.nodes.set(c, cn);
                    tree.root = c;
                    proof {
                        assert(crate::shape::same_on(n0, tree.nodes@, t2.ids().remove(c)));
                        t2.lemma_reparent(n0, tree.nodes@, c, Some(z), None);
                    }
                },
                None => {
                    tree.nodes.set(z, BstNode { key: None, parent: None, left: None, right: None });
                },
            }
            proof {
                tree.shape = Ghost(t2);
                assert(t.del(z) == t2);
            }
        } else {
            let ghost p = n0[z as int].parent->0;
            BstNode::transplant(tree, z, child);
            proof {
                assert(!sz.ids().contains(p));
                if let Some(c) = child {
                    assert(crate::shape::same_on(n0, tree.nodes@, t2.ids().remove(c)));
                    t2.lemma_reparent(n0, tree.nodes@, c, Some(z), Some(p));
                }
                assert(crate::shape::same_on(n0, tree.nodes@, t.ids().difference(sz.ids()).remove(p)));
                t.lemma_replace(n0, tree.nodes@, Some(tree.root), None, z, t2);
                tree.shape = Ghost(t.del(z));
            }
        }
    }

    /// Removes `z`, which has two children: the leftmost node of its right
    /// subtree takes its place.
    fn delete_with_two_sides(tree: &mut BstTree, z: BstNodeLink)
        requires
            old(tree).wf(),
            old(tree).model().ids().contains(z),
            old(tree).nodes@[z as int].left is Some,
            old(tree).nodes@[z as int].right is Some,
        ensures
            final(tree).wf(),
            final(tree).model() == old(tree).model().del(z),
            final(tree).nodes.len() == old(tree).nodes.len(),
    {
        let ghost t = tree.model();
        let ghost n0 = tree.nodes@;
        let ghost sz = t.sub(z);
        proof {
            t.lemma_sub(n0, Some(tree.root), None, z);
            t.lemma_parent(n0, Some(tree.root), None, z);
            t.lemma_link(n0, Some(tree.root), None);
            sz.lemma_link(n0, Some(z), n0[z as int].parent);
            sz->left.lemma_link(n0, n0[z as int].left, Some(z));
            sz->right.lemma_link(n0, n0[z as int].right, Some(z));
            sz.lemma_del_top(n0, Some(z), n0[z as int].parent);
            t.lemma_replace_facts(n0, Some(tree.root), None, z, sz.del_top());
        }
        let ghost l = *sz->left;
        let ghost r = *sz->right;
        let zn = tree.nodes[z];
        let lc = zn.left.unwrap();
        let rc = zn.right.unwrap();
        proof {
            r.lemma_leftmost(n0, Some(rc), Some(z));
        }
        let s = BstNode::leftmost_below(tree, rc, Ghost(r), Ghost(Some(z)));
        let ghost ks = r.leftmost_key();
        let ghost ssub = r.sub(s);
        let ghost sr = *ssub->right;
        let ghost r2 = r.replace(s, sr);
        let ghost t2 = sz.del_top();
        proof {
            r.lemma_sub(n0, Some(rc), Some(z), s);
            r.lemma_parent(n0, Some(rc), Some(z), s);
            r.lemma_link(n0, Some(rc), Some(z));
            l.lemma_link(n0, Some(lc), Some(z));
            ssub.lemma_link(n0, Some(s), n0[s as int].parent);
            sr.lemma_link(n0, n0[s as int].right, Some(s));
            r.lemma_replace_facts(n0, Some(rc), Some(z), s, sr);
            assert(t2 == Shape::Node { left: Box::new(l), id: s, key: ks, right: Box::new(r2) });
            assert(t.ids().contains(s));
            assert(!l.ids().contains(s));
        }
        let sn = tree.nodes[s];
        let ghost n1 = tree.nodes@;
        if s != rc {
            let ghost sp = n0[s as int].parent->0;
            proof {
                if let Some(c) = sn.right {
                    assert(sr.ids().contains(c));
                }
                assert(sr.ids().subset_of(ssub.ids()));
            }
            BstNode::transplant(tree, s, sn.right);
            let ghost nm = tree.nodes@;
            proof {
                assert(sp != s);
                assert(!ssub.ids().contains(sp));
                if let Some(c) = sn.right {
                    assert(crate::shape::same_on(n0, nm, sr.ids().remove(c)));
                    sr.lemma_reparent(n0, nm, c, Some(s), Some(sp));
                }
                assert(crate::shape::same_on(n0, nm, r.ids().difference(ssub.ids()).remove(sp)));
                r.lemma_replace(n0, nm, Some(rc), Some(z), s, sr);
            }
            let mut s_node = tree.nodes[s];
            s_node.right = Some(rc);
            tree.nodes.set(s, s_node);
            let mut r_node = tree.nodes[rc];
            r_node.parent = Some(s);
            tree.nodes.set(rc, r_node);
            proof {
                assert(!r2.ids().contains(s));
                assert(crate::shape::same_on(nm, tree.nodes@, r2.ids().remove(rc)));
                r2.lemma_reparent(nm, tree.nodes@, rc, Some(z), Some(s));
                assert(r.ids().contains(sp));
                assert(sr.ids().subset_of(r.ids()));
                assert(l.ids().disjoint(r.ids()));
                assert(crate::shape::same_on(n0, tree.nodes@, l.ids()));
                assert(r.ids().subset_of(sz.ids()));
                assert(crate::shape::same_on(n0, tree.nodes@, t.ids().difference(sz.ids())));
                assert(!r.ids().contains(z));
                assert(tree.nodes@[z as int] == n0[z as int]);
            }
        } else {
            proof {
                assert(r2 == sr);
            }
        }
        let ghost n2 = tree.nodes@;
        assert(r2.realized(n2, n2[s as int].right, Some(s)));
        assert(crate::shape::same_on(n0, n2, l.ids()));
        assert(l.ids().contains(lc));
        assert(n2.len() == n0.len());
        assert(n2[z as int] == n0[z as int]);
        assert(crate::shape::same_on(n0, n2, t.ids().difference(sz.ids())));
        assert(l.ids().subset_of(sz.ids()));
        assert(z != tree.root ==> !sz.ids().contains(n0[z as int].parent->0));
        let ghost p = n0[z as int].parent->0;
        if z == tree.root {
            let mut s_node = tree.nodes[s];
            s_node.parent = None;
            tree.nodes.set(s, s_node);
        } else {
            BstNode::transplant(tree, z, Some(s));
        }
        let mut s_node = tree.nodes[s];
        s_node.left = Some(lc);
        tree.nodes.set(s, s_node);
        let mut l_node = tree.nodes[lc];
        l_node.parent = Some(s);
        tree.nodes.set(lc, l_node);
        let ghost n3 = tree.nodes@;
        let ghost ps = if z == tree.root { None } else { Some(p) };
        proof {
            assert(crate::shape::same_on(n0, n3, l.ids().remove(lc)));
            l.lemma_reparent(n0, n3, lc, Some(z), Some(s));
            assert(crate::shape::same_on(n2, n3, r2.ids()));
            r2.lemma_frame(n2, n3, n2[s as int].right, Some(s));
            assert(t2.realized(n3, Some(s), ps));
        }
        if z == tree.root {
            tree.root = s;
            proof {
                assert(t.sub(z) == t);
                tree.shape = Ghost(t2);
            }
        } else {
            proof {
                assert(!sz.ids().contains(p));
                assert(crate::shape::same_on(n0, n3, t.ids().difference(sz.ids()).remove(p)));
                t.lemma_replace(n0, n3, Some(tree.root), None, z, t2);
                tree.shape = Ghost(t.del(z));
            }
        }
    }

    /// Removes node `z` from the tree, by the three cases of a missing left
    /// child, a missing right child, or two children.
    pub fn tree_delete_link(tree: &mut BstTree, z: BstNodeLink)
        requires
            old(tree).wf(),
            old(tree).model().ids().contains(z),
        ensures
            final(tree).wf(),
            final(tree).model() == old(tree).model().del(z),
            final(tree).model().keys() == old(tree).model().keys().remove(
                old(tree).nodes@[z as int].key->0,
            ),
            final(tree).model().ids().subset_of(old(tree).model().ids().remove(z)),
            final(tree).nodes.len() == old(tree).nodes.len(),
    {
        proof {
            tree.model().lemma_del(tree.nodes@, Some(tree.root), None, z);
            tree.model().lemma_sub(tree.nodes@, Some(tree.root), None, z);
        }
        if tree.nodes[z].left.is_none() || tree.nodes[z].right.is_none() {
            BstNode::delete_with_one_side(tree, z);
        } else {
            BstNode::delete_with_two_sides(tree, z);
        }
    }

    /// Removes one node holding `key`, the first that a search meets, and
    /// reports whether there was one; without one the tree is unchanged.
    pub fn tree_delete(tree: &mut BstTree, key: i32) -> (r: bool)
        requires
            old(tree).wf(),
        ensures
            final(tree).wf(),
            r == old(tree).model().keys().contains(key),
            r ==> final(tree).model() == old(tree).model().del(old(tree).model().find(key)->0),
            final(tree).model().keys() == old(tree).model().keys().remove(key),
            !r ==> *final(tree) == *old(tree),
    {
        proof {
            tree.model().lemma_find(key);
        }
        let root = tree.root;
        match BstNode::tree_search_link(tree, root, &key) {
            Some(z) => {
                BstNode::tree_delete_link(tree, z);
                true
            },
            None => {
                assert(old(tree).model().keys().remove(key) =~= old(tree).model().keys());
                false
            },
        }
    }

    /// Whether `link` leads to no node, or to the keyless sentinel.
    pub fn is_nil(tree: &BstTree, link: Option<BstNodeLink>) -> (r: bool)
        requires
            link matches Some(i) ==> i < tree.nodes.len(),
        ensures
            r == match link {
                None => true,
                Some(i) => tree.nodes@[i as int].key is None,
            },
    {
        match link {
            None => true,
            Some(i) => tree.nodes[i].key.is_none(),
        }
    }

    /// Whether two optional links lead to the same node (or both to none).
    pub fn is_node_match_option(a: Option<BstNodeLink>, b: Option<BstNodeLink>) -> (r: bool)
        ensures
            r == (a == b),
    {
        match (a, b) {
            (None, None) => true,
            (Some(x), Some(y)) => BstNode::is_node_match(x, y),
            _ => false,
        }
    }

    /// Whether two links lead to the same node.
    pub fn is_node_match(a: BstNodeLink, b: BstNodeLink) -> (r: bool)
        ensures
            r == (a == b),
    {
        a == b
    }

    /// The node after `x` in in-order: the leftmost node of its right subtree
    /// if it has one, else the first ancestor reached from a left child;
    /// `None` when `x` is last.
    pub fn tree_successor(tree: &BstTree, x: BstNodeLink) -> (r: Option<BstNodeLink>)
        requires
            tree.wf(),
            tree.model().ids().contains(x),
        ensures
            r == tree.model().succ(x),
    {
        let ghost t = tree.model();
        proof {
            t.lemma_sub(tree.nodes@, Some(tree.root), None, x);
            t.sub(x)->right.lemma_link(tree.nodes@, tree.nodes@[x as int].right, Some(x));
        }
        if let Some(rc) = tree.nodes[x].right {
            proof {
                t.lemma_succ_down(tree.nodes@, Some(tree.root), None, x);
            }
            return Some(BstNode::leftmost_below(tree, rc, Ghost(*t.sub(x)->right), Ghost(Some(x))));
        }
        let mut c = x;
        loop
            invariant
                t == tree.model(),
                tree.wf(),
                t.ids().contains(c),
                t.sub(c).ids().contains(x),
                t.sub(c).succ(x) is None,
            decreases t.depth(c),
        {
            proof {
                t.lemma_succ_up(tree.nodes@, Some(tree.root), None, x, c);
                t.lemma_parent(tree.nodes@, Some(tree.root), None, c);
            }
            match tree.nodes[c].parent {
                None => {
                    return None;
                },
                Some(q) => {
                    if tree.nodes[q].left == Some(c) {
                        return Some(q);
                    }
                    c = q;
                },
            }
        }
    }

    /// The same answer as `tree_successor`, by the other form of the upward
    /// walk: climb while the node is its parent's right child.
    pub fn tree_successor_simpler(tree: &BstTree, x: BstNodeLink) -> (r: Option<BstNodeLink>)
        requires
            tree.wf(),
            tree.model().ids().contains(x),
        ensures
            r == tree.model().succ(x),
    {
        let ghost t = tree.model();
        proof {
            t.lemma_sub(tree.nodes@, Some(tree.root), None, x);
            t.sub(x)->right.lemma_link(tree.nodes@, tree.nodes@[x as int].right, Some(x));
            t.lemma_link(tree.nodes@, Some(tree.root), None);
        }
        let right = tree.nodes[x].right;
        proof {
            if let Some(rc) = right {
                assert(t.sub(x)->right.ids().contains(rc));
            }
        }
        if !BstNode::is_nil(tree, right) {
            proof {
                t.lemma_succ_down(tree.nodes@, Some(tree.root), None, x);
            }
            return Some(
                BstNode::leftmost_below(tree, right.unwrap(), Ghost(*t.sub(x)->right), Ghost(Some(x))),
            );
        }
        proof {
            if let Some(rc) = right {
                t.lemma_sub(tree.nodes@, Some(tree.root), None, rc);
            }
        }
        let mut c = x;
        let mut y = tree.nodes[x].parent;
        proof {
            t.lemma_succ_up(tree.nodes@, Some(tree.root), None, x, c);
        }
        while y.is_some() && BstNode::is_node_match_option(Some(c), tree.nodes[y.unwrap()].right)
            invariant
                t == tree.model(),
                tree.wf(),
                t.ids().contains(c),
                t.sub(c).ids().contains(x),
                t.sub(c).succ(x) is None,
                c < tree.nodes.len(),
                y == tree.nodes@[c as int].parent,
                y matches Some(q) ==> q < tree.nodes.len(),
            decreases t.depth(c),
        {
            proof {
                t.lemma_succ_up(tree.nodes@, Some(tree.root), None, x, c);
                t.lemma_children_differ(tree.nodes@, Some(tree.root), None, y->0);
            }
            c = y.unwrap();
            y = tree.nodes[c].parent;
            proof {
                t.lemma_parent(tree.nodes@, Some(tree.root), None, c);
            }
        }
        proof {
            t.lemma_succ_up(tree.nodes@, Some(tree.root), None, x, c);
            t.lemma_parent(tree.nodes@, Some(tree.root), None, c);
        }
        y
    }
}

} // verus!
