use vstd::prelude::*;
use vstd::multiset::Multiset;
use crate::node::{BstNode, BstNodeLink};

verus! {

broadcast use vstd::multiset::group_multiset_axioms;

/// The tree that an arena holds, as a mathematical value: each node carries
/// the index of its arena slot and its key.
pub enum Shape {
    Nil,
    Node { left: Box<Shape>, id: BstNodeLink, key: i32, right: Box<Shape> },
}

/// `n2` has every slot of `s`, with the same content as in `n1`.
pub open spec fn same_on(n1: Seq<BstNode>, n2: Seq<BstNode>, s: Set<BstNodeLink>) -> bool {
    forall|i: BstNodeLink| #[trigger]
        s.contains(i) ==> i < n2.len() && n2[i as int] == n1[i as int]
}

impl Shape {
    pub open spec fn height(self) -> nat
        decreases self,
    {
        match self {
            Shape::Nil => 0,
            Shape::Node { left, right, .. } => 1 + vstd::math::max(
                left.height() as int,
                right.height() as int,
            ) as nat,
        }
    }

    /// The arena slots that the tree occupies.
    pub open spec fn ids(self) -> Set<BstNodeLink>
        decreases self,
    {
        match self {
            Shape::Nil => Set::empty(),
            Shape::Node { left, id, right, .. } => left.ids().union(right.ids()).insert(id),
        }
    }

    /// The keys that the tree holds, with their multiplicity.
    pub open spec fn keys(self) -> Multiset<i32>
        decreases self,
    {
        match self {
            Shape::Nil => Multiset::empty(),
            Shape::Node { left, key, right, .. } => left.keys().add(right.keys()).insert(key),
        }
    }

    /// The keys in in-order (left, node, right).
    pub open spec fn inorder(self) -> Seq<i32>
        decreases self,
    {
        match self {
            Shape::Nil => Seq::empty(),
            Shape::Node { left, key, right, .. } => left.inorder() + seq![key] + right.inorder(),
        }
    }

    /// Search-tree order: smaller keys to the left, equal or greater to the right.
    pub open spec fn is_bst(self) -> bool
        decreases self,
    {
        match self {
            Shape::Nil => true,
            Shape::Node { left, key, right, .. } => {
                &&& left.is_bst()
                &&& right.is_bst()
                &&& forall|x: i32| left.keys().contains(x) ==> x < key
                &&& forall|x: i32| right.keys().contains(x) ==> key <= x
            },
        }
    }

    /// The link to the tree's top node.
    pub open spec fn top(self) -> Option<BstNodeLink> {
        match self {
            Shape::Nil => None,
            Shape::Node { id, .. } => Some(id),
        }
    }

    /// `nodes`, reached through `link` from a node whose index is `parent`,
    /// holds exactly this tree: keys, child links and parent links agree, and
    /// no slot is used twice.
    pub open spec fn realized(
        self,
        nodes: Seq<BstNode>,
        link: Option<BstNodeLink>,
        parent: Option<BstNodeLink>,
    ) -> bool
        decreases self,
    {
        match self {
            Shape::Nil => link is None,
            Shape::Node { left, id, key, right } => {
                &&& link == Some(id)
                &&& id < nodes.len()
                &&& nodes[id as int].key == Some(key)
                &&& nodes[id as int].parent == parent
                &&& left.realized(nodes, nodes[id as int].left, Some(id))
                &&& right.realized(nodes, nodes[id as int].right, Some(id))
                &&& !left.ids().contains(id)
                &&& !right.ids().contains(id)
                &&& left.ids().disjoint(right.ids())
            },
        }
    }

    /// The node that a search for `k` stops at, going left on smaller keys and
    /// right otherwise.
    pub open spec fn find(self, k: i32) -> Option<BstNodeLink>
        decreases self,
    {
        match self {
            Shape::Nil => None,
            Shape::Node { left, id, key, right } => {
                if k == key {
                    Some(id)
                } else if k < key {
                    left.find(k)
                } else {
                    right.find(k)
                }
            },
        }
    }

    /// The subtree whose top node is `x`.
    pub open spec fn sub(self, x: BstNodeLink) -> Shape
        decreases self,
    {
        match self {
            Shape::Nil => Shape::Nil,
            Shape::Node { left, id, right, .. } => {
                if x == id {
                    self
                } else if left.ids().contains(x) {
                    left.sub(x)
                } else {
                    right.sub(x)
                }
            },
        }
    }

    /// The key held by node `x`.
    pub open spec fn key_of(self, x: BstNodeLink) -> i32 {
        match self.sub(x) {
            Shape::Nil => 0,
            Shape::Node { key, .. } => key,
        }
    }

    /// The leftmost node.
    pub open spec fn leftmost(self) -> BstNodeLink
        decreases self,
    {
        match self {
            Shape::Nil => 0,
            Shape::Node { left, id, .. } => if *left is Nil {
                id
            } else {
                left.leftmost()
            },
        }
    }

    /// The rightmost node.
    pub open spec fn rightmost(self) -> BstNodeLink
        decreases self,
    {
        match self {
            Shape::Nil => 0,
            Shape::Node { id, right, .. } => if *right is Nil {
                id
            } else {
                right.rightmost()
            },
        }
    }

    /// A realized tree stays realized when the slots it occupies are unchanged.
    pub proof fn lemma_frame(
        self,
        n1: Seq<BstNode>,
        n2: Seq<BstNode>,
        link: Option<BstNodeLink>,
        parent: Option<BstNodeLink>,
    )
        requires
            self.realized(n1, link, parent),
            same_on(n1, n2, self.ids()),
        ensures
            self.realized(n2, link, parent),
        decreases self,
    {
        match self {
            Shape::Nil => {},
            Shape::Node { left, id, key, right } => {
                assert(self.ids().contains(id));
                assert forall|i: BstNodeLink| #[trigger]
                    left.ids().contains(i) implies self.ids().contains(i) by {}
                assert forall|i: BstNodeLink| #[trigger]
                    right.ids().contains(i) implies self.ids().contains(i) by {}
                assert(same_on(n1, n2, left.ids()));
                assert(same_on(n1, n2, right.ids()));
                left.lemma_frame(n1, n2, n1[id as int].left, Some(id));
                right.lemma_frame(n1, n2, n1[id as int].right, Some(id));
            },
        }
    }

    /// Every node of a realized tree tops a realized subtree of it.
    pub proof fn lemma_sub(
        self,
        nodes: Seq<BstNode>,
        link: Option<BstNodeLink>,
        parent: Option<BstNodeLink>,
        x: BstNodeLink,
    )
        requires
            self.realized(nodes, link, parent),
            self.ids().contains(x),
        ensures
            self.sub(x).realized(nodes, Some(x), nodes[x as int].parent),
            self.sub(x).top() == Some(x),
            self.sub(x).ids().subset_of(self.ids()),
            self.is_bst() ==> self.sub(x).is_bst(),
            forall|v: i32| self.sub(x).keys().contains(v) ==> self.keys().contains(v),
            nodes[x as int].key == Some(self.key_of(x)),
            self.keys().contains(self.key_of(x)),
            forall|y: BstNodeLink| #[trigger]
                self.sub(x).ids().contains(y) ==> self.depth(y) >= self.depth(x),
        decreases self,
    {
        match self {
            Shape::Nil => {},
            Shape::Node { left, id, key, right } => {
                self.lemma_keys_parts();
                if x == id {
                } else if left.ids().contains(x) {
                    left.lemma_sub(nodes, nodes[id as int].left, Some(id), x);
                    assert(self.sub(x) == left.sub(x));
                    assert forall|y: BstNodeLink| #[trigger]
                        self.sub(x).ids().contains(y) implies self.depth(y) >= self.depth(x) by {
                        assert(left.ids().contains(y));
                    }
                } else {
                    right.lemma_sub(nodes, nodes[id as int].right, Some(id), x);
                    assert(self.sub(x) == right.sub(x));
                    assert forall|y: BstNodeLink| #[trigger]
                        self.sub(x).ids().contains(y) implies self.depth(y) >= self.depth(x) by {
                        assert(right.ids().contains(y));
                        assert(!left.ids().contains(y));
                    }
                }
            },
        }
    }

    /// On a search tree, a search finds `k` exactly when the tree holds it.
    pub proof fn lemma_find(self, k: i32)
        requires
            self.is_bst(),
        ensures
            self.find(k) is Some <==> self.keys().contains(k),
            self.find(k) is Some ==> self.ids().contains(self.find(k)->0),
        decreases self,
    {
        match self {
            Shape::Nil => {},
            Shape::Node { left, id, key, right } => {
                left.lemma_find(k);
                right.lemma_find(k);
            },
        }
    }

    /// The key of the leftmost node.
    pub open spec fn leftmost_key(self) -> i32
        decreases self,
    {
        match self {
            Shape::Nil => 0,
            Shape::Node { left, key, .. } => if *left is Nil {
                key
            } else {
                left.leftmost_key()
            },
        }
    }

    /// The key of the rightmost node.
    pub open spec fn rightmost_key(self) -> i32
        decreases self,
    {
        match self {
            Shape::Nil => 0,
            Shape::Node { key, right, .. } => if *right is Nil {
                key
            } else {
                right.rightmost_key()
            },
        }
    }

    /// The keys of a node are its own and those of its two subtrees.
    pub proof fn lemma_keys_parts(self)
        requires
            self is Node,
        ensures
            forall|v: i32| #[trigger]
                self.keys().contains(v) <==> (v == self->key || self->left.keys().contains(v)
                    || self->right.keys().contains(v)),
    {
        let l = self->left.keys();
        let r = self->right.keys();
        assert forall|v: i32| #[trigger]
            self.keys().contains(v) <==> (v == self->key || l.contains(v) || r.contains(v)) by {
            assert(l.add(r).count(v) == l.count(v) + r.count(v));
        }
    }

    /// The leftmost node of a realized search tree holds its smallest key and
    /// has no left child.
    pub proof fn lemma_leftmost(
        self,
        nodes: Seq<BstNode>,
        link: Option<BstNodeLink>,
        parent: Option<BstNodeLink>,
    )
        requires
            self.realized(nodes, link, parent),
            self.is_bst(),
            self is Node,
        ensures
            self.ids().contains(self.leftmost()),
            self.leftmost() < nodes.len(),
            nodes[self.leftmost() as int].key == Some(self.leftmost_key()),
            nodes[self.leftmost() as int].left is None,
            self.keys().contains(self.leftmost_key()),
            forall|v: i32| self.keys().contains(v) ==> self.leftmost_key() <= v,
        decreases self,
    {
        match self {
            Shape::Nil => {},
            Shape::Node { left, id, key, right } => {
                self.lemma_keys_parts();
                if !(*left is Nil) {
                    left.lemma_leftmost(nodes, nodes[id as int].left, Some(id));
                    left.lemma_keys_parts();
                } else {
                    assert(left.realized(nodes, nodes[id as int].left, Some(id)));
                }
            },
        }
    }

    /// The rightmost node of a realized search tree holds its largest key and
    /// has no right child.
    pub proof fn lemma_rightmost(
        self,
        nodes: Seq<BstNode>,
        link: Option<BstNodeLink>,
        parent: Option<BstNodeLink>,
    )
        requires
            self.realized(nodes, link, parent),
            self.is_bst(),
            self is Node,
        ensures
            self.ids().contains(self.rightmost()),
            self.rightmost() < nodes.len(),
            nodes[self.rightmost() as int].key == Some(self.rightmost_key()),
            nodes[self.rightmost() as int].right is None,
            self.keys().contains(self.rightmost_key()),
            forall|v: i32| self.keys().contains(v) ==> v <= self.rightmost_key(),
        decreases self,
    {
        match self {
            Shape::Nil => {},
            Shape::Node { left, id, key, right } => {
                self.lemma_keys_parts();
                if !(*right is Nil) {
                    right.lemma_rightmost(nodes, nodes[id as int].right, Some(id));
                    right.lemma_keys_parts();
                } else {
                    assert(right.realized(nodes, nodes[id as int].right, Some(id)));
                }
            },
        }
    }

    /// How many links lie between the top node and node `x`.
    pub open spec fn depth(self, x: BstNodeLink) -> nat
        decreases self,
    {
        match self {
            Shape::Nil => 0,
            Shape::Node { left, id, right, .. } => {
                if x == id {
                    0
                } else if left.ids().contains(x) {
                    1 + left.depth(x)
                } else {
                    1 + right.depth(x)
                }
            },
        }
    }

    /// The parent link of a node leads one step closer to the top, to a node
    /// that has it as a child; the top node's parent link is the one given.
    pub proof fn lemma_parent(
        self,
        nodes: Seq<BstNode>,
        link: Option<BstNodeLink>,
        parent: Option<BstNodeLink>,
        x: BstNodeLink,
    )
        requires
            self.realized(nodes, link, parent),
            self.ids().contains(x),
        ensures
            x < nodes.len(),
            self.depth(x) == 0 ==> link == Some(x) && nodes[x as int].parent == parent,
            self.depth(x) > 0 ==> ({
                let q = nodes[x as int].parent->0;
                &&& nodes[x as int].parent is Some
                &&& self.ids().contains(q)
                &&& q < nodes.len()
                &&& self.depth(q) + 1 == self.depth(x)
                &&& (nodes[q as int].left == Some(x) || nodes[q as int].right == Some(x))
            }),
        decreases self,
    {
        match self {
            Shape::Nil => {},
            Shape::Node { left, id, key, right } => {
                if x != id {
                    if left.ids().contains(x) {
                        left.lemma_parent(nodes, nodes[id as int].left, Some(id), x);
                        let q = nodes[x as int].parent->0;
                        if left.depth(x) > 0 {
                            assert(q != id);
                            assert(self.ids().contains(q));
                        }
                    } else {
                        right.lemma_parent(nodes, nodes[id as int].right, Some(id), x);
                        let q = nodes[x as int].parent->0;
                        if right.depth(x) > 0 {
                            assert(q != id);
                            assert(!left.ids().contains(q));
                            assert(self.ids().contains(q));
                        }
                    }
                }
            },
        }
    }

    /// A search that returns a node returns one of this tree, holding the key.
    pub proof fn lemma_find_node(
        self,
        nodes: Seq<BstNode>,
        link: Option<BstNodeLink>,
        parent: Option<BstNodeLink>,
        k: i32,
    )
        requires
            self.realized(nodes, link, parent),
        ensures
            self.find(k) is Some ==> {
                let i = self.find(k)->0;
                &&& self.ids().contains(i)
                &&& i < nodes.len()
                &&& nodes[i as int].key == Some(k)
            },
        decreases self,
    {
        match self {
            Shape::Nil => {},
            Shape::Node { left, id, key, right } => {
                left.lemma_find_node(nodes, nodes[id as int].left, Some(id), k);
                right.lemma_find_node(nodes, nodes[id as int].right, Some(id), k);
            },
        }
    }

    /// The link to a realized tree is the link to its top node, and every
    /// slot that it occupies lies in the arena.
    pub proof fn lemma_link(
        self,
        nodes: Seq<BstNode>,
        link: Option<BstNodeLink>,
        parent: Option<BstNodeLink>,
    )
        requires
            self.realized(nodes, link, parent),
        ensures
            link == self.top(),
            link is None <==> self is Nil,
            forall|i: BstNodeLink| #[trigger] self.ids().contains(i) ==> i < nodes.len(),
    {
        assert forall|i: BstNodeLink| #[trigger] self.ids().contains(i) implies i < nodes.len() by {
            self.lemma_parent(nodes, link, parent, i);
        }
    }

    /// The tree after a leaf in slot `n` with key `k` is hung below the node
    /// where the search for `k` runs out: smaller keys go left, others right.
    pub open spec fn ins(self, n: BstNodeLink, k: i32) -> Shape
        decreases self,
    {
        match self {
            Shape::Nil => Shape::Node {
                left: Box::new(Shape::Nil),
                id: n,
                key: k,
                right: Box::new(Shape::Nil),
            },
            Shape::Node { left, id, key, right } => {
                if k < key {
                    Shape::Node { left: Box::new(left.ins(n, k)), id, key, right }
                } else {
                    Shape::Node { left, id, key, right: Box::new(right.ins(n, k)) }
                }
            },
        }
    }

    /// The node that a new key `k` is hung below.
    pub open spec fn ins_parent(self, k: i32) -> BstNodeLink
        decreases self,
    {
        match self {
            Shape::Nil => 0,
            Shape::Node { left, id, key, right } => {
                if k < key {
                    if *left is Nil {
                        id
                    } else {
                        left.ins_parent(k)
                    }
                } else {
                    if *right is Nil {
                        id
                    } else {
                        right.ins_parent(k)
                    }
                }
            },
        }
    }

    /// The node that a new key is hung below belongs to the tree.
    pub proof fn lemma_ins_parent(self, k: i32)
        requires
            self is Node,
        ensures
            self.ids().contains(self.ins_parent(k)),
        decreases self,
    {
        match self {
            Shape::Nil => {},
            Shape::Node { left, id, key, right } => {
                if k < key {
                    if !(*left is Nil) {
                        left.lemma_ins_parent(k);
                    }
                } else {
                    if !(*right is Nil) {
                        right.lemma_ins_parent(k);
                    }
                }
            },
        }
    }

    /// Linking a fresh leaf below the node that `ins_parent` names, and
    /// nothing else, realizes the tree with the key added.
    pub proof fn lemma_ins(
        self,
        nodes: Seq<BstNode>,
        nodes2: Seq<BstNode>,
        link: Option<BstNodeLink>,
        parent: Option<BstNodeLink>,
        n: BstNodeLink,
        k: i32,
    )
        requires
            self.realized(nodes, link, parent),
            self is Node,
            !self.ids().contains(n),
            n < nodes2.len(),
            nodes2[n as int] == BstNode::leaf(k, Some(self.ins_parent(k))),
            self.ins_parent(k) < nodes2.len(),
            self.ins_parent(k) < nodes.len(),
            nodes2[self.ins_parent(k) as int] == (if k < nodes[self.ins_parent(k) as int].key->0 {
                BstNode { left: Some(n), ..nodes[self.ins_parent(k) as int] }
            } else {
                BstNode { right: Some(n), ..nodes[self.ins_parent(k) as int] }
            }),
            same_on(nodes, nodes2, self.ids().remove(self.ins_parent(k))),
        ensures
            self.ids().contains(self.ins_parent(k)),
            self.ins(n, k).realized(nodes2, link, parent),
            self.ins(n, k).ids() == self.ids().insert(n),
            self.ins(n, k).keys() == self.keys().insert(k),
            self.is_bst() ==> self.ins(n, k).is_bst(),
        decreases self,
    {
        match self {
            Shape::Nil => {},
            Shape::Node { left, id, key, right } => {
                let y = self.ins_parent(k);
                assert(self.ids().contains(id));
                self.lemma_link(nodes, link, parent);
                left.lemma_link(nodes, nodes[id as int].left, Some(id));
                right.lemma_link(nodes, nodes[id as int].right, Some(id));
                let leaf = Shape::Node {
                    left: Box::new(Shape::Nil),
                    id: n,
                    key: k,
                    right: Box::new(Shape::Nil),
                };
                assert(leaf->left.ids() == Set::<BstNodeLink>::empty());
                assert(leaf->left.keys() == Multiset::<i32>::empty());
                assert(leaf.ids() =~= set![n]);
                assert(leaf.keys() =~= Multiset::empty().insert(k));
                assert(leaf->left.is_bst());
                assert(leaf->right.is_bst());
                assert(leaf.is_bst());
                if k < key {
                    if !(*left is Nil) {
                        left.lemma_ins_parent(k);
                        assert forall|i: BstNodeLink| #[trigger]
                            left.ids().remove(y).contains(i) implies self.ids().remove(y).contains(i) by {}
                        assert(same_on(nodes, nodes2, left.ids().remove(y)));
                    }
                    assert forall|i: BstNodeLink| #[trigger]
                        right.ids().contains(i) implies self.ids().remove(y).contains(i) by {}
                    right.lemma_frame(nodes, nodes2, nodes[id as int].right, Some(id));
                    if *left is Nil {
                        assert(y == id);
                        assert(nodes2[n as int] == BstNode::leaf(k, Some(id)));
                        assert(leaf->left.realized(nodes2, None, Some(n)));
                        assert(leaf->right.realized(nodes2, None, Some(n)));
                        assert(leaf.realized(nodes2, Some(n), Some(id)));
                    } else {
                        assert(y == left.ins_parent(k));
                        left.lemma_ins(nodes, nodes2, nodes[id as int].left, Some(id), n, k);
                        assert(y != id);
                    }
                    let l2 = left.ins(n, k);
                    assert(l2.ids() =~= left.ids().insert(n));
                    assert(self.ins(n, k).ids() =~= self.ids().insert(n));
                    assert(self.ins(n, k).keys() =~= self.keys().insert(k));
                    assert(l2.keys() =~= left.keys().insert(k));
                    if self.is_bst() {
                        assert forall|x: i32| #[trigger] l2.keys().contains(x) implies x < key by {
                            if x != k {
                                assert(left.keys().contains(x));
                            }
                        }
                        assert(self.ins(n, k)->left == l2);
                    }
                } else {
                    if !(*right is Nil) {
                        right.lemma_ins_parent(k);
                        assert forall|i: BstNodeLink| #[trigger]
                            right.ids().remove(y).contains(i) implies self.ids().remove(y).contains(i) by {}
                        assert(same_on(nodes, nodes2, right.ids().remove(y)));
                    }
                    assert forall|i: BstNodeLink| #[trigger]
                        left.ids().contains(i) implies self.ids().remove(y).contains(i) by {}
                    left.lemma_frame(nodes, nodes2, nodes[id as int].left, Some(id));
                    if *right is Nil {
                        assert(y == id);
                        assert(nodes2[n as int] == BstNode::leaf(k, Some(id)));
                        assert(leaf->left.realized(nodes2, None, Some(n)));
                        assert(leaf->right.realized(nodes2, None, Some(n)));
                        assert(leaf.realized(nodes2, Some(n), Some(id)));
                    } else {
                        assert(y == right.ins_parent(k));
                        right.lemma_ins(nodes, nodes2, nodes[id as int].right, Some(id), n, k);
                        assert(y != id);
                    }
                    let r2 = right.ins(n, k);
                    assert(r2.ids() =~= right.ids().insert(n));
                    assert(self.ins(n, k).ids() =~= self.ids().insert(n));
                    assert(self.ins(n, k).keys() =~= self.keys().insert(k));
                    assert(r2.keys() =~= right.keys().insert(k));
                    if self.is_bst() {
                        assert forall|x: i32| #[trigger] r2.keys().contains(x) implies key <= x by {
                            if x != k {
                                assert(right.keys().contains(x));
                            }
                        }
                        assert(self.ins(n, k)->right == r2);
                    }
                }
            },
        }
    }

    /// The tree with the subtree topped by `z` replaced by `t2`.
    pub open spec fn replace(self, z: BstNodeLink, t2: Shape) -> Shape
        decreases self,
    {
        match self {
            Shape::Nil => Shape::Nil,
            Shape::Node { left, id, key, right } => {
                if z == id {
                    t2
                } else if left.ids().contains(z) {
                    Shape::Node { left: Box::new(left.replace(z, t2)), id, key, right }
                } else if right.ids().contains(z) {
                    Shape::Node { left, id, key, right: Box::new(right.replace(z, t2)) }
                } else {
                    self
                }
            },
        }
    }

    /// The tree without its top node: a missing child lets the other take its
    /// place; with two children, the leftmost node of the right subtree is
    /// lifted to the top and its own right subtree takes its former place.
    pub open spec fn del_top(self) -> Shape {
        match self {
            Shape::Nil => Shape::Nil,
            Shape::Node { left, right, .. } => {
                if *left is Nil {
                    *right
                } else if *right is Nil {
                    *left
                } else {
                    let s = right.leftmost();
                    Shape::Node {
                        left,
                        id: s,
                        key: right.leftmost_key(),
                        right: Box::new(right.replace(s, *right.sub(s)->right)),
                    }
                }
            },
        }
    }

    /// The tree without node `z`.
    pub open spec fn del(self, z: BstNodeLink) -> Shape {
        self.replace(z, self.sub(z).del_top())
    }

    /// What replacing a subtree does to keys, slots and search order.
    pub proof fn lemma_replace_facts(
        self,
        nodes: Seq<BstNode>,
        link: Option<BstNodeLink>,
        parent: Option<BstNodeLink>,
        z: BstNodeLink,
        t2: Shape,
    )
        requires
            self.realized(nodes, link, parent),
            self.ids().contains(z),
        ensures
            self.replace(z, t2).keys().add(self.sub(z).keys()) =~= self.keys().add(t2.keys()),
            self.replace(z, t2).ids().subset_of(
                self.ids().difference(self.sub(z).ids()).union(t2.ids()),
            ),
            self.is_bst() && t2.is_bst() && (forall|x: i32|
                #[trigger] t2.keys().contains(x) ==> self.sub(z).keys().contains(x))
                ==> self.replace(z, t2).is_bst(),
        decreases self,
    {
        match self {
            Shape::Nil => {},
            Shape::Node { left, id, key, right } => {
                self.lemma_sub(nodes, link, parent, z);
                if z == id {
                    assert(self.replace(z, t2).keys().add(self.sub(z).keys()) =~= self.keys().add(t2.keys()));
                } else if left.ids().contains(z) {
                    left.lemma_replace_facts(nodes, nodes[id as int].left, Some(id), z, t2);
                    left.lemma_sub(nodes, nodes[id as int].left, Some(id), z);
                    let l2 = left.replace(z, t2);
                    assert(self.sub(z) == left.sub(z));
                    let sk = self.sub(z).keys();
                    assert forall|v: i32| #[trigger] self.replace(z, t2).keys().add(sk).count(v) == self.keys().add(t2.keys()).count(v) by {
                        assert(l2.keys().add(sk).count(v) == left.keys().add(t2.keys()).count(v));
                    }
                    assert(self.replace(z, t2).keys() =~= l2.keys().add(right.keys()).insert(key));
                    if self.is_bst() && t2.is_bst() && (forall|x: i32|
                        #[trigger] t2.keys().contains(x) ==> self.sub(z).keys().contains(x)) {
                        assert forall|x: i32| #[trigger] l2.keys().contains(x) implies x < key by {
                            assert(l2.keys().add(self.sub(z).keys()).contains(x));
                            assert(left.keys().add(t2.keys()).contains(x));
                            if t2.keys().contains(x) {
                                assert(self.sub(z).keys().contains(x));
                            }
                            assert(left.keys().contains(x));
                        }
                    }
                } else {
                    right.lemma_replace_facts(nodes, nodes[id as int].right, Some(id), z, t2);
                    right.lemma_sub(nodes, nodes[id as int].right, Some(id), z);
                    let r2 = right.replace(z, t2);
                    assert(self.sub(z) == right.sub(z));
                    let sk = self.sub(z).keys();
                    assert forall|v: i32| #[trigger] self.replace(z, t2).keys().add(sk).count(v) == self.keys().add(t2.keys()).count(v) by {
                        assert(r2.keys().add(sk).count(v) == right.keys().add(t2.keys()).count(v));
                    }
                    assert(self.replace(z, t2).keys() =~= left.keys().add(r2.keys()).insert(key));
                    if self.is_bst() && t2.is_bst() && (forall|x: i32|
                        #[trigger] t2.keys().contains(x) ==> self.sub(z).keys().contains(x)) {
                        assert forall|x: i32| #[trigger] r2.keys().contains(x) implies key <= x by {
                            assert(r2.keys().add(self.sub(z).keys()).contains(x));
                            assert(right.keys().add(t2.keys()).contains(x));
                            if t2.keys().contains(x) {
                                assert(self.sub(z).keys().contains(x));
                            }
                            assert(right.keys().contains(x));
                        }
                    }
                }
            },
        }
    }

    /// Changing only the parent link of the top node moves a realized tree
    /// under another parent.
    pub proof fn lemma_reparent(
        self,
        n1: Seq<BstNode>,
        n2: Seq<BstNode>,
        x: BstNodeLink,
        par: Option<BstNodeLink>,
        par2: Option<BstNodeLink>,
    )
        requires
            self.realized(n1, Some(x), par),
            x < n2.len(),
            n2[x as int] == (BstNode { parent: par2, ..n1[x as int] }),
            same_on(n1, n2, self.ids().remove(x)),
        ensures
            self.realized(n2, Some(x), par2),
    {
        match self {
            Shape::Nil => {},
            Shape::Node { left, id, key, right } => {
                assert forall|i: BstNodeLink| #[trigger]
                    left.ids().contains(i) implies self.ids().remove(x).contains(i) by {}
                assert forall|i: BstNodeLink| #[trigger]
                    right.ids().contains(i) implies self.ids().remove(x).contains(i) by {}
                assert(same_on(n1, n2, left.ids()));
                assert(same_on(n1, n2, right.ids()));
                left.lemma_frame(n1, n2, n1[id as int].left, Some(id));
                right.lemma_frame(n1, n2, n1[id as int].right, Some(id));
            },
        }
    }

    /// Hanging `t2` where `z` hung, and changing nothing outside the old
    /// subtree of `z` but that one child link, realizes the replaced tree.
    pub proof fn lemma_replace(
        self,
        nodes: Seq<BstNode>,
        nodes2: Seq<BstNode>,
        link: Option<BstNodeLink>,
        parent: Option<BstNodeLink>,
        z: BstNodeLink,
        t2: Shape,
    )
        requires
            self.realized(nodes, link, parent),
            self.ids().contains(z),
            link != Some(z),
            nodes[z as int].parent is Some,
            ({
                let p = nodes[z as int].parent->0;
                &&& p < nodes.len()
                &&& p < nodes2.len()
                &&& nodes2[p as int] == (if nodes[p as int].left == Some(z) {
                    BstNode { left: t2.top(), ..nodes[p as int] }
                } else {
                    BstNode { right: t2.top(), ..nodes[p as int] }
                })
                &&& t2.realized(nodes2, t2.top(), Some(p))
                &&& same_on(nodes, nodes2, self.ids().difference(self.sub(z).ids()).remove(p))
            }),
            t2.ids().subset_of(self.sub(z).ids()),
        ensures
            self.replace(z, t2).realized(nodes2, link, parent),
        decreases self,
    {
        match self {
            Shape::Nil => {},
            Shape::Node { left, id, key, right } => {
                let p = nodes[z as int].parent->0;
                self.lemma_link(nodes, link, parent);
                self.lemma_sub(nodes, link, parent, z);
                self.lemma_parent(nodes, link, parent, z);
                self.lemma_replace_facts(nodes, link, parent, z, t2);
                assert(z != id);
                if left.ids().contains(z) {
                    left.lemma_link(nodes, nodes[id as int].left, Some(id));
                    left.lemma_sub(nodes, nodes[id as int].left, Some(id), z);
                    left.lemma_replace_facts(nodes, nodes[id as int].left, Some(id), z, t2);
                    assert(self.sub(z) == left.sub(z));
                    assert forall|i: BstNodeLink| #[trigger] right.ids().contains(i) implies
                        self.ids().difference(self.sub(z).ids()).remove(p).contains(i) by {
                        left.lemma_parent(nodes, nodes[id as int].left, Some(id), z);
                    }
                    right.lemma_frame(nodes, nodes2, nodes[id as int].right, Some(id));
                    if nodes[id as int].left == Some(z) {
                        assert(left->id == z);
                        assert(left.realized(nodes, Some(z), Some(id)));
                        assert(p == id);
                        assert(left.sub(z) == *left);
                    } else {
                        left.lemma_parent(nodes, nodes[id as int].left, Some(id), z);
                        assert(p != id);
                        assert(self.ids().difference(self.sub(z).ids()).remove(p).contains(id));
                        assert forall|i: BstNodeLink| #[trigger]
                            left.ids().difference(left.sub(z).ids()).remove(p).contains(i) implies
                            self.ids().difference(self.sub(z).ids()).remove(p).contains(i) by {}
                        left.lemma_replace(nodes, nodes2, nodes[id as int].left, Some(id), z, t2);
                    }
                } else {
                    right.lemma_link(nodes, nodes[id as int].right, Some(id));
                    right.lemma_sub(nodes, nodes[id as int].right, Some(id), z);
                    right.lemma_replace_facts(nodes, nodes[id as int].right, Some(id), z, t2);
                    assert(self.sub(z) == right.sub(z));
                    assert forall|i: BstNodeLink| #[trigger] left.ids().contains(i) implies
                        self.ids().difference(self.sub(z).ids()).remove(p).contains(i) by {
                        right.lemma_parent(nodes, nodes[id as int].right, Some(id), z);
                    }
                    left.lemma_frame(nodes, nodes2, nodes[id as int].left, Some(id));
                    if nodes[id as int].right == Some(z) {
                        assert(right->id == z);
                        assert(right.realized(nodes, Some(z), Some(id)));
                        assert(p == id);
                        assert(right.sub(z) == *right);
                        assert(nodes[id as int].left != Some(z));
                    } else {
                        right.lemma_parent(nodes, nodes[id as int].right, Some(id), z);
                        assert(p != id);
                        assert(self.ids().difference(self.sub(z).ids()).remove(p).contains(id));
                        assert forall|i: BstNodeLink| #[trigger]
                            right.ids().difference(right.sub(z).ids()).remove(p).contains(i) implies
                            self.ids().difference(self.sub(z).ids()).remove(p).contains(i) by {}
                        right.lemma_replace(nodes, nodes2, nodes[id as int].right, Some(id), z, t2);
                    }
                }
            },
        }
    }

    /// Removing the top node of a search tree removes one copy of its key and
    /// keeps search order.
    pub proof fn lemma_del_top(
        self,
        nodes: Seq<BstNode>,
        link: Option<BstNodeLink>,
        parent: Option<BstNodeLink>,
    )
        requires
            self.realized(nodes, link, parent),
            self.is_bst(),
            self is Node,
        ensures
            self.del_top().keys() =~= self.keys().remove(self->key),
            forall|x: i32| #[trigger] self.del_top().keys().contains(x) ==> self.keys().contains(x),
            self.del_top().is_bst(),
            self.del_top().ids().subset_of(self.ids().remove(self->id)),
    {
        let l = *self->left;
        let r = *self->right;
        let z = self->id;
        let kz = self->key;
        l.lemma_link(nodes, nodes[z as int].left, Some(z));
        r.lemma_link(nodes, nodes[z as int].right, Some(z));
        if l is Nil {
            assert(l.keys() == Multiset::<i32>::empty());
            assert(self.del_top().keys() =~= self.keys().remove(kz));
        } else if r is Nil {
            assert(r.keys() == Multiset::<i32>::empty());
            assert(self.del_top().keys() =~= self.keys().remove(kz));
        } else {
            let rr = nodes[z as int].right;
            r.lemma_leftmost(nodes, rr, Some(z));
            let s = r.leftmost();
            let ks = r.leftmost_key();
            r.lemma_sub(nodes, rr, Some(z), s);
            let sub = r.sub(s);
            let sr = *sub->right;
            sub->left.lemma_link(nodes, nodes[s as int].left, Some(s));
            assert(sub->key == ks);
            assert(sub->left.keys() == Multiset::<i32>::empty());
            r.lemma_replace_facts(nodes, rr, Some(z), s, sr);
            let r2 = r.replace(s, sr);
            assert(sub.keys() =~= sr.keys().insert(ks));
            assert(r2.keys().insert(ks) =~= r.keys()) by {
                assert forall|v: i32| #[trigger] r2.keys().insert(ks).count(v) == r.keys().count(v) by {
                    assert(r2.keys().add(sub.keys()).count(v) == r.keys().add(sr.keys()).count(v));
                }
            }
            assert forall|x: i32| #[trigger] sr.keys().contains(x) implies sub.keys().contains(x) by {}
            let d = self.del_top();
            assert(d == Shape::Node { left: Box::new(l), id: s, key: ks, right: Box::new(r2) });
            assert(d.keys() =~= self.keys().remove(kz));
            self.lemma_keys_parts();
            assert forall|x: i32| #[trigger] r2.keys().contains(x) implies ks <= x by {
                assert(r2.keys().insert(ks).contains(x));
                assert(r.keys().contains(x));
            }
            assert forall|x: i32| #[trigger] l.keys().contains(x) implies x < ks by {
                assert(r.keys().contains(ks));
            }
            assert(d.is_bst());
            assert forall|x: i32| #[trigger] d.keys().contains(x) implies self.keys().contains(x) by {
                assert(self.keys().remove(kz).contains(x));
            }
        }
    }

    /// Removing node `z` from a search tree removes one copy of its key and
    /// keeps search order.
    pub proof fn lemma_del(
        self,
        nodes: Seq<BstNode>,
        link: Option<BstNodeLink>,
        parent: Option<BstNodeLink>,
        z: BstNodeLink,
    )
        requires
            self.realized(nodes, link, parent),
            self.is_bst(),
            self.ids().contains(z),
        ensures
            self.del(z).keys() =~= self.keys().remove(self.key_of(z)),
            self.del(z).is_bst(),
            self.del(z).ids().subset_of(self.ids().remove(z)),
    {
        let sz = self.sub(z);
        self.lemma_sub(nodes, link, parent, z);
        sz.lemma_del_top(nodes, Some(z), nodes[z as int].parent);
        self.lemma_replace_facts(nodes, link, parent, z, sz.del_top());
        let a = self.del(z);
        let t2 = sz.del_top();
        let kz = self.key_of(z);
        assert(sz->key == kz);
        assert forall|v: i32| #[trigger] a.keys().count(v) == self.keys().remove(kz).count(v) by {
            assert(a.keys().add(sz.keys()).count(v) == self.keys().add(t2.keys()).count(v));
            assert(t2.keys().count(v) == sz.keys().remove(kz).count(v));
        }
        assert(sz.ids().contains(z));
    }

    /// The node after `x` in in-order, if any.
    pub open spec fn succ(self, x: BstNodeLink) -> Option<BstNodeLink>
        decreases self,
    {
        match self {
            Shape::Nil => None,
            Shape::Node { left, id, right, .. } => {
                if x == id {
                    if *right is Nil {
                        None
                    } else {
                        Some(right.leftmost())
                    }
                } else if left.ids().contains(x) {
                    match left.succ(x) {
                        Some(s) => Some(s),
                        None => Some(id),
                    }
                } else {
                    right.succ(x)
                }
            },
        }
    }

    /// A node with a right subtree is followed by that subtree's leftmost node.
    pub proof fn lemma_succ_down(
        self,
        nodes: Seq<BstNode>,
        link: Option<BstNodeLink>,
        parent: Option<BstNodeLink>,
        x: BstNodeLink,
    )
        requires
            self.realized(nodes, link, parent),
            self.ids().contains(x),
            !(*self.sub(x)->right is Nil),
        ensures
            self.succ(x) == Some(self.sub(x)->right.leftmost()),
        decreases self,
    {
        match self {
            Shape::Nil => {},
            Shape::Node { left, id, key, right } => {
                if x == id {
                } else if left.ids().contains(x) {
                    left.lemma_succ_down(nodes, nodes[id as int].left, Some(id), x);
                } else {
                    right.lemma_succ_down(nodes, nodes[id as int].right, Some(id), x);
                }
            },
        }
    }

    /// When `x` is last in the subtree of `c`, what follows `x` is decided at
    /// `c`'s parent: that parent itself if `c` is its left child, else the same
    /// question one level up; nothing if `c` is the top.
    pub proof fn lemma_succ_up(
        self,
        nodes: Seq<BstNode>,
        link: Option<BstNodeLink>,
        parent: Option<BstNodeLink>,
        x: BstNodeLink,
        c: BstNodeLink,
    )
        requires
            self.realized(nodes, link, parent),
            self.ids().contains(c),
            self.sub(c).ids().contains(x),
            self.sub(c).succ(x) is None,
        ensures
            link == Some(c) ==> self.succ(x) is None,
            link != Some(c) ==> ({
                let q = nodes[c as int].parent->0;
                &&& nodes[c as int].parent is Some
                &&& self.ids().contains(q)
                &&& q < nodes.len()
                &&& self.depth(q) < self.depth(c)
                &&& (nodes[q as int].left == Some(c) ==> self.succ(x) == Some(q))
                &&& (nodes[q as int].left != Some(c) ==> nodes[q as int].right == Some(c)
                    && self.sub(q).ids().contains(x) && self.sub(q).succ(x) is None)
            }),
        decreases self,
    {
        match self {
            Shape::Nil => {},
            Shape::Node { left, id, key, right } => {
                self.lemma_link(nodes, link, parent);
                self.lemma_parent(nodes, link, parent, c);
                self.lemma_sub(nodes, link, parent, c);
                if c == id {
                } else if left.ids().contains(c) {
                    let ll = nodes[id as int].left;
                    left.lemma_link(nodes, ll, Some(id));
                    left.lemma_sub(nodes, ll, Some(id), c);
                    assert(self.sub(c) == left.sub(c));
                    assert(left.ids().contains(x));
                    assert(x != id);
                    if ll == Some(c) {
                        assert(left.sub(c) == *left);
                        assert(left->id == c);
                        assert(left.realized(nodes, Some(c), Some(id)));
                    } else {
                        left.lemma_succ_up(nodes, ll, Some(id), x, c);
                        left.lemma_parent(nodes, ll, Some(id), c);
                        let q = nodes[c as int].parent->0;
                        assert(left.ids().contains(q));
                        assert(self.sub(q) == left.sub(q));
                    }
                } else {
                    let rl = nodes[id as int].right;
                    right.lemma_link(nodes, rl, Some(id));
                    right.lemma_sub(nodes, rl, Some(id), c);
                    assert(self.sub(c) == right.sub(c));
                    assert(right.ids().contains(x));
                    assert(x != id);
                    assert(!left.ids().contains(x));
                    if rl == Some(c) {
                        assert(right.sub(c) == *right);
                        assert(right->id == c);
                        assert(right.realized(nodes, Some(c), Some(id)));
                        left.lemma_link(nodes, nodes[id as int].left, Some(id));
                        assert(nodes[id as int].left != Some(c));
                    } else {
                        right.lemma_succ_up(nodes, rl, Some(id), x, c);
                        right.lemma_parent(nodes, rl, Some(id), c);
                        let q = nodes[c as int].parent->0;
                        assert(right.ids().contains(q));
                        assert(!left.ids().contains(q));
                        assert(self.sub(q) == right.sub(q));
                    }
                }
            },
        }
    }

    /// The two child links of a node never lead to the same node.
    pub proof fn lemma_children_differ(
        self,
        nodes: Seq<BstNode>,
        link: Option<BstNodeLink>,
        parent: Option<BstNodeLink>,
        q: BstNodeLink,
    )
        requires
            self.realized(nodes, link, parent),
            self.ids().contains(q),
        ensures
            nodes[q as int].left is Some ==> nodes[q as int].left != nodes[q as int].right,
    {
        self.lemma_sub(nodes, link, parent, q);
        let sq = self.sub(q);
        sq->left.lemma_link(nodes, nodes[q as int].left, Some(q));
        sq->right.lemma_link(nodes, nodes[q as int].right, Some(q));
        if let Some(a) = nodes[q as int].left {
            assert(sq->left.ids().contains(a));
        }
    }

    /// In a search tree the node after `x` holds the smallest key greater than
    /// `x`'s (or an equal one); a node with no successor holds the largest key.
    pub proof fn lemma_succ_key(
        self,
        nodes: Seq<BstNode>,
        link: Option<BstNodeLink>,
        parent: Option<BstNodeLink>,
        x: BstNodeLink,
    )
        requires
            self.realized(nodes, link, parent),
            self.is_bst(),
            self.ids().contains(x),
        ensures
            self.succ(x) matches Some(s) ==> {
                &&& self.ids().contains(s)
                &&& s != x
                &&& self.key_of(x) <= self.key_of(s)
                &&& forall|y: i32| #[trigger]
                    self.keys().contains(y) && self.key_of(x) < y ==> self.key_of(s) <= y
            },
            self.succ(x) is None ==> forall|y: i32| #[trigger]
                self.keys().contains(y) ==> y <= self.key_of(x),
        decreases self,
    {
        match self {
            Shape::Nil => {},
            Shape::Node { left, id, key, right } => {
                self.lemma_keys_parts();
                self.lemma_sub(nodes, link, parent, x);
                let ll = nodes[id as int].left;
                let rl = nodes[id as int].right;
                if x == id {
                    if !(*right is Nil) {
                        right.lemma_leftmost(nodes, rl, Some(id));
                        let s = right.leftmost();
                        assert(self.ids().contains(s));
                        assert(s != id);
                        self.lemma_sub(nodes, link, parent, s);
                    }
                } else if left.ids().contains(x) {
                    left.lemma_succ_key(nodes, ll, Some(id), x);
                    left.lemma_sub(nodes, ll, Some(id), x);
                    assert(self.key_of(x) == left.key_of(x));
                    match left.succ(x) {
                        Some(s) => {
                            left.lemma_sub(nodes, ll, Some(id), s);
                            assert(self.sub(s) == left.sub(s));
                            assert(self.key_of(s) == left.key_of(s));
                        },
                        None => {
                            assert(self.key_of(id) == key);
                        },
                    }
                } else {
                    right.lemma_succ_key(nodes, rl, Some(id), x);
                    right.lemma_sub(nodes, rl, Some(id), x);
                    assert(self.key_of(x) == right.key_of(x));
                    match right.succ(x) {
                        Some(s) => {
                            right.lemma_sub(nodes, rl, Some(id), s);
                            assert(!left.ids().contains(s));
                            assert(self.sub(s) == right.sub(s));
                            assert(self.key_of(s) == right.key_of(s));
                        },
                        None => {},
                    }
                }
            },
        }
    }

    /// The in-order keys are the keys of the tree.
    pub proof fn lemma_inorder_keys(self)
        ensures
            forall|i: int| 0 <= i < self.inorder().len() ==> #[trigger]
                self.keys().contains(self.inorder()[i]),
        decreases self,
    {
        match self {
            Shape::Nil => {},
            Shape::Node { left, key, right, .. } => {
                left.lemma_inorder_keys();
                right.lemma_inorder_keys();
                self.lemma_keys_parts();
                let a = left.inorder();
                let b = right.inorder();
                assert forall|i: int| 0 <= i < self.inorder().len() implies #[trigger]
                    self.keys().contains(self.inorder()[i]) by {
                    if i < a.len() {
                        assert(self.inorder()[i] == a[i]);
                    } else if i == a.len() {
                        assert(self.inorder()[i] == key);
                    } else {
                        assert(self.inorder()[i] == b[i - a.len() - 1]);
                    }
                }
            },
        }
    }

    /// The in-order keys of a search tree never decrease.
    pub proof fn lemma_inorder_sorted(self)
        requires
            self.is_bst(),
        ensures
            forall|i: int, j: int|
                0 <= i <= j < self.inorder().len() ==> self.inorder()[i] <= self.inorder()[j],
        decreases self,
    {
        match self {
            Shape::Nil => {},
            Shape::Node { left, key, right, .. } => {
                left.lemma_inorder_sorted();
                right.lemma_inorder_sorted();
                left.lemma_inorder_keys();
                right.lemma_inorder_keys();
                let a = left.inorder();
                let b = right.inorder();
                let s = self.inorder();
                assert forall|i: int, j: int| 0 <= i <= j < s.len() implies s[i] <= s[j] by {
                    let n = a.len() as int;
                    if i < n {
                        assert(s[i] == a[i]);
                        assert(left.keys().contains(a[i]));
                    } else if i == n {
                        assert(s[i] == key);
                    } else {
                        assert(s[i] == b[i - n - 1]);
                    }
                    if j < n {
                        assert(s[j] == a[j]);
                    } else if j == n {
                        assert(s[j] == key);
                    } else {
                        assert(s[j] == b[j - n - 1]);
                        assert(right.keys().contains(b[j - n - 1]));
                    }
                }
            },
        }
    }

    /// Two nodes holding the same key make that key occur twice.
    pub proof fn lemma_two_nodes_count(
        self,
        nodes: Seq<BstNode>,
        link: Option<BstNodeLink>,
        parent: Option<BstNodeLink>,
        x: BstNodeLink,
        y: BstNodeLink,
    )
        requires
            self.realized(nodes, link, parent),
            self.ids().contains(x),
            self.ids().contains(y),
            x != y,
            self.key_of(x) == self.key_of(y),
        ensures
            self.keys().count(self.key_of(x)) >= 2,
        decreases self,
    {
        match self {
            Shape::Nil => {},
            Shape::Node { left, id, key, right } => {
                let ll = nodes[id as int].left;
                let rl = nodes[id as int].right;
                let k = self.key_of(x);
                assert(self.keys().count(k) == left.keys().count(k) + right.keys().count(k) + (
                if k == key {
                    1int
                } else {
                    0
                }));
                if left.ids().contains(x) {
                    left.lemma_sub(nodes, ll, Some(id), x);
                    assert(self.key_of(x) == left.key_of(x));
                }
                if left.ids().contains(y) {
                    left.lemma_sub(nodes, ll, Some(id), y);
                    assert(self.key_of(y) == left.key_of(y));
                }
                if right.ids().contains(x) && x != id && !left.ids().contains(x) {
                    right.lemma_sub(nodes, rl, Some(id), x);
                    assert(self.key_of(x) == right.key_of(x));
                }
                if right.ids().contains(y) && y != id && !left.ids().contains(y) {
                    right.lemma_sub(nodes, rl, Some(id), y);
                    assert(self.key_of(y) == right.key_of(y));
                }
                if x != id && y != id {
                    if left.ids().contains(x) && left.ids().contains(y) {
                        left.lemma_two_nodes_count(nodes, ll, Some(id), x, y);
                    } else if !left.ids().contains(x) && !left.ids().contains(y) {
                        right.lemma_two_nodes_count(nodes, rl, Some(id), x, y);
                    }
                }
            },
        }
    }
}

} // verus!
