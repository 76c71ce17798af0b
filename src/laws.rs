//! What holds of every tree that the operations build.
use vstd::prelude::*;
use crate::node::BstNodeLink;
use crate::bst::BstTree;

verus! {

broadcast use vstd::multiset::group_multiset_axioms;

/// The keys of a tree, read in in-order, never decrease. Every tree that
/// `BstTree::new`, `tree_insert` and `tree_delete` produce satisfies `wf`.
pub proof fn law_in_order_sorted(tree: &BstTree)
    requires
        tree.wf(),
    ensures
        forall|i: int, j: int|
            0 <= i <= j < tree.model().inorder().len() ==> tree.model().inorder()[i]
                <= tree.model().inorder()[j],
{
    tree.model().lemma_inorder_sorted();
}

/// A search from the top finds `k` exactly when the tree holds it, and the
/// node found holds `k`.
pub proof fn law_search(tree: &BstTree, k: i32)
    requires
        tree.wf(),
    ensures
        tree.at(tree.root) == tree.model(),
        tree.model().find(k) is Some <==> tree.model().keys().contains(k),
        tree.model().find(k) matches Some(i) ==> tree.has_node(i) && i < tree.nodes.len()
            && tree.nodes@[i as int].key == Some(k),
{
    tree.model().lemma_find(k);
    if !(tree.model() is Nil) {
        tree.model().lemma_find_node(tree.nodes@, Some(tree.root), None, k);
    }
}

/// After a key is added, it and every key held before are found.
pub proof fn law_insert_then_search(before: &BstTree, after: &BstTree, k: i32)
    requires
        before.wf(),
        after.wf(),
        after.model().keys() == before.model().keys().insert(k),
    ensures
        after.model().find(k) is Some,
        forall|v: i32| #[trigger]
            before.model().keys().contains(v) ==> after.model().find(v) is Some,
{
    after.model().lemma_find(k);
    assert forall|v: i32| #[trigger] before.model().keys().contains(v) implies after.model().find(
        v,
    ) is Some by {
        after.model().lemma_find(v);
    }
}

/// The node that `minimum` returns holds the smallest key, and the one that
/// `maximum` returns the largest.
pub proof fn law_min_max(tree: &BstTree)
    requires
        tree.wf(),
        !(tree.model() is Nil),
    ensures
        tree.at(tree.root) == tree.model(),
        tree.model().keys().contains(tree.model().leftmost_key()),
        forall|v: i32| #[trigger]
            tree.model().keys().contains(v) ==> tree.model().leftmost_key() <= v,
        tree.model().keys().contains(tree.model().rightmost_key()),
        forall|v: i32| #[trigger]
            tree.model().keys().contains(v) ==> v <= tree.model().rightmost_key(),
{
    tree.model().lemma_leftmost(tree.nodes@, Some(tree.root), None);
    tree.model().lemma_rightmost(tree.nodes@, Some(tree.root), None);
}

/// The successor of `x` holds the smallest key greater than `x`'s (or one
/// equal to it, where keys repeat; never when `x`'s key occurs once); a node
/// without a successor holds the largest key.
pub proof fn law_successor(tree: &BstTree, x: BstNodeLink)
    requires
        tree.wf(),
        tree.model().ids().contains(x),
    ensures
        tree.model().succ(x) matches Some(s) ==> {
            &&& tree.model().ids().contains(s)
            &&& tree.model().key_of(x) <= tree.model().key_of(s)
            &&& forall|y: i32| #[trigger]
                tree.model().keys().contains(y) && tree.model().key_of(x) < y
                    ==> tree.model().key_of(s) <= y
        },
        tree.model().succ(x) is None ==> forall|y: i32| #[trigger]
            tree.model().keys().contains(y) ==> y <= tree.model().key_of(x),
        tree.model().keys().count(tree.model().key_of(x)) == 1 ==> (tree.model().succ(x) matches Some(
            s,
        ) ==> tree.model().key_of(x) < tree.model().key_of(s)),
        tree.nodes@[x as int].key == Some(tree.model().key_of(x)),
{
    let t = tree.model();
    t.lemma_succ_key(tree.nodes@, Some(tree.root), None, x);
    t.lemma_sub(tree.nodes@, Some(tree.root), None, x);
    if let Some(s) = t.succ(x) {
        if t.key_of(x) == t.key_of(s) {
            t.lemma_two_nodes_count(tree.nodes@, Some(tree.root), None, x, s);
        }
    }
}

/// After node `x` is removed, every other key is found as before, and its
/// key is found only if another copy of it remains.
pub proof fn law_delete_then_search(tree: &BstTree, x: BstNodeLink)
    requires
        tree.wf(),
        tree.model().ids().contains(x),
    ensures
        forall|v: i32| #[trigger]
            tree.model().del(x).find(v) is Some <==> (tree.model().find(v) is Some && v
                != tree.model().key_of(x)) || (v == tree.model().key_of(x)
                && tree.model().keys().count(v) > 1),
{
    let t = tree.model();
    let k = t.key_of(x);
    t.lemma_del(tree.nodes@, Some(tree.root), None, x);
    assert forall|v: i32| #[trigger]
        t.del(x).find(v) is Some <==> (t.find(v) is Some && v != k) || (v == k && t.keys().count(v)
            > 1) by {
        t.lemma_find(v);
        t.del(x).lemma_find(v);
    }
}

/// Every child link of a node of the tree leads to a node of the tree whose
/// parent link leads back; every node but the top has a parent that links to
/// it, and the top has none.
pub proof fn law_parent_consistency(tree: &BstTree, x: BstNodeLink)
    requires
        tree.wf(),
        tree.model().ids().contains(x),
    ensures
        tree.nodes@[x as int].left matches Some(c) ==> tree.model().ids().contains(c) && c
            < tree.nodes.len() && tree.nodes@[c as int].parent == Some(x),
        tree.nodes@[x as int].right matches Some(c) ==> tree.model().ids().contains(c) && c
            < tree.nodes.len() && tree.nodes@[c as int].parent == Some(x),
        x == tree.root <==> tree.nodes@[x as int].parent is None,
        tree.nodes@[x as int].parent matches Some(q) ==> tree.model().ids().contains(q) && q
            < tree.nodes.len() && (tree.nodes@[q as int].left == Some(x)
            || tree.nodes@[q as int].right == Some(x)),
{
    let t = tree.model();
    let n = tree.nodes@;
    t.lemma_sub(n, Some(tree.root), None, x);
    t.lemma_parent(n, Some(tree.root), None, x);
    let sx = t.sub(x);
    sx->left.lemma_link(n, n[x as int].left, Some(x));
    sx->right.lemma_link(n, n[x as int].right, Some(x));
    if let Some(c) = n[x as int].left {
        assert(sx->left.ids().contains(c));
        assert(sx.ids().contains(c));
        assert(t.ids().contains(c));
        assert(sx->left->id == c);
        assert(sx->left.realized(n, Some(c), Some(x)));
        assert(n[c as int].parent == Some(x));
    }
    if let Some(c) = n[x as int].right {
        assert(sx->right.ids().contains(c));
        assert(sx.ids().contains(c));
        assert(t.ids().contains(c));
        assert(sx->right->id == c);
        assert(sx->right.realized(n, Some(c), Some(x)));
        assert(n[c as int].parent == Some(x));
    }
}

} // verus!
