use linked_bst::bst::BstTree;
use linked_bst::node::{BstNode, BstNodeLink};

fn build(keys: &[i32]) -> BstTree {
    let mut tree = BstTree::new();
    for k in keys {
        BstNode::tree_insert(&mut tree, *k);
    }
    tree
}

fn key_at(tree: &BstTree, i: BstNodeLink) -> i32 {
    tree.node(i).key.unwrap()
}

fn find(tree: &BstTree, k: i32) -> Option<BstNodeLink> {
    BstNode::tree_search_link(tree, tree.get_root_link(), &k)
}

/// Every node reachable from the top, by a walk over child links.
fn reachable(tree: &BstTree) -> Vec<BstNodeLink> {
    let mut out = Vec::new();
    if tree.is_empty() {
        return out;
    }
    let mut stack = vec![tree.get_root_link()];
    while let Some(i) = stack.pop() {
        out.push(i);
        let n = tree.node(i);
        if let Some(c) = n.left {
            stack.push(c);
        }
        if let Some(c) = n.right {
            stack.push(c);
        }
    }
    out
}

fn parents_consistent(tree: &BstTree) -> bool {
    if tree.node(tree.get_root_link()).parent.is_some() {
        return false;
    }
    for i in reachable(tree) {
        let n = tree.node(i);
        for c in [n.left, n.right].into_iter().flatten() {
            if tree.node(c).parent != Some(i) {
                return false;
            }
        }
    }
    true
}

const SCENARIO: [i32; 11] = [15, 6, 18, 3, 7, 17, 20, 2, 4, 13, 9];

#[test]
fn scenario_in_order_min_max_successor_delete() {
    let mut tree = build(&SCENARIO);
    assert_eq!(tree.in_order(), vec![2, 3, 4, 6, 7, 9, 13, 15, 17, 18, 20]);
    let root = tree.get_root_link();
    assert_eq!(key_at(&tree, BstNode::minimum(&tree, root)), 2);
    assert_eq!(key_at(&tree, BstNode::maximum(&tree, root)), 20);
    let seven = find(&tree, 7).unwrap();
    assert_eq!(key_at(&tree, BstNode::tree_successor(&tree, seven).unwrap()), 9);
    assert!(BstNode::tree_delete(&mut tree, 6));
    assert_eq!(find(&tree, 6), None);
    assert_eq!(key_at(&tree, find(&tree, 7).unwrap()), 7);
    assert_eq!(tree.in_order(), vec![2, 3, 4, 7, 9, 13, 15, 17, 18, 20]);
    assert!(parents_consistent(&tree));
}

#[test]
fn delete_on_empty_tree_reports_not_found() {
    let mut tree = BstTree::new();
    let before = tree.nodes.clone();
    assert!(!BstNode::tree_delete(&mut tree, 5));
    assert_eq!(tree.nodes, before);
    assert!(tree.is_empty());
    assert_eq!(tree.in_order(), Vec::<i32>::new());
}

#[test]
fn delete_absent_key_leaves_tree_unchanged() {
    let mut tree = build(&[8, 4, 12]);
    let before = tree.nodes.clone();
    let root = tree.get_root_link();
    assert!(!BstNode::tree_delete(&mut tree, 5));
    assert_eq!(tree.nodes, before);
    assert_eq!(tree.get_root_link(), root);
    assert_eq!(tree.in_order(), vec![4, 8, 12]);
}

#[test]
fn delete_root_of_two_node_tree_left_child() {
    let mut tree = build(&[10, 5]);
    assert!(BstNode::tree_delete(&mut tree, 10));
    let root = tree.get_root_link();
    let n = tree.node(root);
    assert_eq!(n.key, Some(5));
    assert_eq!(n.parent, None);
    assert_eq!(n.left, None);
    assert_eq!(n.right, None);
    assert_eq!(tree.in_order(), vec![5]);
}

#[test]
fn delete_root_of_two_node_tree_right_child() {
    let mut tree = build(&[10, 15]);
    assert!(BstNode::tree_delete(&mut tree, 10));
    let n = tree.node(tree.get_root_link());
    assert_eq!(n.key, Some(15));
    assert_eq!(n.parent, None);
    assert_eq!(n.left, None);
    assert_eq!(n.right, None);
}

#[test]
fn delete_last_key_leaves_sentinel() {
    let mut tree = build(&[42]);
    assert!(BstNode::tree_delete(&mut tree, 42));
    assert!(tree.is_empty());
    assert_eq!(tree.node(tree.get_root_link()).key, None);
    assert_eq!(find(&tree, 42), None);
    BstNode::tree_insert(&mut tree, 7);
    assert_eq!(tree.in_order(), vec![7]);
}

#[test]
fn in_order_sorted_with_duplicates() {
    let tree = build(&[5, 3, 8, 5, 1, 9, 5, 3, 7, 2, 8]);
    let v = tree.in_order();
    assert_eq!(v, vec![1, 2, 3, 3, 5, 5, 5, 7, 8, 8, 9]);
    for w in v.windows(2) {
        assert!(w[0] <= w[1]);
    }
}

#[test]
fn equal_keys_go_right() {
    let tree = build(&[5, 5]);
    let root = tree.get_root_link();
    let n = tree.node(root);
    assert_eq!(n.left, None);
    assert_eq!(key_at(&tree, n.right.unwrap()), 5);
}

#[test]
fn search_finds_inserted_keys_only() {
    let tree = build(&SCENARIO);
    let root = tree.get_root_link();
    for k in SCENARIO {
        let i = BstNode::tree_search(&tree, root, &k).unwrap();
        assert_eq!(key_at(&tree, i), k);
        assert_eq!(find(&tree, k), Some(i));
    }
    for k in [0, 1, 5, 8, 14, 16, 19, 21, -3] {
        assert_eq!(BstNode::tree_search(&tree, root, &k), None);
        assert_eq!(find(&tree, k), None);
    }
}

#[test]
fn search_on_empty_tree_is_not_found() {
    let tree = BstTree::new();
    let root = tree.get_root_link();
    assert_eq!(BstNode::tree_search(&tree, root, &1), None);
    assert_eq!(BstNode::tree_search_link(&tree, root, &1), None);
}

#[test]
fn search_within_subtree() {
    let tree = build(&SCENARIO);
    let six = find(&tree, 6).unwrap();
    assert_eq!(key_at(&tree, BstNode::tree_search(&tree, six, &13).unwrap()), 13);
    assert_eq!(BstNode::tree_search(&tree, six, &17), None);
    assert_eq!(BstNode::tree_search_link(&tree, six, &17), None);
}

#[test]
fn minimum_and_maximum_of_subtrees() {
    let tree = build(&SCENARIO);
    let six = find(&tree, 6).unwrap();
    assert_eq!(key_at(&tree, BstNode::minimum(&tree, six)), 2);
    assert_eq!(key_at(&tree, BstNode::maximum(&tree, six)), 13);
    let eighteen = find(&tree, 18).unwrap();
    assert_eq!(key_at(&tree, BstNode::minimum(&tree, eighteen)), 17);
    assert_eq!(key_at(&tree, BstNode::maximum(&tree, eighteen)), 20);
}

#[test]
fn minimum_of_empty_tree_is_its_sentinel() {
    let tree = BstTree::new();
    let root = tree.get_root_link();
    assert_eq!(BstNode::minimum(&tree, root), root);
    assert_eq!(BstNode::maximum(&tree, root), root);
}

#[test]
fn successor_walks_in_order() {
    let tree = build(&SCENARIO);
    let sorted = tree.in_order();
    for (pos, k) in sorted.iter().enumerate() {
        let i = find(&tree, *k).unwrap();
        let a = BstNode::tree_successor(&tree, i);
        let b = BstNode::tree_successor_simpler(&tree, i);
        assert_eq!(a, b);
        if pos + 1 < sorted.len() {
            assert_eq!(key_at(&tree, a.unwrap()), sorted[pos + 1]);
        } else {
            assert_eq!(a, None);
        }
    }
}

#[test]
fn successor_of_maximum_is_none() {
    let tree = build(&SCENARIO);
    let max = BstNode::maximum(&tree, tree.get_root_link());
    assert_eq!(BstNode::tree_successor(&tree, max), None);
    assert_eq!(BstNode::tree_successor_simpler(&tree, max), None);
}

#[test]
fn successor_with_duplicate_keys() {
    let tree = build(&[5, 5, 5]);
    let root = tree.get_root_link();
    let mid = tree.node(root).right.unwrap();
    let last = tree.node(mid).right.unwrap();
    assert_eq!(BstNode::tree_successor(&tree, root), Some(mid));
    assert_eq!(BstNode::tree_successor(&tree, mid), Some(last));
    assert_eq!(BstNode::tree_successor(&tree, last), None);
}

#[test]
fn delete_then_search_keeps_other_keys() {
    for victim in SCENARIO {
        let mut tree = build(&SCENARIO);
        assert!(BstNode::tree_delete(&mut tree, victim));
        assert_eq!(find(&tree, victim), None);
        for k in SCENARIO {
            if k != victim {
                assert_eq!(key_at(&tree, find(&tree, k).unwrap()), k);
            }
        }
        let mut expected: Vec<i32> = SCENARIO.iter().copied().filter(|k| *k != victim).collect();
        expected.sort();
        assert_eq!(tree.in_order(), expected);
        assert!(parents_consistent(&tree));
    }
}

#[test]
fn delete_one_of_duplicates_keeps_the_other() {
    let mut tree = build(&[4, 2, 4, 6]);
    assert!(BstNode::tree_delete(&mut tree, 4));
    assert_eq!(key_at(&tree, find(&tree, 4).unwrap()), 4);
    assert_eq!(tree.in_order(), vec![2, 4, 6]);
    assert!(BstNode::tree_delete(&mut tree, 4));
    assert_eq!(find(&tree, 4), None);
    assert_eq!(tree.in_order(), vec![2, 6]);
}

#[test]
fn delete_node_whose_successor_is_deep() {
    let mut tree = build(&[10, 5, 20, 15, 25, 12, 13]);
    let ten = find(&tree, 10).unwrap();
    BstNode::tree_delete_link(&mut tree, ten);
    let root = tree.get_root_link();
    assert_eq!(key_at(&tree, root), 12);
    assert_eq!(tree.in_order(), vec![5, 12, 13, 15, 20, 25]);
    let fifteen = find(&tree, 15).unwrap();
    assert_eq!(key_at(&tree, tree.node(fifteen).left.unwrap()), 13);
    assert!(parents_consistent(&tree));
}

#[test]
fn delete_inner_node_with_two_children() {
    let mut tree = build(&SCENARIO);
    let eighteen = find(&tree, 18).unwrap();
    BstNode::tree_delete_link(&mut tree, eighteen);
    assert_eq!(tree.in_order(), vec![2, 3, 4, 6, 7, 9, 13, 15, 17, 20]);
    let twenty = find(&tree, 20).unwrap();
    assert_eq!(key_at(&tree, tree.node(twenty).left.unwrap()), 17);
    assert!(parents_consistent(&tree));
}

#[test]
fn parents_stay_consistent_over_mixed_operations() {
    let mut tree = BstTree::new();
    let ops: [(bool, i32); 16] = [
        (true, 50), (true, 30), (true, 70), (true, 20), (true, 40), (true, 60), (true, 80),
        (false, 30), (true, 35), (false, 50), (true, 65), (false, 70), (true, 30), (false, 20),
        (false, 99), (true, 55),
    ];
    for (ins, k) in ops {
        if ins {
            BstNode::tree_insert(&mut tree, k);
        } else {
            BstNode::tree_delete(&mut tree, k);
        }
        assert!(parents_consistent(&tree));
        let v = tree.in_order();
        assert!(v.windows(2).all(|w| w[0] <= w[1]));
    }
    assert_eq!(tree.in_order(), vec![30, 35, 40, 55, 60, 65, 80]);
}

#[test]
fn get_root_from_any_node() {
    let tree = build(&SCENARIO);
    let root = tree.get_root_link();
    for i in reachable(&tree) {
        assert_eq!(BstNode::get_root(&tree, i), root);
    }
    let empty = BstTree::new();
    assert_eq!(BstNode::get_root(&empty, empty.get_root_link()), empty.get_root_link());
}

#[test]
fn insert_link_of_detached_node() {
    let mut tree = BstTree::new();
    let a = BstNode::new_bst_nodelink(&mut tree, 8);
    assert_eq!(tree.node(a), BstNode { key: Some(8), parent: None, left: None, right: None });
    BstNode::tree_insert_link(&mut tree, a);
    assert_eq!(tree.get_root_link(), a);
    let b = BstNode::new_bst_nodelink(&mut tree, 3);
    BstNode::tree_insert_link(&mut tree, b);
    assert_eq!(tree.node(a).left, Some(b));
    assert_eq!(tree.node(b).parent, Some(a));
    assert_eq!(tree.in_order(), vec![3, 8]);
}

#[test]
fn add_children_by_hand() {
    let mut tree = BstTree::new();
    let a = BstNode::new_bst_nodelink(&mut tree, 10);
    BstNode::add_left_child(&mut tree, a, 4);
    BstNode::add_right_child(&mut tree, a, 14);
    let n = tree.node(a);
    let l = n.left.unwrap();
    let r = n.right.unwrap();
    assert_eq!(tree.node(l), BstNode { key: Some(4), parent: Some(a), left: None, right: None });
    assert_eq!(tree.node(r), BstNode { key: Some(14), parent: Some(a), left: None, right: None });
    assert_eq!(tree.len(), 4);
}

#[test]
fn transplant_relinks_parent_and_child() {
    let mut tree = build(&[10, 5, 15, 3]);
    let five = find(&tree, 5).unwrap();
    let three = find(&tree, 3).unwrap();
    let ten = tree.get_root_link();
    BstNode::transplant(&mut tree, five, Some(three));
    assert_eq!(tree.node(ten).left, Some(three));
    assert_eq!(tree.node(three).parent, Some(ten));
    let before = tree.nodes.clone();
    BstNode::transplant(&mut tree, ten, None);
    assert_eq!(tree.nodes, before);
}

#[test]
fn node_helpers() {
    let n = BstNode::new(3);
    assert_eq!(n, BstNode { key: Some(3), parent: None, left: None, right: None });
    let m = BstNode::new_with_parent(7, 4);
    assert_eq!(m, BstNode { key: Some(4), parent: Some(7), left: None, right: None });
    assert_eq!(m.get_bst_nodelink_copy(), m);
    assert!(BstNode::is_node_match(2, 2));
    assert!(!BstNode::is_node_match(2, 3));
    assert!(BstNode::is_node_match_option(None, None));
    assert!(BstNode::is_node_match_option(Some(1), Some(1)));
    assert!(!BstNode::is_node_match_option(Some(1), None));
    assert!(!BstNode::is_node_match_option(Some(1), Some(2)));
    let tree = build(&[1]);
    assert!(BstNode::is_nil(&tree, None));
    assert!(!BstNode::is_nil(&tree, Some(tree.get_root_link())));
    let empty = BstTree::new();
    assert!(BstNode::is_nil(&empty, Some(empty.get_root_link())));
}
