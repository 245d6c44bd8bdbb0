use binary_tree::{BinaryTree, TreeNode};
use std::cell::{Cell, RefCell};

fn tree_of(values: &[i32]) -> BinaryTree<i32> {
    let mut tree = BinaryTree::new();
    for v in values {
        tree.insert(*v);
    }
    tree
}

fn in_order(tree: &BinaryTree<i32>) -> Vec<i32> {
    tree.in_order_values().into_iter().copied().collect()
}

fn visited(tree: &BinaryTree<i32>) -> Vec<i32> {
    let seen = RefCell::new(Vec::new());
    tree.in_order_traversal(&|v: &i32| seen.borrow_mut().push(*v));
    seen.into_inner()
}

#[test]
fn new_tree_is_empty() {
    let tree: BinaryTree<i32> = BinaryTree::new();
    assert!(tree.is_empty());
    assert_eq!(tree.len(), 0);
    assert_eq!(tree.height(), 0);
    assert!(tree.in_order_values().is_empty());
}

#[test]
fn empty_traversal_makes_no_call() {
    let tree: BinaryTree<i32> = BinaryTree::new();
    let calls = Cell::new(0usize);
    tree.in_order_traversal(&|_: &i32| calls.set(calls.get() + 1));
    assert_eq!(calls.get(), 0);
}

#[test]
fn mixed_inserts_come_out_sorted() {
    let tree = tree_of(&[5, 3, 7, 2, 4, 6, 8]);
    assert_eq!(visited(&tree), vec![2, 3, 4, 5, 6, 7, 8]);
    assert_eq!(in_order(&tree), vec![2, 3, 4, 5, 6, 7, 8]);
    assert_eq!(tree.len(), 7);
    assert_eq!(tree.height(), 3);
}

#[test]
fn equal_inserts_form_right_chain() {
    let tree = tree_of(&[1, 1, 1]);
    assert_eq!(visited(&tree), vec![1, 1, 1]);
    assert_eq!(tree.len(), 3);
    assert_eq!(tree.height(), 3);
}

#[test]
fn ascending_inserts_form_right_chain() {
    let tree = tree_of(&[1, 2, 3, 4, 5]);
    assert_eq!(visited(&tree), vec![1, 2, 3, 4, 5]);
    assert_eq!(tree.len(), 5);
    assert_eq!(tree.height(), 5);
}

#[test]
fn descending_inserts_form_left_chain() {
    let tree = tree_of(&[5, 4, 3, 2, 1]);
    assert_eq!(visited(&tree), vec![1, 2, 3, 4, 5]);
    assert_eq!(tree.height(), 5);
}

#[test]
fn traversal_is_sorted_permutation() {
    let mut values = Vec::new();
    let mut x: i32 = 17;
    for _ in 0..200 {
        x = (x * 37 + 11) % 101 - 50;
        values.push(x);
    }
    let tree = tree_of(&values);
    let out = visited(&tree);
    for w in out.windows(2) {
        assert!(w[0] <= w[1]);
    }
    let mut sorted = values.clone();
    sorted.sort();
    assert_eq!(out, sorted);
}

#[test]
fn node_count_matches_inserts() {
    for n in 0..40 {
        let values: Vec<i32> = (0..n).map(|i| (i * 7) % 13).collect();
        let tree = tree_of(&values);
        assert_eq!(tree.len(), n as usize);
        assert_eq!(visited(&tree).len(), n as usize);
    }
}

#[test]
fn traversal_twice_is_identical() {
    let tree = tree_of(&[9, 2, 14, 2, 7, 11, 3]);
    let first = visited(&tree);
    let len = tree.len();
    let height = tree.height();
    let second = visited(&tree);
    assert_eq!(first, second);
    assert_eq!(first, vec![2, 2, 3, 7, 9, 11, 14]);
    assert_eq!(tree.len(), len);
    assert_eq!(tree.height(), height);
}

#[test]
fn traversal_values_point_into_tree() {
    let tree = tree_of(&[2, 1, 3]);
    let refs = tree.in_order_values();
    assert_eq!(refs.len(), 3);
    assert_eq!(*refs[0], 1);
    assert_eq!(*refs[1], 2);
    assert_eq!(*refs[2], 3);
}

#[test]
fn extreme_values_order() {
    let mut tree = BinaryTree::new();
    for v in [0i64, i64::MAX, i64::MIN, -1, 1, i64::MAX] {
        tree.insert(v);
    }
    let out: Vec<i64> = tree.in_order_values().into_iter().copied().collect();
    assert_eq!(out, vec![i64::MIN, -1, 0, 1, i64::MAX, i64::MAX]);
}

#[test]
fn strings_order() {
    let mut tree = BinaryTree::new();
    for w in ["pear", "apple", "fig", "apple"] {
        tree.insert(w.to_string());
    }
    let out: Vec<String> = tree.in_order_values().into_iter().cloned().collect();
    assert_eq!(out, vec!["apple", "apple", "fig", "pear"]);
}

#[test]
fn node_new_has_no_children() {
    let node = TreeNode::new(42);
    assert_eq!(node.value, 42);
    assert!(node.left.is_none());
    assert!(node.right.is_none());
}

#[test]
fn insert_node_attaches_by_order() {
    let mut root = TreeNode::new(10);
    BinaryTree::insert_node(&mut root, TreeNode::new(4));
    BinaryTree::insert_node(&mut root, TreeNode::new(10));
    BinaryTree::insert_node(&mut root, TreeNode::new(6));
    let left = root.left.as_ref().unwrap();
    assert_eq!(left.value, 4);
    assert!(left.left.is_none());
    assert_eq!(left.right.as_ref().unwrap().value, 6);
    let right = root.right.as_ref().unwrap();
    assert_eq!(right.value, 10);
    assert!(right.left.is_none() && right.right.is_none());
}

#[test]
fn is_empty_after_insert() {
    let tree = tree_of(&[3]);
    assert!(!tree.is_empty());
    assert_eq!(tree.len(), 1);
    assert_eq!(tree.height(), 1);
}
