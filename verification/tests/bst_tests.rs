use binary_search_tree::BinarySearchTree;
use binary_search_tree::TreeNode;

fn count_nodes(node: &Option<Box<TreeNode>>) -> usize {
    match node {
        None => 0,
        Some(n) => 1 + count_nodes(&n.left) + count_nodes(&n.right),
    }
}

fn collect_in_order(node: &Option<Box<TreeNode>>, out: &mut Vec<i64>) {
    if let Some(n) = node {
        collect_in_order(&n.left, out);
        out.push(n.value);
        collect_in_order(&n.right, out);
    }
}

#[test]
fn test_insert_and_search() {
    let mut bst = BinarySearchTree::new();

    assert_eq!(bst.search(1), false);

    bst.insert(5);
    bst.insert(3);
    bst.insert(7);
    bst.insert(2);
    bst.insert(4);

    assert_eq!(bst.search(5), true);
    assert_eq!(bst.search(3), true);
    assert_eq!(bst.search(7), true);
    assert_eq!(bst.search(2), true);
    assert_eq!(bst.search(4), true);

    assert_eq!(bst.search(1), false);
    assert_eq!(bst.search(6), false);
}

#[test]
fn test_insert_duplicate() {
    let mut bst = BinarySearchTree::new();

    bst.insert(1);
    bst.insert(1);

    assert_eq!(bst.search(1), true);

    match bst.root {
        Some(ref node) => {
            assert!(node.left.is_none());
            assert!(node.right.is_none());
        }
        None => panic!("Root should not be None after insertion"),
    }
}

#[test]
fn test_search_empty_tree() {
    let bst = BinarySearchTree::new();
    assert_eq!(bst.search(-5), false);
    assert_eq!(bst.search(0), false);
    assert_eq!(bst.search(42), false);
    assert!(bst.root.is_none());
}

#[test]
fn test_distinct_values_all_found() {
    let mut bst = BinarySearchTree::new();
    let inserted: Vec<i64> = vec![10, -3, 7, 0, 25, -14];
    for v in &inserted {
        bst.insert(*v);
    }
    for v in &inserted {
        assert_eq!(bst.search(*v), true);
    }
    let absent: Vec<i64> = vec![1, -1, 11, 26, i64::MIN, i64::MAX];
    for v in &absent {
        assert_eq!(bst.search(*v), false);
    }
}

#[test]
fn test_duplicate_keeps_count_and_shape() {
    let mut reference = BinarySearchTree::new();
    let mut bst = BinarySearchTree::new();
    let values: Vec<i64> = vec![8, 4, 12, 2, 6];
    for v in &values {
        reference.insert(*v);
        bst.insert(*v);
    }

    bst.insert(4);
    bst.insert(8);
    bst.insert(6);

    assert_eq!(count_nodes(&bst.root), 5);
    assert_eq!(bst, reference);
}

#[test]
fn test_in_order_is_strictly_increasing() {
    let mut bst = BinarySearchTree::new();
    let values: Vec<i64> = vec![8, 3, 10, 1, 6, 14, 4, 7, 13];
    for v in &values {
        bst.insert(*v);
    }
    bst.insert(6);
    bst.insert(3);

    let mut visited: Vec<i64> = Vec::new();
    collect_in_order(&bst.root, &mut visited);
    assert_eq!(visited, vec![1, 3, 4, 6, 7, 8, 10, 13, 14]);
    for pair in visited.windows(2) {
        assert!(pair[0] < pair[1]);
    }
}

#[test]
fn test_root_and_children_shape() {
    let mut bst = BinarySearchTree::new();
    bst.insert(5);
    bst.insert(3);
    bst.insert(7);
    bst.insert(2);
    bst.insert(4);

    let root = bst.root.as_ref().expect("tree must have a root");
    assert_eq!(root.value, 5);
    let left = root.left.as_ref().expect("root must have a left child");
    let right = root.right.as_ref().expect("root must have a right child");
    assert_eq!(left.value, 3);
    assert_eq!(right.value, 7);
    let left_left = left.left.as_ref().expect("left child must have a left child");
    let left_right = left.right.as_ref().expect("left child must have a right child");
    assert_eq!(left_left.value, 2);
    assert_eq!(left_right.value, 4);
    assert!(right.left.is_none());
    assert!(right.right.is_none());
}

#[test]
fn test_single_node_tree() {
    let mut bst = BinarySearchTree::new();
    bst.insert(0);
    assert_eq!(bst.search(0), true);
    assert_eq!(bst.search(-1), false);
    assert_eq!(bst.search(1), false);
    assert_eq!(count_nodes(&bst.root), 1);
}

#[test]
fn test_extreme_values() {
    let mut bst = BinarySearchTree::new();
    bst.insert(i64::MIN);
    bst.insert(i64::MAX);
    bst.insert(0);
    assert_eq!(bst.search(i64::MIN), true);
    assert_eq!(bst.search(i64::MAX), true);
    assert_eq!(bst.search(0), true);
    assert_eq!(bst.search(1), false);
    assert_eq!(count_nodes(&bst.root), 3);
}
