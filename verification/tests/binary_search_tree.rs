use algorithms::tree::binary_search_tree::{BinarySearchTree, Node};

#[test]
fn binary_search_tree_test_insert() {
    let mut tree = BinarySearchTree::new();

    tree.insert(10);
    tree.insert(7);
    tree.insert(14);
    tree.insert(6);
    tree.insert(8);
    tree.insert(13);
    tree.insert(15);
    // Duplicates should be ignored
    tree.insert(13);
    tree.insert(15);

    assert_eq!(tree.root.as_ref().unwrap().elem, 10);
    assert_eq!(tree.root.as_ref().unwrap().left.as_ref().unwrap().elem, 7);
    assert_eq!(tree.root.as_ref().unwrap().right.as_ref().unwrap().elem, 14);
    assert_eq!(
        tree.root.as_ref().unwrap().left.as_ref().unwrap().left.as_ref().unwrap().elem,
        6
    );
    assert_eq!(
        tree.root.as_ref().unwrap().left.as_ref().unwrap().right.as_ref().unwrap().elem,
        8
    );
    assert_eq!(
        tree.root.as_ref().unwrap().right.as_ref().unwrap().left.as_ref().unwrap().elem,
        13
    );
    assert_eq!(
        tree.root.as_ref().unwrap().right.as_ref().unwrap().right.as_ref().unwrap().elem,
        15
    );
}

#[test]
fn test_find() {
    let mut tree = BinarySearchTree::new();

    tree.insert(10);
    tree.insert(5);
    tree.insert(15);
    tree.insert(12);
    tree.insert(30);

    // Should find present elements
    assert_eq!(tree.find(10), Some(10));
    assert_eq!(tree.find(5), Some(5));
    assert_eq!(tree.find(15), Some(15));
    assert_eq!(tree.find(12), Some(12));
    assert_eq!(tree.find(30), Some(30));

    // Should return None for absent elements
    assert_eq!(tree.find(1), None);
}

#[test]
fn test_breadth_first_search() {
    let mut tree = BinarySearchTree::new();

    tree.insert(10);
    tree.insert(5);
    tree.insert(15);
    tree.insert(12);
    tree.insert(30);

    assert_eq!(tree.breadth_first(), vec![10, 5, 15, 12, 30]);
}

#[test]
fn test_depth_first_pre_order() {
    let mut tree = BinarySearchTree::new();

    tree.insert(10);
    tree.insert(5);
    tree.insert(15);
    tree.insert(12);
    tree.insert(30);

    assert_eq!(tree.depth_first_pre_order(), vec![10, 5, 15, 12, 30]);
}

#[test]
fn test_depth_first_post_order() {
    let mut tree = BinarySearchTree::new();

    tree.insert(10);
    tree.insert(5);
    tree.insert(15);
    tree.insert(12);
    tree.insert(30);

    assert_eq!(tree.depth_first_post_order(), vec![5, 12, 30, 15, 10]);
}

#[test]
fn test_depth_first_in_order() {
    let mut tree = BinarySearchTree::new();

    tree.insert(10);
    tree.insert(5);
    tree.insert(15);
    tree.insert(12);
    tree.insert(30);

    assert_eq!(tree.depth_first_in_order(), vec![5, 10, 12, 15, 30]);
}

#[test]
fn an_empty_tree_holds_nothing() {
    let tree: BinarySearchTree<i32> = BinarySearchTree::new();
    assert!(tree.root.is_none());
    assert_eq!(tree.find(3), None);
    assert_eq!(tree.breadth_first(), Vec::<i32>::new());
    assert_eq!(tree.depth_first_pre_order(), Vec::<i32>::new());
    assert_eq!(tree.depth_first_post_order(), Vec::<i32>::new());
    assert_eq!(tree.depth_first_in_order(), Vec::<i32>::new());
    let node = Node::new(4);
    assert_eq!(node.elem, 4);
    assert!(node.left.is_none() && node.right.is_none());
}

#[test]
fn a_deeper_tree_is_walked_level_by_level() {
    let mut tree = BinarySearchTree::new();
    for value in [8, 3, 10, 1, 6, 14, 4, 7, 13] {
        tree.insert(value);
    }
    assert_eq!(tree.breadth_first(), vec![8, 3, 10, 1, 6, 14, 4, 7, 13]);
    assert_eq!(tree.depth_first_pre_order(), vec![8, 3, 1, 6, 4, 7, 10, 14, 13]);
    assert_eq!(tree.depth_first_post_order(), vec![1, 4, 7, 6, 3, 13, 14, 10, 8]);
    assert_eq!(tree.depth_first_in_order(), vec![1, 3, 4, 6, 7, 8, 10, 13, 14]);
    assert_eq!(tree.find(13), Some(13));
    assert_eq!(tree.find(5), None);
}
