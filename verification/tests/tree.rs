use almost_union_find::tree::AVLTree;

#[test]
fn test1() {
    let _tree: AVLTree<u32> = AVLTree::new();
}

#[test]
fn search_in_an_empty_tree_finds_nothing() {
    let tree: AVLTree<u32> = AVLTree::new();
    assert!(tree.search(7).is_none());
}

#[test]
fn inserted_keys_are_found() {
    let mut tree: AVLTree<u32> = AVLTree::new();
    for key in [50u32, 30, 70, 20, 40, 60, 80] {
        tree.insert(key);
    }
    for key in [50u32, 30, 70, 20, 40, 60, 80] {
        assert_eq!(tree.search(key).map(|node| node.key()), Some(key));
    }
    assert!(tree.search(10).is_none());
    assert!(tree.search(55).is_none());
}

#[test]
fn delete_takes_one_copy() {
    let mut tree: AVLTree<i64> = AVLTree::new();
    tree.insert(4);
    tree.insert(4);
    tree.insert(-1);
    tree.delete(4);
    assert_eq!(tree.search(4).map(|node| node.key()), Some(4));
    tree.delete(4);
    assert!(tree.search(4).is_none());
    assert_eq!(tree.search(-1).map(|node| node.key()), Some(-1));
    tree.delete(4);
    assert_eq!(tree.search(-1).map(|node| node.key()), Some(-1));
}

#[test]
fn delete_of_a_node_with_two_subtrees() {
    let mut tree: AVLTree<u32> = AVLTree::new();
    for key in [50u32, 30, 70, 20, 40, 60, 80, 65] {
        tree.insert(key);
    }
    tree.delete(50);
    assert!(tree.search(50).is_none());
    for key in [30u32, 70, 20, 40, 60, 80, 65] {
        assert_eq!(tree.search(key).map(|node| node.key()), Some(key));
    }
    tree.delete(70);
    tree.delete(20);
    for key in [30u32, 40, 60, 80, 65] {
        assert_eq!(tree.search(key).map(|node| node.key()), Some(key));
    }
    assert!(tree.search(70).is_none());
    assert!(tree.search(20).is_none());
}
