use splay_tree::Node;
use splay_tree::SplayTree;

fn create_tree(buf: &[u64]) -> SplayTree<u64> {
    let mut tree = SplayTree::new();

    for i in buf.iter().cloned() {
        tree.insert(i, i);

        assert!(tree.root().is_some());
        if let Some(root) = tree.root() {
            assert_eq!(*root.value(), i);
        }
    }

    assert_eq!(tree.len(), buf.len());
    check_tree_structure(&tree);

    tree
}

fn check_tree_structure(tree: &SplayTree<u64>) {
    if let Some(root) = tree.root() {
        assert!(root.parent().is_none());
        let length = check_node_structure(root, 0);
        assert_eq!(length, tree.len());
    }
}

fn check_node_structure(node: &Node<u64>, mut length: usize) -> usize {
    length += 1;

    if let Some(left) = node.left() {
        assert!(left.key() < node.key());
        assert_eq!(left.parent(), Some(node.key()));
        length = check_node_structure(left, length);
    }

    if let Some(right) = node.right() {
        assert!(right.key() > node.key());
        assert_eq!(right.parent(), Some(node.key()));
        length = check_node_structure(right, length);
    }

    length
}

#[test]
fn test_get() {
    let elems = [11, 17, 9, 0, 13, 2, 4, 3];
    let mut tree = create_tree(&elems);

    for i in elems.iter().cloned() {
        let node = tree.get(i).unwrap();
        assert_eq!(node.key(), i);
        assert_eq!(tree.root().unwrap().key(), i);
    }

    let missing = [127, 1134, 9089, 1, 5, 6];
    for i in missing.iter().cloned() {
        assert!(tree.get(i).is_none());
    }

    check_tree_structure(&tree);
}

#[test]
fn test_get_min() {
    let elems = [12, 45, 11, 90, 43, 34, 78, 91];
    let mut tree = create_tree(&elems);
    let min = tree.get_min().unwrap();
    assert_eq!(min.key(), 11);
    assert_eq!(tree.root().unwrap().key(), 11);
    check_tree_structure(&tree);
}

#[test]
fn test_get_min_empty() {
    let mut tree = SplayTree::<u64>::new();
    assert!(tree.get_min().is_none());
}

#[test]
fn test_get_max() {
    let elems = [123, 0, 134, 7896, 1003, 3456, 90, 34, 1, 2, 3];
    let mut tree = create_tree(&elems);
    let max = tree.get_max().unwrap();
    assert_eq!(max.key(), 7896);
    assert_eq!(tree.root().unwrap().key(), 7896);
    check_tree_structure(&tree);
}

#[test]
fn test_get_max_empty() {
    let mut tree = SplayTree::<u64>::new();
    assert!(tree.get_max().is_none());
}

#[test]
fn test_remove() {
    let elems = [23, 45, 12, 90, 46, 89, 78, 91];
    let mut tree = create_tree(&elems);
    let mut length = tree.len();

    for i in elems[0..5].iter().cloned() {
        let node = tree.remove(i).unwrap();
        assert_eq!(node.key(), i);
        assert_eq!(*node.value(), i);
        assert!(node.parent().is_none());
        assert!(node.left().is_none());
        assert!(node.right().is_none());
        assert!(tree.get(i).is_none());
        length -= 1;
        assert_eq!(tree.len(), length);
    }

    check_tree_structure(&tree);

    for i in elems[5..].iter().cloned() {
        let node = tree.remove(i).unwrap();
        assert_eq!(node.key(), i);
        assert_eq!(*node.value(), i);
        assert!(node.parent().is_none());
        assert!(node.left().is_none());
        assert!(node.right().is_none());
        assert!(tree.get(i).is_none());
        length -= 1;
        assert_eq!(tree.len(), length);
    }

    assert!(tree.root().is_none());
}

#[test]
fn is_empty_test() {
    let mut tree = SplayTree::<u64>::new();
    assert!(tree.is_empty());
    tree.insert(4, 4);
    assert!(!tree.is_empty());
}

#[test]
fn contains_key_test() {
    let elems = [34, 22, 11, 90, 321, 7778, 991, 1111];
    let mut tree = create_tree(&elems);
    for i in elems {
        assert!(tree.contains_key(i));
    }
    let missing = [7, 8, 9, 10, 12];
    for i in missing {
        assert!(!tree.contains_key(i));
    }
}
