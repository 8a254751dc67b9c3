use data_structs::binary_search_tree::BinarySearchTree;

fn get_data() -> (BinarySearchTree, Vec<u64>, Vec<u64>) {
    let vs = vec![5, 1, 4, 4, 4, 6, 5, 4, 5, 6, 5, 9, 7, 6];
    let copy = vs.clone();
    let mut sorted = vs.clone();
    sorted.sort();

    (BinarySearchTree::from(copy), vs, sorted)
}

#[test]
fn binary_search_tree_iter() {
    let (tree, _, sorted) = get_data();
    // should iter through the items in ascending order
    let v = tree.iter();

    println!("v = {:?}", v);

    assert_eq!(v, sorted);
}

#[test]
fn len() {
    let (tree, vs, _) = get_data();

    assert_eq!(tree.len(), vs.len());
}

#[test]
fn search() {
    let (tree, vs, _) = get_data();

    for v in &vs {
        assert_eq!(tree.search(v), true);
    }

    let falsy = [10, 13, 15, 100];

    for v in &falsy {
        assert_eq!(tree.search(v), false);
    }
}

#[test]
fn minimum() {
    let (tree, vs, _) = get_data();

    assert_eq!(tree.minimum(), vs.iter().min());
}

#[test]
fn maximum() {
    let (tree, vs, _) = get_data();

    assert_eq!(tree.maximum(), vs.iter().max());
}

#[test]
fn floor() {
    let (tree, vs, _) = get_data();

    assert_eq!(tree.floor(&100), Some(&9));
    assert_eq!(tree.floor(&0), None);
    assert_eq!(tree.floor(&2), Some(&1));
    assert_eq!(tree.floor(&8), Some(&7));

    for v in &vs {
        // tree.floor should return the same value if it exists in the tree
        assert_eq!(tree.floor(v), Some(v));
    }
}

#[test]
fn ceil() {
    let (tree, vs, _) = get_data();

    assert_eq!(tree.ceil(&100), None);
    assert_eq!(tree.ceil(&10), None);
    assert_eq!(tree.ceil(&0), Some(&1));
    assert_eq!(tree.ceil(&3), Some(&4));
    assert_eq!(tree.ceil(&8), Some(&9));

    for v in &vs {
        // tree.ceil should return the same value if it exists in the tree
        assert_eq!(tree.ceil(v), Some(v));
    }
}

#[test]
fn empty_tree() {
    let tree = BinarySearchTree::new();
    assert_eq!(tree.len(), 0);
    assert_eq!(tree.minimum(), None);
    assert_eq!(tree.maximum(), None);
    assert_eq!(tree.floor(&3), None);
    assert_eq!(tree.ceil(&3), None);
    assert!(!tree.search(&3));
    assert!(tree.iter().is_empty());
    let d = BinarySearchTree::default();
    assert_eq!(d.len(), 0);
}

#[test]
fn insert_keeps_duplicates() {
    let mut tree = BinarySearchTree::new();
    tree.insert(3);
    tree.insert(3);
    tree.insert(1);
    assert_eq!(tree.len(), 3);
    assert_eq!(tree.iter(), vec![1, 3, 3]);
}
