use rb_tree::BinaryTree;

#[test]
fn single_node() {
    let tree = BinaryTree::new(1);

    match tree {
        BinaryTree::Node {
            data,
            left: _,
            right: _,
            color: _,
        } => assert_eq!(data, 1),
        BinaryTree::Sentinel => unreachable!("{:#?}", &tree),
    }
}

#[test]
fn complex_static_tree() {
    let tree = BinaryTree::new(10)
        .left(
            BinaryTree::new(5)
                .left(BinaryTree::new(2))
                .right(BinaryTree::new(7)),
        )
        .right(BinaryTree::new(20).right(BinaryTree::new(25)));
    let left_tree = match &tree {
        BinaryTree::Node {
            data: _,
            left,
            right: _,
            color: _,
        } => left,
        BinaryTree::Sentinel => unreachable!("{:#?}", tree),
    };
    let right_tree = match &tree {
        BinaryTree::Node {
            data: _,
            left: _,
            right,
            color: _,
        } => right,
        BinaryTree::Sentinel => unreachable!("{:#?}", tree),
    };

    assert_eq!(left_tree.left_tree().unwrap().data().unwrap().to_owned(), 2);
    assert_eq!(left_tree.data().unwrap().to_owned(), 5);
    assert_eq!(
        left_tree.right_tree().unwrap().data().unwrap().to_owned(),
        7
    );
    assert_eq!(tree.data().unwrap().to_owned(), 10);
    assert!(right_tree.left_tree().unwrap().data().is_none());
    assert_eq!(right_tree.data().unwrap().to_owned(), 20);
    assert_eq!(
        right_tree.right_tree().unwrap().data().unwrap().to_owned(),
        25
    );
}

#[test]
fn contains() {
    let tree = BinaryTree::new(10)
        .left(
            BinaryTree::new(5)
                .left(BinaryTree::new(2))
                .right(BinaryTree::new(7)),
        )
        .right(BinaryTree::new(20).right(BinaryTree::new(25)));

    assert!(tree.contains(2));
    assert!(tree.contains(5));
    assert!(tree.contains(7));
    assert!(tree.contains(10));
    assert!(tree.contains(20));
    assert!(tree.contains(25));

    assert!(!tree.contains(100));
}

#[test]
fn insert_and_remove() {
    let mut tree = BinaryTree::new(1);

    tree.insert(5);
    tree.insert(0);
    tree.insert(6);
    tree.insert(10);
    tree.insert(7);

    assert!(tree.contains(0));
    assert!(tree.contains(5));
    assert!(tree.contains(6));
    assert!(tree.contains(10));
    assert!(tree.contains(7));
}
