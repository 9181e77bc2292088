use rb_tree::{BinaryTree, Color};

fn grown(keys: &[i32]) -> BinaryTree<i32> {
    let mut tree = BinaryTree::Sentinel;
    for k in keys {
        tree.insert(*k);
    }
    tree
}

fn walk(tree: &BinaryTree<i32>) -> Vec<i32> {
    tree.traverse().into_iter().copied().collect()
}

fn key(tree: &BinaryTree<i32>) -> Option<i32> {
    tree.data().copied()
}

#[test]
fn empty_tree_holds_nothing() {
    let tree: BinaryTree<i32> = BinaryTree::Sentinel;
    assert!(tree.is_sentinel());
    assert!(!tree.contains(10));
    assert!(walk(&tree).is_empty());
    assert_eq!(tree.height(), 0);
    assert_eq!(tree.black_height(), 0);
    assert_eq!(*tree.color(), Color::Black);
    assert!(tree.validate());
}

#[test]
fn default_is_the_empty_tree() {
    let tree: BinaryTree<i32> = Default::default();
    assert!(tree.is_sentinel());
    assert!(tree.data().is_none());
    assert!(tree.left_tree().is_none());
    assert!(tree.right_tree().is_none());
}

#[test]
fn new_node_is_a_red_leaf() {
    let tree = BinaryTree::new(4);
    assert_eq!(*tree.color(), Color::Red);
    assert!(tree.is_red());
    assert_eq!(key(&tree), Some(4));
    assert!(tree.left_tree().unwrap().is_sentinel());
    assert!(tree.right_tree().unwrap().is_sentinel());
    assert_eq!(tree.height(), 1);
    assert_eq!(tree.black_height(), 1);
    // a red root is no red-black tree
    assert!(!tree.validate());
}

#[test]
fn builders_on_the_sentinel_give_way() {
    let tree = BinaryTree::Sentinel.left(BinaryTree::new(3));
    assert_eq!(key(&tree), Some(3));
    let tree = BinaryTree::Sentinel.right(BinaryTree::new(8));
    assert_eq!(key(&tree), Some(8));
}

#[test]
fn builders_replace_the_child() {
    let tree = BinaryTree::new(5).left(BinaryTree::new(1)).left(BinaryTree::new(2));
    assert_eq!(key(tree.left_tree().unwrap()), Some(2));
    assert!(tree.right_tree().unwrap().is_sentinel());
    let tree = BinaryTree::new(5).right(BinaryTree::new(9)).right(BinaryTree::new(7));
    assert_eq!(key(tree.right_tree().unwrap()), Some(7));
    assert!(tree.left_tree().unwrap().is_sentinel());
}

#[test]
fn first_insert_makes_a_black_root() {
    let mut tree = BinaryTree::Sentinel;
    tree.insert(42);
    assert_eq!(*tree.color(), Color::Black);
    assert_eq!(key(&tree), Some(42));
    assert_eq!(walk(&tree), vec![42]);
    assert!(tree.validate());
}

#[test]
fn six_keys_in_order() {
    let tree = grown(&[10, 5, 20, 2, 7, 25]);
    assert_eq!(walk(&tree), vec![2, 5, 7, 10, 20, 25]);
    assert_eq!(*tree.color(), Color::Black);
    assert!(tree.validate());
    // 10 black; 5 and 20 black after the red uncle was recoloured; the rest red
    assert_eq!(key(&tree), Some(10));
    let left = tree.left_tree().unwrap();
    let right = tree.right_tree().unwrap();
    assert_eq!(key(left), Some(5));
    assert_eq!(*left.color(), Color::Black);
    assert_eq!(key(right), Some(20));
    assert_eq!(*right.color(), Color::Black);
    assert_eq!(*left.left_tree().unwrap().color(), Color::Red);
    assert_eq!(*left.right_tree().unwrap().color(), Color::Red);
    assert_eq!(*right.right_tree().unwrap().color(), Color::Red);
    assert_eq!(tree.height(), 3);
    assert_eq!(tree.black_height(), 2);
}

#[test]
fn lookup_after_inserts() {
    let tree = grown(&[1, 5, 0, 6, 10, 7]);
    assert!(tree.contains(7));
    assert!(!tree.contains(100));
    assert!(tree.validate());
}

#[test]
fn insert_remove_insert() {
    let mut tree = BinaryTree::Sentinel;
    tree.insert(10);
    tree.remove(10);
    assert!(tree.is_sentinel());
    assert!(!tree.contains(10));
    tree.insert(10);
    assert_eq!(walk(&tree), vec![10]);
    assert!(tree.contains(10));
    assert!(tree.validate());
}

#[test]
fn ascending_run_stays_low() {
    let tree = grown(&[1, 2, 3, 4, 5, 6, 7]);
    assert_eq!(walk(&tree), vec![1, 2, 3, 4, 5, 6, 7]);
    assert!(tree.validate());
    assert!(tree.height() <= 6);
    assert_eq!(tree.height(), 4);
    // 2 at the root, 4 red below it, 6 black with 5 and 7 red
    assert_eq!(key(&tree), Some(2));
    let four = tree.right_tree().unwrap();
    assert_eq!(key(four), Some(4));
    assert_eq!(*four.color(), Color::Red);
    let six = four.right_tree().unwrap();
    assert_eq!(key(six), Some(6));
    assert_eq!(*six.color(), Color::Black);
    assert_eq!(key(six.left_tree().unwrap()), Some(5));
    assert_eq!(key(six.right_tree().unwrap()), Some(7));
}

#[test]
fn descending_run_stays_low() {
    let tree = grown(&[7, 6, 5, 4, 3, 2, 1]);
    assert_eq!(walk(&tree), vec![1, 2, 3, 4, 5, 6, 7]);
    assert!(tree.validate());
    assert_eq!(tree.height(), 4);
    assert_eq!(key(&tree), Some(6));
}

#[test]
fn successor_takes_the_place_of_a_node_with_two_children() {
    let mut tree = grown(&[10, 5, 20, 2, 7, 25]);
    tree.remove(10);
    assert_eq!(key(&tree), Some(20));
    assert_eq!(walk(&tree), vec![2, 5, 7, 20, 25]);
    assert!(tree.validate());
    let right = tree.right_tree().unwrap();
    assert_eq!(key(right), Some(25));
    assert_eq!(*right.color(), Color::Black);
    assert!(!tree.contains(10));
}

#[test]
fn zig_zag_is_rotated_twice() {
    // 3 goes between 1 and 5: left rotation below, right rotation above
    let tree = grown(&[5, 1, 3]);
    assert_eq!(key(&tree), Some(3));
    assert_eq!(*tree.color(), Color::Black);
    assert_eq!(key(tree.left_tree().unwrap()), Some(1));
    assert_eq!(key(tree.right_tree().unwrap()), Some(5));
    assert_eq!(*tree.left_tree().unwrap().color(), Color::Red);
    assert_eq!(*tree.right_tree().unwrap().color(), Color::Red);
    // and the mirror image
    let tree = grown(&[1, 5, 3]);
    assert_eq!(key(&tree), Some(3));
    assert_eq!(key(tree.left_tree().unwrap()), Some(1));
    assert_eq!(key(tree.right_tree().unwrap()), Some(5));
    assert!(tree.validate());
}

#[test]
fn zig_zig_is_rotated_once() {
    let tree = grown(&[5, 3, 1]);
    assert_eq!(key(&tree), Some(3));
    assert_eq!(key(tree.left_tree().unwrap()), Some(1));
    assert_eq!(key(tree.right_tree().unwrap()), Some(5));
    assert!(tree.validate());
    let tree = grown(&[1, 3, 5]);
    assert_eq!(key(&tree), Some(3));
    assert_eq!(key(tree.left_tree().unwrap()), Some(1));
    assert_eq!(key(tree.right_tree().unwrap()), Some(5));
    assert!(tree.validate());
}

#[test]
fn rotation_moves_the_child_up() {
    let mut tree = BinaryTree::new(2)
        .left(BinaryTree::new(1))
        .right(BinaryTree::new(4).left(BinaryTree::new(3)).right(BinaryTree::new(5)));
    tree.paint(Color::Black);
    tree.rotate_left();
    assert_eq!(key(&tree), Some(4));
    assert_eq!(*tree.color(), Color::Red);
    let below = tree.left_tree().unwrap();
    assert_eq!(key(below), Some(2));
    assert_eq!(*below.color(), Color::Black);
    assert_eq!(key(below.left_tree().unwrap()), Some(1));
    assert_eq!(key(below.right_tree().unwrap()), Some(3));
    assert_eq!(key(tree.right_tree().unwrap()), Some(5));
    assert_eq!(walk(&tree), vec![1, 2, 3, 4, 5]);
    tree.rotate_right();
    assert_eq!(key(&tree), Some(2));
    assert_eq!(*tree.color(), Color::Black);
    assert_eq!(key(tree.right_tree().unwrap()), Some(4));
    assert_eq!(key(tree.right_tree().unwrap().left_tree().unwrap()), Some(3));
    assert_eq!(walk(&tree), vec![1, 2, 3, 4, 5]);
}

#[test]
fn rotation_without_a_child_changes_nothing() {
    let mut tree = BinaryTree::new(2).left(BinaryTree::new(1));
    let before = format!("{:?}", tree);
    tree.rotate_left();
    assert_eq!(format!("{:?}", tree), before);
    let mut tree = BinaryTree::new(2).right(BinaryTree::new(3));
    let before = format!("{:?}", tree);
    tree.rotate_right();
    assert_eq!(format!("{:?}", tree), before);
    let mut tree: BinaryTree<i32> = BinaryTree::Sentinel;
    tree.rotate_left();
    tree.rotate_right();
    tree.paint(Color::Red);
    assert!(tree.is_sentinel());
    assert_eq!(*tree.color(), Color::Black);
}

#[test]
fn insert_fix_up_steps() {
    // red uncle: parent and uncle turn black, the grandparent red
    let mut tree = BinaryTree::new(10)
        .left(BinaryTree::new(5).left(BinaryTree::new(2)))
        .right(BinaryTree::new(20));
    tree.paint(Color::Black);
    tree.fix_red_left();
    assert_eq!(key(&tree), Some(10));
    assert_eq!(*tree.color(), Color::Red);
    assert_eq!(*tree.left_tree().unwrap().color(), Color::Black);
    assert_eq!(*tree.right_tree().unwrap().color(), Color::Black);
    // black uncle on the other side: one rotation
    let mut tree = BinaryTree::new(10).right(BinaryTree::new(20).right(BinaryTree::new(30)));
    tree.paint(Color::Black);
    tree.fix_red_right();
    assert_eq!(key(&tree), Some(20));
    assert_eq!(*tree.color(), Color::Black);
    assert_eq!(*tree.left_tree().unwrap().color(), Color::Red);
    assert_eq!(*tree.right_tree().unwrap().color(), Color::Red);
    // nothing to repair
    let mut tree = BinaryTree::new(10).left(BinaryTree::new(5));
    tree.paint(Color::Black);
    let before = format!("{:?}", tree);
    tree.fix_red_left();
    tree.fix_red_right();
    assert_eq!(format!("{:?}", tree), before);
}

fn black(key: i32) -> BinaryTree<i32> {
    let mut node = BinaryTree::new(key);
    node.paint(Color::Black);
    node
}

fn shape(tree: &BinaryTree<i32>) -> String {
    match tree {
        BinaryTree::Sentinel => "-".to_string(),
        BinaryTree::Node { data, left, right, color } => {
            let tag = match color {
                Color::Red => "r",
                Color::Black => "b",
            };
            if left.is_sentinel() && right.is_sentinel() {
                format!("{data}{tag}")
            } else {
                format!("({} {data}{tag} {})", shape(left), shape(right))
            }
        }
    }
}

#[test]
fn black_sibling_with_black_children_turns_red() {
    // under a red node the deficit is absorbed
    let mut tree = BinaryTree::new(2).right(black(3));
    assert!(!tree.fix_black_sibling_left());
    assert_eq!(shape(&tree), "(- 2b 3r)");
    // under a black node it moves up
    let mut tree = black(2).right(black(3));
    assert!(tree.fix_black_sibling_left());
    assert_eq!(shape(&tree), "(- 2b 3r)");
    let mut tree = BinaryTree::new(2).left(black(1));
    assert!(!tree.fix_black_sibling_right());
    assert_eq!(shape(&tree), "(1r 2b -)");
    let mut tree = black(2).left(black(1));
    assert!(tree.fix_black_sibling_right());
    assert_eq!(shape(&tree), "(1r 2b -)");
}

#[test]
fn black_sibling_with_red_far_child_is_rotated_up() {
    let mut tree = black(2).right(black(4).right(BinaryTree::new(5)));
    assert!(!tree.fix_black_sibling_left());
    assert_eq!(shape(&tree), "(2b 4b 5b)");
    // the sibling takes the colour of the node it replaces
    let mut tree = BinaryTree::new(2).right(black(4).left(BinaryTree::new(3)).right(BinaryTree::new(5)));
    assert!(!tree.fix_black_sibling_left());
    assert_eq!(shape(&tree), "((- 2b 3r) 4r 5b)");
    let mut tree = black(5).left(black(3).left(BinaryTree::new(2)));
    assert!(!tree.fix_black_sibling_right());
    assert_eq!(shape(&tree), "(2b 3b 5b)");
    let mut tree = BinaryTree::new(5).left(black(3).left(BinaryTree::new(2)).right(BinaryTree::new(4)));
    assert!(!tree.fix_black_sibling_right());
    assert_eq!(shape(&tree), "(2b 3r (4r 5b -))");
}

#[test]
fn black_sibling_with_red_near_child_is_rotated_twice() {
    let mut tree = black(2).right(black(5).left(BinaryTree::new(4)));
    assert!(!tree.fix_black_sibling_left());
    assert_eq!(shape(&tree), "(2b 4b 5b)");
    let mut tree = black(5).left(black(2).right(BinaryTree::new(3)));
    assert!(!tree.fix_black_sibling_right());
    assert_eq!(shape(&tree), "(2b 3b 5b)");
}

#[test]
fn red_sibling_is_rotated_up_first() {
    let mut tree = black(2).right(BinaryTree::new(6).left(black(4)).right(black(8)));
    assert!(!tree.fix_deficit_left());
    assert_eq!(shape(&tree), "((- 2b 4r) 6b 8b)");
    let mut tree = black(8).left(BinaryTree::new(4).left(black(2)).right(black(6)));
    assert!(!tree.fix_deficit_right());
    assert_eq!(shape(&tree), "(2b 4b (6r 8b -))");
    // with a black sibling the black-sibling cases apply at once
    let mut tree = black(2).right(black(3));
    assert!(tree.fix_deficit_left());
    assert_eq!(shape(&tree), "(- 2b 3r)");
    let mut tree = black(2).left(black(1));
    assert!(tree.fix_deficit_right());
    assert_eq!(shape(&tree), "(1r 2b -)");
}

#[test]
fn unlink_puts_the_child_in_place() {
    let mut tree = BinaryTree::new(1);
    assert!(!tree.unlink());
    assert!(tree.is_sentinel());
    let mut tree = black(1);
    assert!(tree.unlink());
    assert!(tree.is_sentinel());
    let mut tree = black(2).left(BinaryTree::new(1));
    assert!(!tree.unlink());
    assert_eq!(shape(&tree), "1b");
    let mut tree = black(2).right(BinaryTree::new(3));
    assert!(!tree.unlink());
    assert_eq!(shape(&tree), "3b");
    let mut tree = black(2).right(black(3));
    assert!(tree.unlink());
    assert_eq!(shape(&tree), "3b");
    // a node with two real children stays
    let mut tree = black(2).left(BinaryTree::new(1)).right(BinaryTree::new(3));
    assert!(!tree.unlink());
    assert_eq!(shape(&tree), "(1r 2b 3r)");
    let mut tree: BinaryTree<i32> = BinaryTree::Sentinel;
    assert!(!tree.unlink());
    assert!(tree.is_sentinel());
}

#[test]
fn take_min_hands_out_the_least_key() {
    let mut tree = grown(&[10, 5, 20, 2, 7, 25]);
    let mut slot = 0;
    let deficit = tree.take_min(&mut slot);
    assert_eq!(slot, 2);
    assert!(!deficit);
    assert_eq!(walk(&tree), vec![5, 7, 10, 20, 25]);
    assert_eq!(shape(&tree), "((- 5b 7r) 10b (- 20b 25r))");
    let mut tree = black(4);
    assert!(tree.take_min(&mut slot));
    assert_eq!(slot, 4);
    assert!(tree.is_sentinel());
    // nothing to take
    slot = 9;
    assert!(!tree.take_min(&mut slot));
    assert_eq!(slot, 9);
}

#[test]
fn remove_root_by_way_of_the_successor() {
    let mut tree = grown(&[10, 5, 20, 2, 7, 25]);
    assert!(!tree.remove_root());
    assert_eq!(shape(&tree), "((2r 5b 7r) 20b 25b)");
    // the successor was a black leaf: the right side comes out short
    let mut tree = grown(&[2, 1, 3]);
    tree.paint_left(Color::Black);
    tree.paint_right(Color::Black);
    assert!(tree.remove_root());
    assert_eq!(shape(&tree), "(1r 3b -)");
    let mut tree = black(2).left(BinaryTree::new(1));
    assert!(!tree.remove_root());
    assert_eq!(shape(&tree), "1b");
}

#[test]
fn steps_below_a_position() {
    let mut tree = black(2);
    assert!(tree.insert_at(1));
    assert!(tree.insert_at(3));
    assert!(!tree.insert_at(3));
    assert_eq!(shape(&tree), "(1r 2b 3r)");
    assert!(tree.insert_at(4));
    // the red uncle was recoloured, and the root is left red for the caller
    assert_eq!(shape(&tree), "(1b 2r (- 3b 4r))");
    assert!(!tree.remove_at(9));
    assert!(!tree.remove_at(4));
    assert_eq!(shape(&tree), "(1b 2r 3b)");
    assert!(!tree.remove_at(1));
    assert_eq!(shape(&tree), "(- 2b 3r)");
}

#[test]
fn removal_walks_through_the_fix_up() {
    let mut tree = grown(&[4, 2, 6, 1, 3, 5, 7, 8]);
    assert_eq!(shape(&tree), "((1r 2b 3r) 4b (5b 6r (- 7b 8r)))");
    // a black leaf whose black sibling has a red far child
    tree.remove(5);
    assert_eq!(shape(&tree), "((1r 2b 3r) 4b (6b 7r 8b))");
    // a black leaf under a red node, the sibling's children black: the sibling turns red
    tree.remove(6);
    assert_eq!(shape(&tree), "((1r 2b 3r) 4b (- 7b 8r))");
    // the root leaves by way of its successor, whose red child turns black
    tree.remove(4);
    assert_eq!(shape(&tree), "((1r 2b 3r) 7b 8b)");
    // the mirror image of the first step
    tree.remove(8);
    assert_eq!(shape(&tree), "(1b 2b (3r 7b -))");
    // a black leaf whose black sibling has a red near child only
    tree.remove(1);
    assert_eq!(shape(&tree), "(2b 3b 7b)");
    // black leaf, black sibling, black parent: the deficit reaches the root
    tree.remove(2);
    assert_eq!(shape(&tree), "(- 3b 7r)");
    tree.remove(3);
    assert_eq!(shape(&tree), "7b");
    tree.remove(7);
    assert_eq!(shape(&tree), "-");
}

#[test]
fn is_ascending_on_plain_keys() {
    let (a, b, c) = (1, 2, 3);
    assert!(rb_tree::inspect::is_ascending::<i32>(&vec![]));
    assert!(rb_tree::inspect::is_ascending(&vec![&a]));
    assert!(rb_tree::inspect::is_ascending(&vec![&a, &b, &c]));
    assert!(!rb_tree::inspect::is_ascending(&vec![&a, &c, &b]));
    assert!(!rb_tree::inspect::is_ascending(&vec![&a, &a]));
    assert!(rb_tree::inspect::sorts_before(&a, &b));
    assert!(!rb_tree::inspect::sorts_before(&b, &a));
    assert!(!rb_tree::inspect::sorts_before(&b, &b));
}

#[test]
fn validate_tells_what_is_wrong() {
    // out of order
    let mut tree = BinaryTree::new(1).left(BinaryTree::new(2));
    tree.paint(Color::Black);
    assert!(!tree.validate());
    // red child under a red node
    let mut tree = BinaryTree::new(3).left(BinaryTree::new(2).left(BinaryTree::new(1)));
    tree.paint(Color::Black);
    assert!(!tree.validate());
    // one path with more black nodes than the other
    let mut low = BinaryTree::new(1);
    low.paint(Color::Black);
    let mut tree = BinaryTree::new(2).left(low);
    tree.paint(Color::Black);
    assert!(!tree.validate());
    assert_eq!(tree.black_height(), 2);
    assert_eq!(tree.height(), 2);
    // in order, black root, red leaves
    let mut tree = BinaryTree::new(2).left(BinaryTree::new(1)).right(BinaryTree::new(3));
    tree.paint(Color::Black);
    assert!(tree.validate());
}

#[test]
fn keys_of_another_type() {
    let mut tree = BinaryTree::Sentinel;
    for word in ["pear", "apple", "fig", "plum", "cherry"] {
        tree.insert(word.to_string());
    }
    tree.remove("fig".to_string());
    let words: Vec<&str> = tree.traverse().into_iter().map(|w| w.as_str()).collect();
    assert_eq!(words, vec!["apple", "cherry", "pear", "plum"]);
    assert!(tree.contains("pear".to_string()));
    assert!(!tree.contains("fig".to_string()));
    assert!(tree.validate());
}
