use rope::tree::{tree_eq, Direction, Tree};
use rope::walk::{directions_from_bits, needs_prune, prune_or_increment, prune_or_increment_safe};

fn directions_example() -> Vec<Direction> {
    directions_from_bits(0b1101, 5)
}

/// The example tree: the node five levels deep along the example path is
/// either a leaf with value 5 (`final_branch == false`) or a node with value
/// `final_value` and two leaf children of value 6.
fn create_tree_example(final_branch: bool, final_value: u8) -> (Tree, usize) {
    let mut t = Tree::new();
    let root = t.add_leaf(0);
    let left_leaf = t.add_leaf(1);
    let a = t.add_leaf(1);
    let b = t.add_leaf(2);
    let c = t.add_leaf(3);
    let d = t.add_leaf(4);
    let e = t.add_leaf(if final_branch { final_value } else { 5 });
    t.set_left(root, left_leaf);
    t.set_right(root, a);
    t.set_left(a, b);
    t.set_right(b, c);
    t.set_right(c, d);
    t.set_left(d, e);
    if final_branch {
        let e_left = t.add_leaf(6);
        let e_right = t.add_leaf(6);
        t.set_left(e, e_left);
        t.set_right(e, e_right);
    }
    (t, root)
}

#[test]
fn test_directions_from_bits() {
    assert_eq!(
        directions_example(),
        vec![
            Direction::Right,
            Direction::Left,
            Direction::Right,
            Direction::Right,
            Direction::Left,
        ]
    )
}

#[test]
fn test_prune() {
    let (mut tree, root) = create_tree_example(false, 5);
    let path = directions_example();
    prune_or_increment(&mut tree, root, &path);
    let mut expected = Tree::new();
    let expected_root = expected.add_leaf(0);
    let expected_left = expected.add_leaf(1);
    expected.set_left(expected_root, expected_left);
    assert!(tree_eq(&tree, root, &expected, expected_root));
}

#[test]
fn test_prune_safe() {
    let (mut tree, root) = create_tree_example(false, 5);
    let path = directions_example();
    prune_or_increment_safe(&mut tree, root, &path);
    let mut expected = Tree::new();
    let expected_root = expected.add_leaf(0);
    let expected_left = expected.add_leaf(1);
    expected.set_left(expected_root, expected_left);
    assert!(tree_eq(&tree, root, &expected, expected_root));
}

#[test]
fn test_increment() {
    let (mut tree, root) = create_tree_example(true, 5);
    let path = directions_example();
    prune_or_increment(&mut tree, root, &path);
    let (expected, expected_root) = create_tree_example(true, 6);
    assert!(tree_eq(&tree, root, &expected, expected_root));
}

#[test]
fn test_increment_safe() {
    let (mut tree, root) = create_tree_example(true, 5);
    let path = directions_example();
    prune_or_increment(&mut tree, root, &path);
    let (expected, expected_root) = create_tree_example(true, 6);
    assert!(tree_eq(&tree, root, &expected, expected_root));
}

// The two walks agree on every tree and every path: both are proved to
// compute the recursive reference formulation. One more concrete check.
#[test]
fn test_walks_agree() {
    let (mut by_cursor, root_a) = create_tree_example(false, 5);
    let (mut by_recursion, root_b) = create_tree_example(false, 5);
    let path = directions_from_bits(0b01, 2);
    prune_or_increment(&mut by_cursor, root_a, &path);
    prune_or_increment_safe(&mut by_recursion, root_b, &path);
    assert!(tree_eq(&by_cursor, root_a, &by_recursion, root_b));
}

// An empty path records no prune direction, so even a prune-warranting
// resolution leaves the tree untouched when the root has a single-child
// chain.
#[test]
fn test_empty_path_no_prune() {
    let mut tree = Tree::new();
    let root = tree.add_leaf(7);
    let child = tree.add_leaf(8);
    tree.set_left(root, child);
    let path: Vec<Direction> = directions_from_bits(0, 0);
    prune_or_increment(&mut tree, root, &path);
    let (expected, expected_root) = {
        let mut t = Tree::new();
        let r = t.add_leaf(7);
        let c = t.add_leaf(8);
        t.set_left(r, c);
        (t, r)
    };
    assert!(tree_eq(&tree, root, &expected, expected_root));
}

// An empty path on a two-child root increments the root.
#[test]
fn test_empty_path_increment() {
    let mut tree = Tree::new();
    let root = tree.add_leaf(7);
    let l = tree.add_leaf(1);
    let r = tree.add_leaf(2);
    tree.set_left(root, l);
    tree.set_right(root, r);
    let path: Vec<Direction> = directions_from_bits(0, 0);
    prune_or_increment(&mut tree, root, &path);
    assert_eq!(tree.value(root), 8);
    assert_eq!(tree.value(l), 1);
    assert_eq!(tree.value(r), 2);
}

// The resolution phase alone: a single-child chain down to a leaf warrants a
// prune and mutates nothing; a chain into a two-child node increments it.
#[test]
fn test_needs_prune() {
    let mut chain = Tree::new();
    let top = chain.add_leaf(1);
    let mid = chain.add_leaf(2);
    let bottom = chain.add_leaf(3);
    chain.set_right(top, mid);
    chain.set_left(mid, bottom);
    assert!(needs_prune(&mut chain, top));
    assert_eq!(chain.value(top), 1);
    assert_eq!(chain.value(mid), 2);
    assert_eq!(chain.value(bottom), 3);

    let mut branch = Tree::new();
    let top2 = branch.add_leaf(1);
    let fork = branch.add_leaf(9);
    let l = branch.add_leaf(0);
    let r = branch.add_leaf(0);
    branch.set_left(top2, fork);
    branch.set_left(fork, l);
    branch.set_right(fork, r);
    assert!(!needs_prune(&mut branch, top2));
    assert_eq!(branch.value(fork), 10);
    assert_eq!(branch.value(top2), 1);
}

// Pruning past the end of the path: the path stops inside a single-child run
// whose last two-child ancestor sits on the path, and the whole run below it
// goes away.
#[test]
fn test_prune_past_path_end() {
    let mut tree = Tree::new();
    let root = tree.add_leaf(0);
    let keeper = tree.add_leaf(1);
    let chain_top = tree.add_leaf(2);
    let chain_mid = tree.add_leaf(3);
    let chain_leaf = tree.add_leaf(4);
    tree.set_left(root, keeper);
    tree.set_right(root, chain_top);
    tree.set_right(chain_top, chain_mid);
    tree.set_left(chain_mid, chain_leaf);
    // Path of length one: Right, landing on chain_top; the resolution walks
    // on to chain_leaf and the prune detaches from the root.
    let path = directions_from_bits(0b1, 1);
    prune_or_increment(&mut tree, root, &path);
    let mut expected = Tree::new();
    let expected_root = expected.add_leaf(0);
    let expected_keeper = expected.add_leaf(1);
    expected.set_left(expected_root, expected_keeper);
    assert!(tree_eq(&tree, root, &expected, expected_root));
}

// Direction formula edge values: all-zero bits go left, all-one bits go
// right, and only the requested number of bits is read.
#[test]
fn test_directions_edges() {
    assert_eq!(directions_from_bits(0, 3), vec![Direction::Left; 3]);
    assert_eq!(directions_from_bits(0b111, 3), vec![Direction::Right; 3]);
    assert_eq!(directions_from_bits(usize::MAX, 0), Vec::<Direction>::new());
    assert_eq!(
        directions_from_bits(0b10, 2),
        vec![Direction::Left, Direction::Right]
    );
}
