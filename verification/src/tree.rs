//! Arena-allocated binary tree: nodes live in a flat table and refer to their
//! children by index. Every child index is strictly greater than the index of
//! its parent, which rules out cycles and gives every walk down the tree a
//! termination measure.

use vstd::prelude::*;

verus! {

/// One step direction through a binary tree.
#[derive(Clone, Copy, PartialEq, Eq, Structural, Debug)]
pub enum Direction {
    Left,
    Right,
}

/// One node of the arena: a value and the indices of the children, if present.
#[derive(Clone, Copy, Debug)]
pub struct Node {
    pub value: u8,
    pub left: Option<usize>,
    pub right: Option<usize>,
}

/// The child index of `n` in direction `d`, if that child is present.
pub open spec fn child_idx(n: Node, d: Direction) -> Option<usize> {
    match d {
        Direction::Left => n.left,
        Direction::Right => n.right,
    }
}

/// Both children present: the only kind of node a subtree can be detached from.
pub open spec fn has_both(n: Node) -> bool {
    n.left is Some && n.right is Some
}

/// No children at all.
pub open spec fn is_leaf(n: Node) -> bool {
    n.left is None && n.right is None
}

/// The index of the one child of a node with exactly one child.
pub open spec fn single_child(n: Node) -> int {
    match (n.left, n.right) {
        (Option::Some(c), Option::None) => c as int,
        (Option::None, Option::Some(c)) => c as int,
        _ => 0,
    }
}

/// `n` with its child in direction `d` detached.
pub open spec fn remove_child(n: Node, d: Direction) -> Node {
    match d {
        Direction::Left => Node { left: Option::None, ..n },
        Direction::Right => Node { right: Option::None, ..n },
    }
}

/// The node at index `i` refers only to later slots of the table.
pub open spec fn node_wf(t: Seq<Node>, i: int) -> bool {
    &&& (t[i].left is Some ==> i < t[i].left.unwrap() < t.len())
    &&& (t[i].right is Some ==> i < t[i].right.unwrap() < t.len())
}

/// Every node of the table refers only to later slots: child indices are in
/// bounds and strictly increase along every downward walk.
pub open spec fn tree_wf(t: Seq<Node>) -> bool {
    forall|i: int| 0 <= i < t.len() ==> node_wf(t, i)
}

/// The arena. Its view is the sequence of nodes; all contracts are stated over
/// that view.
#[derive(Debug)]
pub struct Tree {
    nodes: Vec<Node>,
}

impl View for Tree {
    type V = Seq<Node>;

    closed spec fn view(&self) -> Seq<Node> {
        self.nodes@
    }
}

impl Tree {
    /// An empty arena.
    pub fn new() -> (t: Tree)
        ensures
            t@ =~= Seq::<Node>::empty(),
    {
        Tree { nodes: Vec::new() }
    }

    pub fn len(&self) -> (n: usize)
        ensures
            n == self@.len(),
    {
        self.nodes.len()
    }

    /// Append a childless node and return its index. Keeps the table
    /// well formed.
    pub fn add_leaf(&mut self, value: u8) -> (i: usize)
        ensures
            i == old(self)@.len(),
            final(self)@ =~= old(self)@.push(Node { value, left: Option::None, right: Option::None }),
            tree_wf(old(self)@) ==> tree_wf(final(self)@),
    {
        let i = self.nodes.len();
        self.nodes.push(Node { value, left: None, right: None });
        proof {
            if tree_wf(old(self)@) {
                assert forall|j: int| 0 <= j < self@.len() implies node_wf(self@, j) by {
                    if j < old(self)@.len() {
                        assert(node_wf(old(self)@, j));
                    }
                }
            }
        }
        i
    }

    /// Point the left child of `i` at the later slot `c`.
    pub fn set_left(&mut self, i: usize, c: usize)
        requires
            i < c < old(self)@.len(),
        ensures
            final(self)@ =~= old(self)@.update(i as int, Node { left: Option::Some(c), ..old(self)@[i as int] }),
            tree_wf(old(self)@) ==> tree_wf(final(self)@),
    {
        let n = self.nodes[i];
        self.nodes.set(i, Node { left: Some(c), ..n });
        proof {
            if tree_wf(old(self)@) {
                assert forall|j: int| 0 <= j < self@.len() implies node_wf(self@, j) by {
                    assert(node_wf(old(self)@, j));
                }
            }
        }
    }

    /// Point the right child of `i` at the later slot `c`.
    pub fn set_right(&mut self, i: usize, c: usize)
        requires
            i < c < old(self)@.len(),
        ensures
            final(self)@ =~= old(self)@.update(i as int, Node { right: Option::Some(c), ..old(self)@[i as int] }),
            tree_wf(old(self)@) ==> tree_wf(final(self)@),
    {
        let n = self.nodes[i];
        self.nodes.set(i, Node { right: Some(c), ..n });
        proof {
            if tree_wf(old(self)@) {
                assert forall|j: int| 0 <= j < self@.len() implies node_wf(self@, j) by {
                    assert(node_wf(old(self)@, j));
                }
            }
        }
    }

    /// Detach the left child of `i`.
    pub fn clear_left(&mut self, i: usize)
        requires
            i < old(self)@.len(),
        ensures
            final(self)@ =~= old(self)@.update(i as int, Node { left: Option::None, ..old(self)@[i as int] }),
            tree_wf(old(self)@) ==> tree_wf(final(self)@),
    {
        let n = self.nodes[i];
        self.nodes.set(i, Node { left: None, ..n });
        proof {
            if tree_wf(old(self)@) {
                assert forall|j: int| 0 <= j < self@.len() implies node_wf(self@, j) by {
                    assert(node_wf(old(self)@, j));
                }
            }
        }
    }

    /// Detach the right child of `i`.
    pub fn clear_right(&mut self, i: usize)
        requires
            i < old(self)@.len(),
        ensures
            final(self)@ =~= old(self)@.update(i as int, Node { right: Option::None, ..old(self)@[i as int] }),
            tree_wf(old(self)@) ==> tree_wf(final(self)@),
    {
        let n = self.nodes[i];
        self.nodes.set(i, Node { right: None, ..n });
        proof {
            if tree_wf(old(self)@) {
                assert forall|j: int| 0 <= j < self@.len() implies node_wf(self@, j) by {
                    assert(node_wf(old(self)@, j));
                }
            }
        }
    }

    pub fn value(&self, i: usize) -> (v: u8)
        requires
            i < self@.len(),
        ensures
            v == self@[i as int].value,
    {
        self.nodes[i].value
    }

    pub fn set_value(&mut self, i: usize, v: u8)
        requires
            i < old(self)@.len(),
        ensures
            final(self)@ =~= old(self)@.update(i as int, Node { value: v, ..old(self)@[i as int] }),
            tree_wf(old(self)@) ==> tree_wf(final(self)@),
    {
        let n = self.nodes[i];
        self.nodes.set(i, Node { value: v, ..n });
        proof {
            if tree_wf(old(self)@) {
                assert forall|j: int| 0 <= j < self@.len() implies node_wf(self@, j) by {
                    assert(node_wf(old(self)@, j));
                }
            }
        }
    }

    pub fn left(&self, i: usize) -> (c: Option<usize>)
        requires
            i < self@.len(),
        ensures
            c == self@[i as int].left,
    {
        self.nodes[i].left
    }

    pub fn right(&self, i: usize) -> (c: Option<usize>)
        requires
            i < self@.len(),
        ensures
            c == self@[i as int].right,
    {
        self.nodes[i].right
    }
}

/// The subtrees rooted at `a[i]` and `b[j]` have the same shape and the same
/// values, child indices aside.
pub open spec fn same_tree(a: Seq<Node>, i: int, b: Seq<Node>, j: int) -> bool
    decreases a.len() - i,
{
    if !(0 <= i < a.len() && 0 <= j < b.len()) {
        false
    } else {
        &&& a[i].value == b[j].value
        &&& (match (a[i].left, b[j].left) {
            (Option::None, Option::None) => true,
            (Option::Some(ca), Option::Some(cb)) => i < ca < a.len() && same_tree(
                a,
                ca as int,
                b,
                cb as int,
            ),
            _ => false,
        })
        &&& (match (a[i].right, b[j].right) {
            (Option::None, Option::None) => true,
            (Option::Some(ca), Option::Some(cb)) => i < ca < a.len() && same_tree(
                a,
                ca as int,
                b,
                cb as int,
            ),
            _ => false,
        })
    }
}

/// Structural comparison of the subtrees rooted at `a[i]` and `b[j]`:
/// the same shape and the same values, whatever slots the nodes occupy.
pub fn tree_eq(a: &Tree, i: usize, b: &Tree, j: usize) -> (r: bool)
    requires
        tree_wf(a@),
        i < a@.len(),
    ensures
        r == same_tree(a@, i as int, b@, j as int),
    decreases a@.len() - i,
{
    if j >= b.len() {
        return false;
    }
    if a.value(i) != b.value(j) {
        return false;
    }
    proof {
        assert(node_wf(a@, i as int));
    }
    let left_ok = match (a.left(i), b.left(j)) {
        (None, None) => true,
        (Some(ca), Some(cb)) => tree_eq(a, ca, b, cb),
        _ => false,
    };
    if !left_ok {
        return false;
    }
    let right_ok = match (a.right(i), b.right(j)) {
        (None, None) => true,
        (Some(ca), Some(cb)) => tree_eq(a, ca, b, cb),
        _ => false,
    };
    right_ok
}

} // verus!
