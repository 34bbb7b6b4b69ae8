use rope::cursor::{Rope, Simul};
use rope::tree::Tree;

// After a run of combined steps, the checkpoint is the lead from just before
// the most recent Advance-tagged step.
#[test]
fn test_anchor_follows_last_advance() {
    let mut rope = Rope::new(0);
    rope.advance_simul(Simul::Hold(1));
    rope.advance_simul(Simul::Advance(2));
    rope.advance_simul(Simul::Hold(3));
    rope.advance_simul(Simul::Advance(4));
    rope.advance_simul(Simul::Hold(5));
    // The last Advance moved the lead from 3 to 4, so the checkpoint is 3.
    assert_eq!(rope.get_anchor(), 3);
    assert_eq!(rope.get_lead(), 5);
}

// With no Advance-tagged step the checkpoint stays at the root.
#[test]
fn test_anchor_stays_at_root() {
    let mut rope = Rope::new(7);
    rope.advance_simul(Simul::Hold(8));
    rope.advance_simul(Simul::Hold(9));
    assert_eq!(rope.get_anchor(), 7);
    assert_eq!(rope.get_lead(), 9);
}

// Rewinding right after a checkpoint leaves the lead where it was, and
// rewinding twice is the same as rewinding once.
#[test]
fn test_checkpoint_rewind() {
    let mut rope = Rope::new(0);
    rope.advance(3);
    rope.anchor();
    rope.fall();
    assert_eq!(rope.get_lead(), 3);
    assert_eq!(rope.get_anchor(), 3);

    let mut other = Rope::new(0);
    other.advance(4);
    other.anchor();
    other.advance(9);
    other.fall();
    let once = (other.get_anchor(), other.get_lead());
    other.fall();
    assert_eq!((other.get_anchor(), other.get_lead()), once);
}

// Consuming the cursor hands back one position and ends the walk.
#[test]
fn test_consume() {
    let mut rope = Rope::new(1);
    rope.advance(2);
    rope.anchor();
    rope.advance(5);
    assert_eq!(rope.into_lead(), 5);

    let mut other = Rope::new(1);
    other.advance(2);
    other.anchor();
    other.advance(5);
    assert_eq!(other.into_anchor(), 2);
}

// At most one exclusive path into the structure exists at a time: the cursor
// holds plain indices, every access goes through the arena, and the borrow
// checker refuses a shared view of the arena held across a write. The lines
// below must not compile:
//
//     let mut tree = Tree::new();
//     let root = tree.add_leaf(0);
//     let rope = Rope::new(root);
//     let view = &tree;
//     tree.set_value(rope.get_lead(), 1);
//     assert_eq!(view.value(root), 0);
#[test]
fn test_unsound() {
    let mut tree = Tree::new();
    let root = tree.add_leaf(0);
    let rope = Rope::new(root);
    tree.set_value(rope.get_lead(), 1);
    assert_eq!(tree.value(root), 1);
}

// A step hands back the next position as a plain index, so no closure exists
// through which a reference to a never-visited sibling region could leak into
// an outer variable; and exclusive access to the arena cannot be stashed
// across later uses of the arena. The lines below must not compile:
//
//     let mut tree = Tree::new();
//     let root = tree.add_leaf(0);
//     let rope = Rope::new(root);
//     let stash = &mut tree;
//     let at = rope.into_anchor();
//     tree.set_value(at, 1);
//     stash.set_value(at, 2);
#[test]
fn test_unsound_2() {
    let mut tree = Tree::new();
    let root = tree.add_leaf(0);
    let rope = Rope::new(root);
    let at = rope.into_anchor();
    tree.set_value(at, 2);
    assert_eq!(tree.value(root), 2);
}
