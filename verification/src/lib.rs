//! A traversal cursor over an arena-allocated binary tree.
//!
//! The cursor ([`cursor::Rope`]) tracks two positions inside one exclusively
//! owned structure: a checkpoint (`anchor`) and a current position (`lead`).
//! Positions are arena indices, so holding the cursor grants no reference into
//! the structure; every read and write goes through the arena itself, which
//! makes the single-ownership discipline structural rather than a caller
//! obligation.
//!
//! The worked example ([`walk::prune_or_increment`]) walks a binary tree along
//! a path of directions and either detaches a dead-end single-child chain from
//! its last two-child ancestor or increments the counter of the branch node
//! the path runs into. It is proved equal to a straightforward recursive
//! formulation of the same walk.

pub mod cursor;
pub mod tree;
pub mod walk;
