//! The worked example that exercises every cursor operation: walk a binary
//! tree along a path of directions and either detach a dead-end single-child
//! chain from its last two-child ancestor, or increment the counter of the
//! branch node the walk runs into.
//!
//! The reference meaning is the recursive formulation [`spec_prune_or_increment`]:
//! recurse to the end of the path, resolve there, and on the way back up
//! detach the path child of the deepest two-child node the prune decision
//! bubbles through. Both the cursor-based walk ([`prune_or_increment`]) and
//! the plain recursive walk ([`prune_or_increment_safe`]) are proved to
//! produce exactly that tree.

use vstd::prelude::*;

use crate::cursor::{Rope, Simul};
use crate::tree::{
    child_idx, has_both, is_leaf, node_wf, remove_child, single_child, tree_wf, Direction, Node,
    Tree,
};

verus! {

/// Every direction of `path`, walked from node `i`, finds its child present.
pub open spec fn path_valid(t: Seq<Node>, i: int, path: Seq<Direction>) -> bool
    decreases path.len(),
{
    path.len() == 0 || (match child_idx(t[i], path[0]) {
        Option::Some(c) => path_valid(t, c as int, path.skip(1)),
        Option::None => false,
    })
}

/// The node the path ends on, walked from node `i`.
pub open spec fn path_end(t: Seq<Node>, i: int, path: Seq<Direction>) -> int
    decreases path.len(),
{
    if path.len() == 0 {
        i
    } else {
        match child_idx(t[i], path[0]) {
            Option::Some(c) => path_end(t, c as int, path.skip(1)),
            Option::None => i,
        }
    }
}

/// The node the resolution phase stops on, from node `i`: the first node down
/// the single-child chain that has zero or two children.
pub open spec fn resolve_end(t: Seq<Node>, i: int) -> int
    decreases t.len() - i,
{
    if !(0 <= i < t.len()) {
        i
    } else if is_leaf(t[i]) || has_both(t[i]) {
        i
    } else {
        let c = single_child(t[i]);
        if i < c < t.len() {
            resolve_end(t, c)
        } else {
            i
        }
    }
}

/// The resolution phase from node `i`: follow the single-child chain; on a
/// leaf report that a prune is warranted, on a two-child node increment its
/// value and report that none is.
pub open spec fn spec_resolve(t: Seq<Node>, i: int) -> (Seq<Node>, bool)
    decreases t.len() - i,
{
    if !(0 <= i < t.len()) {
        (t, true)
    } else if is_leaf(t[i]) {
        (t, true)
    } else if has_both(t[i]) {
        (t.update(i, Node { value: (t[i].value + 1) as u8, ..t[i] }), false)
    } else {
        let c = single_child(t[i]);
        if i < c < t.len() {
            spec_resolve(t, c)
        } else {
            (t, true)
        }
    }
}

/// The step of the walk phase that last pulled the checkpoint up, if any:
/// the deepest node `a` on the path (with its outgoing direction `d`) such
/// that `a` has both children and its path child has fewer than two.
pub open spec fn last_advance(t: Seq<Node>, l: int, path: Seq<Direction>) -> Option<(int, Direction)>
    decreases path.len(),
{
    if path.len() == 0 {
        Option::None
    } else {
        let d = path[0];
        match child_idx(t[l], d) {
            Option::Some(c) => {
                match last_advance(t, c as int, path.skip(1)) {
                    Option::Some(ad) => Option::Some(ad),
                    Option::None => {
                        if has_both(t[l]) && !has_both(t[c as int]) {
                            Option::Some((l, d))
                        } else {
                            Option::None
                        }
                    }
                }
            }
            Option::None => Option::None,
        }
    }
}

/// The recursive reference formulation of the whole walk, in post order:
/// follow the path down, resolve at its end, and while the prune decision
/// bubbles back up, detach the path child of the first node met that has both
/// children. The second component is the still-bubbling prune decision.
pub open spec fn spec_prune_or_increment(t: Seq<Node>, i: int, path: Seq<Direction>) -> (
    Seq<Node>,
    bool,
)
    decreases path.len(),
{
    if path.len() == 0 {
        spec_resolve(t, i)
    } else {
        match child_idx(t[i], path[0]) {
            Option::Some(c) => {
                let r = spec_prune_or_increment(t, c as int, path.skip(1));
                if r.1 {
                    if has_both(r.0[i]) {
                        (r.0.update(i, remove_child(r.0[i], path[0])), false)
                    } else {
                        (r.0, true)
                    }
                } else {
                    r
                }
            }
            Option::None => (t, false),
        }
    }
}

/// The one machine limit of the walk: if the resolution phase ends on a
/// two-child node, its counter must have room to go up by one.
pub open spec fn increment_fits(t: Seq<Node>, i: int, path: Seq<Direction>) -> bool {
    let e = resolve_end(t, path_end(t, i, path));
    has_both(t[e]) ==> t[e].value < u8::MAX
}

/// Where the resolution phase stops and what it does there: it stops on
/// `resolve_end`, a node with zero or two children; on a leaf it leaves the
/// tree alone and warrants a prune, on a two-child node it increments that
/// node's value and withdraws the prune.
pub proof fn lemma_resolve_props(t: Seq<Node>, i: int)
    requires
        tree_wf(t),
        0 <= i < t.len(),
    ensures
        ({
            let e = resolve_end(t, i);
            let r = spec_resolve(t, i);
            &&& i <= e < t.len()
            &&& (has_both(t[e]) ==> r == (
                t.update(e, Node { value: (t[e].value + 1) as u8, ..t[e] }),
                false,
            ))
            &&& (!has_both(t[e]) ==> is_leaf(t[e]) && r == (t, true))
        }),
    decreases t.len() - i,
{
    assert(node_wf(t, i));
    if is_leaf(t[i]) || has_both(t[i]) {
    } else {
        let c = single_child(t[i]);
        assert(i < c < t.len());
        lemma_resolve_props(t, c);
    }
}

/// Bounds and meaning of the walk-phase bookkeeping along a valid path: the
/// path ends inside the table, no earlier than where it starts, and the last
/// advance point, if any, is a node on the path with both children whose path
/// child is present and has fewer than two.
pub proof fn lemma_path_props(t: Seq<Node>, l: int, path: Seq<Direction>)
    requires
        tree_wf(t),
        0 <= l < t.len(),
        path_valid(t, l, path),
    ensures
        l <= path_end(t, l, path) < t.len(),
        ({
            match last_advance(t, l, path) {
                Option::Some((a, d)) => {
                    &&& l <= a < t.len()
                    &&& has_both(t[a])
                    &&& child_idx(t[a], d) is Some
                    &&& !has_both(t[child_idx(t[a], d).unwrap() as int])
                },
                Option::None => true,
            }
        }),
    decreases path.len(),
{
    if path.len() == 0 {
    } else {
        let d = path[0];
        let c = child_idx(t[l], d).unwrap() as int;
        assert(node_wf(t, l));
        lemma_path_props(t, c, path.skip(1));
    }
}

/// The crux: the cursor-based composition — walk the path recording the last
/// advance point, resolve from the path's end, then detach at the recorded
/// point if the resolution warranted a prune — computes exactly the recursive
/// reference formulation.
pub proof fn lemma_walk_matches_recursive(t: Seq<Node>, l: int, path: Seq<Direction>)
    requires
        tree_wf(t),
        0 <= l < t.len(),
        path_valid(t, l, path),
    ensures
        ({
            let e = path_end(t, l, path);
            let r = spec_resolve(t, e);
            let p = spec_prune_or_increment(t, l, path);
            &&& (!r.1 ==> p == (r.0, false))
            &&& (r.1 ==> match last_advance(t, l, path) {
                Option::Some((a, d)) => p == (t.update(a, remove_child(t[a], d)), false),
                Option::None => p == (t, true) && !has_both(t[l]),
            })
        }),
    decreases path.len(),
{
    let e = path_end(t, l, path);
    let r = spec_resolve(t, e);
    if path.len() == 0 {
        assert(e == l);
        lemma_resolve_props(t, l);
        if r.1 {
            let re = resolve_end(t, l);
            if has_both(t[re]) {
                assert(!r.1);
            }
            assert(!has_both(t[re]));
            assert(!has_both(t[l])) by {
                if has_both(t[l]) {
                    assert(resolve_end(t, l) == l);
                }
            }
        }
    } else {
        let d = path[0];
        let c = child_idx(t[l], d).unwrap() as int;
        assert(node_wf(t, l));
        lemma_walk_matches_recursive(t, c, path.skip(1));
        assert(path_end(t, c, path.skip(1)) == e);
        let rr = spec_prune_or_increment(t, c, path.skip(1));
        lemma_path_props(t, c, path.skip(1));
        if !r.1 {
            assert(rr == (r.0, false));
            assert(spec_prune_or_increment(t, l, path) == rr);
        } else {
            match last_advance(t, c, path.skip(1)) {
                Option::Some((a, d0)) => {
                    assert(rr == (t.update(a, remove_child(t[a], d0)), false));
                    assert(spec_prune_or_increment(t, l, path) == rr);
                    assert(last_advance(t, l, path) == Option::Some((a, d0)));
                }
                Option::None => {
                    assert(rr == (t, true));
                    assert(!has_both(t[c]));
                    if has_both(t[l]) {
                        assert(last_advance(t, l, path) == Option::Some((l, d)));
                        assert(spec_prune_or_increment(t, l, path) == (
                            t.update(l, remove_child(t[l], d)),
                            false,
                        ));
                    } else {
                        assert(last_advance(t, l, path) is None);
                        assert(spec_prune_or_increment(t, l, path) == (t, true));
                    }
                }
            }
        }
    }
}

/// The directions encoded by the low-order bits of `bits`, least significant
/// first, one per level: an even bit goes left, an odd bit goes right.
pub open spec fn spec_directions(bits: nat, depth: nat) -> Seq<Direction>
    decreases depth,
{
    if depth == 0 {
        Seq::empty()
    } else {
        seq![
            if bits % 2 == 0 {
                Direction::Left
            } else {
                Direction::Right
            },
        ] + spec_directions(bits / 2, (depth - 1) as nat)
    }
}

/// Derive a path from an integer: read `depth` low-order bits, least
/// significant first, mapping an even bit to `Left` and an odd one to
/// `Right`.
pub fn directions_from_bits(bits: usize, depth: u8) -> (dirs: Vec<Direction>)
    ensures
        dirs@ == spec_directions(bits as nat, depth as nat),
{
    let mut dirs: Vec<Direction> = Vec::new();
    let mut rest = bits;
    let mut level: u8 = 0;
    while level < depth
        invariant
            level <= depth,
            dirs@ + spec_directions(rest as nat, (depth - level) as nat) == spec_directions(
                bits as nat,
                depth as nat,
            ),
        decreases depth - level,
    {
        let ghost before = dirs@;
        let ghost rest0 = rest as nat;
        let d = if rest % 2 == 0 {
            Direction::Left
        } else {
            Direction::Right
        };
        dirs.push(d);
        rest = rest / 2;
        level = level + 1;
        proof {
            assert(spec_directions(rest0, (depth - level + 1) as nat) == seq![d]
                + spec_directions(rest as nat, (depth - level) as nat));
            assert(dirs@ + spec_directions(rest as nat, (depth - level) as nat) =~= before
                + spec_directions(rest0, (depth - level + 1) as nat));
        }
    }
    proof {
        assert(dirs@ + spec_directions(rest as nat, 0) =~= dirs@);
    }
    dirs
}

/// The cursor-based walk. Phase one follows `path` with combined steps,
/// letting the checkpoint catch up whenever the current node has both
/// children and the path child has fewer than two. Phase two descends from
/// the path's end through the single-child chain and either finds a leaf (a
/// prune is warranted) or a two-child node (its value goes up by one and no
/// prune happens). Phase three, when a prune is warranted and a checkpoint
/// was recorded, consumes the cursor into the checkpoint and detaches the
/// recorded child there.
///
/// The result is exactly the recursive reference formulation
/// [`spec_prune_or_increment`].
pub fn prune_or_increment(tree: &mut Tree, root: usize, path: &Vec<Direction>)
    requires
        tree_wf(old(tree)@),
        root < old(tree)@.len(),
        path_valid(old(tree)@, root as int, path@),
        increment_fits(old(tree)@, root as int, path@),
    ensures
        final(tree)@ == spec_prune_or_increment(old(tree)@, root as int, path@).0,
        tree_wf(final(tree)@),
{
    let ghost t0 = tree@;
    proof {
        assert(path@.skip(0) =~= path@);
    }
    let mut rope = Rope::new(root);
    let mut prune_direction: Option<Direction> = None;
    let mut j: usize = 0;
    while j < path.len()
        invariant
            tree@ == t0,
            tree_wf(t0),
            root < t0.len(),
            j <= path@.len(),
            rope.lead_pos() < t0.len(),
            path_valid(t0, rope.lead_pos() as int, path@.skip(j as int)),
            path_end(t0, root as int, path@) == path_end(
                t0,
                rope.lead_pos() as int,
                path@.skip(j as int),
            ),
            last_advance(t0, root as int, path@) == (match last_advance(
                t0,
                rope.lead_pos() as int,
                path@.skip(j as int),
            ) {
                Option::Some(ad) => Option::Some(ad),
                Option::None => match prune_direction {
                    Option::Some(d) => Option::Some((rope.anchor_pos() as int, d)),
                    Option::None => Option::<(int, Direction)>::None,
                },
            }),
        decreases path@.len() - j,
    {
        let ghost lead0 = rope.lead_pos() as int;
        let ghost suffix = path@.skip(j as int);
        proof {
            assert(suffix.len() > 0);
            assert(suffix[0] == path@[j as int]);
            assert(suffix.skip(1) =~= path@.skip(j as int + 1));
        }
        let d = path[j];
        let lead = rope.get_lead();
        let c_opt = match d {
            Direction::Left => tree.left(lead),
            Direction::Right => tree.right(lead),
        };
        proof {
            assert(c_opt == child_idx(t0[lead0], d));
        }
        let c = c_opt.unwrap();
        proof {
            assert(node_wf(t0, lead0));
            assert(c < t0.len());
        }
        let both_here = tree.left(lead).is_some() && tree.right(lead).is_some();
        let both_child = tree.left(c).is_some() && tree.right(c).is_some();
        if both_here && !both_child {
            prune_direction = Some(d);
            rope.advance_simul(Simul::Advance(c));
        } else {
            rope.advance_simul(Simul::Hold(c));
        }
        j = j + 1;
    }
    proof {
        assert(path@.skip(path@.len() as int) =~= Seq::<Direction>::empty());
    }
    let ghost e0 = path_end(t0, root as int, path@);
    let ghost a1 = rope.anchor_pos();
    proof {
        lemma_path_props(t0, root as int, path@);
    }
    let mut prune = true;
    loop
        invariant_except_break
            tree@ == t0,
            prune,
        invariant
            tree_wf(t0),
            0 <= e0 < t0.len(),
            rope.anchor_pos() == a1,
            rope.lead_pos() < t0.len(),
            resolve_end(t0, rope.lead_pos() as int) == resolve_end(t0, e0),
            spec_resolve(t0, rope.lead_pos() as int) == spec_resolve(t0, e0),
            has_both(t0[resolve_end(t0, e0)]) ==> t0[resolve_end(t0, e0)].value < u8::MAX,
        ensures
            rope.anchor_pos() == a1,
            spec_resolve(t0, e0) == (tree@, prune),
            prune ==> tree@ == t0,
            tree_wf(tree@),
        decreases t0.len() - rope.lead_pos(),
    {
        let lead = rope.get_lead();
        let lo = tree.left(lead);
        let ro = tree.right(lead);
        if lo.is_none() && ro.is_none() {
            proof {
                assert(spec_resolve(t0, lead as int) == (t0, true));
            }
            break;
        } else if lo.is_some() && ro.is_some() {
            proof {
                assert(resolve_end(t0, lead as int) == lead as int);
                assert(t0[lead as int].value < u8::MAX);
                assert(spec_resolve(t0, lead as int) == (
                    t0.update(
                        lead as int,
                        Node { value: (t0[lead as int].value + 1) as u8, ..t0[lead as int] },
                    ),
                    false,
                ));
            }
            let v = tree.value(lead);
            tree.set_value(lead, v + 1);
            prune = false;
            proof {
                assert(tree@ == spec_resolve(t0, e0).0);
            }
            break;
        } else {
            let c = if lo.is_some() {
                lo.unwrap()
            } else {
                ro.unwrap()
            };
            proof {
                assert(node_wf(t0, lead as int));
                assert(single_child(t0[lead as int]) == c as int);
                assert(lead < c < t0.len());
                assert(spec_resolve(t0, lead as int) == spec_resolve(t0, c as int));
                assert(resolve_end(t0, lead as int) == resolve_end(t0, c as int));
            }
            rope.advance(c);
        }
    }
    proof {
        lemma_walk_matches_recursive(t0, root as int, path@);
    }
    if prune {
        match prune_direction {
            Some(d) => {
                let a = rope.into_anchor();
                proof {
                    assert(last_advance(t0, root as int, path@) == Option::Some((a as int, d)));
                    assert(a < t0.len());
                    assert(spec_prune_or_increment(t0, root as int, path@) == (
                        t0.update(a as int, remove_child(t0[a as int], d)),
                        false,
                    ));
                }
                match d {
                    Direction::Left => tree.clear_left(a),
                    Direction::Right => tree.clear_right(a),
                }
                proof {
                    assert(tree@ == spec_prune_or_increment(t0, root as int, path@).0);
                }
            }
            None => {
                proof {
                    assert(last_advance(t0, root as int, path@) is None);
                    assert(spec_prune_or_increment(t0, root as int, path@) == (t0, true));
                }
            }
        }
    } else {
        proof {
            assert(spec_prune_or_increment(t0, root as int, path@) == (tree@, false));
        }
    }
}

/// The resolution phase alone, walking plain indices: follow the single-child
/// chain from `i`; report whether a prune is warranted (a leaf was found), and
/// increment the value of a two-child node that withdraws it.
pub fn needs_prune(tree: &mut Tree, i: usize) -> (b: bool)
    requires
        tree_wf(old(tree)@),
        i < old(tree)@.len(),
        has_both(old(tree)@[resolve_end(old(tree)@, i as int)]) ==> old(tree)@[resolve_end(
            old(tree)@,
            i as int,
        )].value < u8::MAX,
    ensures
        (final(tree)@, b) == spec_resolve(old(tree)@, i as int),
        tree_wf(final(tree)@),
        final(tree)@.len() == old(tree)@.len(),
{
    let ghost t0 = tree@;
    let mut cur = i;
    let b: bool;
    loop
        invariant_except_break
            tree@ == t0,
        invariant
            tree_wf(t0),
            cur < t0.len(),
            resolve_end(t0, cur as int) == resolve_end(t0, i as int),
            spec_resolve(t0, cur as int) == spec_resolve(t0, i as int),
            has_both(t0[resolve_end(t0, i as int)]) ==> t0[resolve_end(t0, i as int)].value
                < u8::MAX,
        ensures
            (tree@, b) == spec_resolve(t0, i as int),
            tree_wf(tree@),
            tree@.len() == t0.len(),
        decreases t0.len() - cur,
    {
        let lo = tree.left(cur);
        let ro = tree.right(cur);
        if lo.is_none() && ro.is_none() {
            proof {
                assert(spec_resolve(t0, cur as int) == (t0, true));
            }
            b = true;
            break;
        } else if lo.is_some() && ro.is_some() {
            proof {
                assert(resolve_end(t0, cur as int) == cur as int);
                assert(t0[cur as int].value < u8::MAX);
                assert(spec_resolve(t0, cur as int) == (
                    t0.update(
                        cur as int,
                        Node { value: (t0[cur as int].value + 1) as u8, ..t0[cur as int] },
                    ),
                    false,
                ));
            }
            let v = tree.value(cur);
            tree.set_value(cur, v + 1);
            b = false;
            proof {
                assert(tree@ == spec_resolve(t0, i as int).0);
            }
            break;
        } else {
            let c = if lo.is_some() {
                lo.unwrap()
            } else {
                ro.unwrap()
            };
            proof {
                assert(node_wf(t0, cur as int));
                assert(single_child(t0[cur as int]) == c as int);
                assert(cur < c < t0.len());
                assert(spec_resolve(t0, cur as int) == spec_resolve(t0, c as int));
                assert(resolve_end(t0, cur as int) == resolve_end(t0, c as int));
            }
            cur = c;
        }
    }
    b
}

/// The recursive walk from `i` along `path[k..]`, mirroring the reference
/// formulation clause by clause: recurse to the path's end, resolve there,
/// and while the prune decision bubbles back up, detach the path child of the
/// first node met that has both children. Returns the still-bubbling
/// decision.
fn prune_or_increment_safe_impl(tree: &mut Tree, i: usize, path: &Vec<Direction>, k: usize) -> (b:
    bool)
    requires
        tree_wf(old(tree)@),
        i < old(tree)@.len(),
        k <= path@.len(),
        path_valid(old(tree)@, i as int, path@.skip(k as int)),
        ({
            let e = resolve_end(old(tree)@, path_end(old(tree)@, i as int, path@.skip(k as int)));
            has_both(old(tree)@[e]) ==> old(tree)@[e].value < u8::MAX
        }),
    ensures
        (final(tree)@, b) == spec_prune_or_increment(old(tree)@, i as int, path@.skip(k as int)),
        tree_wf(final(tree)@),
        final(tree)@.len() == old(tree)@.len(),
    decreases path@.len() - k,
{
    let ghost t0 = tree@;
    let ghost suffix = path@.skip(k as int);
    if k == path.len() {
        proof {
            assert(suffix =~= Seq::<Direction>::empty());
        }
        needs_prune(tree, i)
    } else {
        proof {
            assert(suffix.len() > 0);
            assert(suffix[0] == path@[k as int]);
            assert(suffix.skip(1) =~= path@.skip(k as int + 1));
        }
        let d = path[k];
        let c_opt = match d {
            Direction::Left => tree.left(i),
            Direction::Right => tree.right(i),
        };
        proof {
            assert(c_opt == child_idx(t0[i as int], d));
        }
        let c = c_opt.unwrap();
        proof {
            assert(node_wf(t0, i as int));
            assert(i < c < t0.len());
        }
        let b = prune_or_increment_safe_impl(tree, c, path, k + 1);
        let ghost t1 = tree@;
        proof {
            assert((t1, b) == spec_prune_or_increment(t0, c as int, suffix.skip(1)));
        }
        if b {
            let both = tree.left(i).is_some() && tree.right(i).is_some();
            if both {
                match d {
                    Direction::Left => tree.clear_left(i),
                    Direction::Right => tree.clear_right(i),
                }
                proof {
                    assert(tree@ == t1.update(i as int, remove_child(t1[i as int], d)));
                    assert((tree@, false) == spec_prune_or_increment(t0, i as int, suffix));
                }
                false
            } else {
                proof {
                    assert((t1, true) == spec_prune_or_increment(t0, i as int, suffix));
                }
                true
            }
        } else {
            proof {
                assert((t1, false) == spec_prune_or_increment(t0, i as int, suffix));
            }
            false
        }
    }
}

/// The plain recursive walk, for cross-checking the cursor-based one: both
/// are proved to compute [`spec_prune_or_increment`], so on any tree and any
/// valid path they produce identical trees.
pub fn prune_or_increment_safe(tree: &mut Tree, root: usize, path: &Vec<Direction>)
    requires
        tree_wf(old(tree)@),
        root < old(tree)@.len(),
        path_valid(old(tree)@, root as int, path@),
        increment_fits(old(tree)@, root as int, path@),
    ensures
        final(tree)@ == spec_prune_or_increment(old(tree)@, root as int, path@).0,
        tree_wf(final(tree)@),
{
    proof {
        assert(path@.skip(0) =~= path@);
    }
    let _ = prune_or_increment_safe_impl(tree, root, path, 0);
}

} // verus!
