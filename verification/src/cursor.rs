//! The traversal cursor: two positions — a checkpoint (`anchor`) and a current
//! position (`lead`) — into one exclusively owned arena. A position is a plain
//! arena index, so the cursor hands out no reference whose lifetime could
//! outlive a call: reading or writing the structure always goes through the
//! arena, under its own borrow.

use vstd::prelude::*;

verus! {

/// What a combined step decides: `Advance(next)` pulls the checkpoint up to
/// the pre-step lead and then moves the lead to `next`; `Hold(next)` moves the
/// lead alone.
#[derive(Clone, Copy, PartialEq, Eq, Structural, Debug)]
pub enum Simul {
    Advance(usize),
    Hold(usize),
}

/// The position a step moves the lead to, whichever way it was tagged.
pub open spec fn step_target(s: Simul) -> usize {
    match s {
        Simul::Advance(n) => n,
        Simul::Hold(n) => n,
    }
}

/// One combined step applied to a cursor state `(anchor, lead)`.
pub open spec fn simul_step(state: (usize, usize), s: Simul) -> (usize, usize) {
    match s {
        Simul::Advance(n) => (state.1, n),
        Simul::Hold(n) => (state.0, n),
    }
}

/// The cursor state after running a whole sequence of combined steps from a
/// fresh cursor at `root`.
pub open spec fn simul_run(root: usize, steps: Seq<Simul>) -> (usize, usize)
    decreases steps.len(),
{
    if steps.len() == 0 {
        (root, root)
    } else {
        simul_step(simul_run(root, steps.drop_last()), steps.last())
    }
}

/// Checkpointing replaces the anchor with the lead.
pub open spec fn checkpoint_state(state: (usize, usize)) -> (usize, usize) {
    (state.1, state.1)
}

/// Rewinding replaces the lead with the anchor.
pub open spec fn rewind_state(state: (usize, usize)) -> (usize, usize) {
    (state.0, state.0)
}

/// The cursor. It is deliberately not `Clone`: a walk owns exactly one of
/// these, and the two consuming operations end it.
#[derive(Debug)]
pub struct Rope {
    anchor: usize,
    lead: usize,
}

impl Rope {
    /// The checkpoint position.
    pub closed spec fn anchor_pos(self) -> usize {
        self.anchor
    }

    /// The current position.
    pub closed spec fn lead_pos(self) -> usize {
        self.lead
    }

    /// The whole cursor state as a pair, for the laws below.
    pub open spec fn state(self) -> (usize, usize) {
        (self.anchor_pos(), self.lead_pos())
    }

    /// A fresh cursor: both positions start at the root.
    pub fn new(root: usize) -> (r: Rope)
        ensures
            r.anchor_pos() == root,
            r.lead_pos() == root,
    {
        Rope { anchor: root, lead: root }
    }

    /// The descend step: move the lead to `next`. The caller computes `next`
    /// from the node at the current lead, through the arena; the checkpoint
    /// stays put.
    pub fn advance(&mut self, next: usize)
        ensures
            final(self).lead_pos() == next,
            final(self).anchor_pos() == old(self).anchor_pos(),
    {
        self.lead = next;
    }

    /// Checkpoint: the anchor catches up to the lead. A later `fall` lands
    /// here; no older checkpoint is kept.
    pub fn anchor(&mut self)
        ensures
            final(self).state() == checkpoint_state(old(self).state()),
            final(self).anchor_pos() == old(self).lead_pos(),
            final(self).lead_pos() == old(self).lead_pos(),
    {
        self.anchor = self.lead;
    }

    /// Rewind: the lead falls back to the checkpoint. Mutations already made
    /// to the structure stay; only the cursor is repositioned.
    pub fn fall(&mut self)
        ensures
            final(self).state() == rewind_state(old(self).state()),
            final(self).lead_pos() == old(self).anchor_pos(),
            final(self).anchor_pos() == old(self).anchor_pos(),
    {
        self.lead = self.anchor;
    }

    /// The combined step: `Hold` moves the lead alone, `Advance` first pulls
    /// the checkpoint up to the pre-step lead.
    pub fn advance_simul(&mut self, s: Simul)
        ensures
            final(self).state() == simul_step(old(self).state(), s),
            final(self).lead_pos() == step_target(s),
            final(self).anchor_pos() == (if s is Advance {
                old(self).lead_pos()
            } else {
                old(self).anchor_pos()
            }),
    {
        match s {
            Simul::Hold(n) => {
                self.lead = n;
            }
            Simul::Advance(n) => {
                self.anchor = self.lead;
                self.lead = n;
            }
        }
    }

    /// The checkpoint position, as a plain index.
    pub fn get_anchor(&self) -> (a: usize)
        ensures
            a == self.anchor_pos(),
    {
        self.anchor
    }

    /// The current position, as a plain index.
    pub fn get_lead(&self) -> (l: usize)
        ensures
            l == self.lead_pos(),
    {
        self.lead
    }

    /// End the walk at the current position: consumes the cursor and returns
    /// the lead index.
    pub fn into_lead(self) -> (l: usize)
        ensures
            l == self.lead_pos(),
    {
        self.lead
    }

    /// End the walk at the checkpoint: consumes the cursor and returns the
    /// anchor index. The lead may denote a node inside the anchor's subtree;
    /// since both are indices and every access goes through the arena, looking
    /// the anchor up never conflicts with a stale lead.
    pub fn into_anchor(self) -> (a: usize)
        ensures
            a == self.anchor_pos(),
    {
        self.anchor
    }
}

/// After any run of combined steps, the checkpoint is the lead position from
/// just before the most recent `Advance`-tagged step; if no step was tagged
/// `Advance`, the checkpoint is still the root.
pub proof fn lemma_checkpoint_position(root: usize, steps: Seq<Simul>)
    ensures
        (forall|k: int| 0 <= k < steps.len() ==> !(steps[k] is Advance)) ==> simul_run(
            root,
            steps,
        ).0 == root,
        forall|k: int|
            #![trigger steps[k]]
            0 <= k < steps.len() && steps[k] is Advance && (forall|m: int|
                k < m < steps.len() ==> !(steps[m] is Advance)) ==> simul_run(root, steps).0
                == simul_run(root, steps.take(k)).1,
    decreases steps.len(),
{
    if steps.len() == 0 {
    } else {
        let prev = steps.drop_last();
        let s = steps.last();
        lemma_checkpoint_position(root, prev);
        if forall|k: int| 0 <= k < steps.len() ==> !(steps[k] is Advance) {
            assert(forall|k: int| 0 <= k < prev.len() ==> !(prev[k] is Advance));
            assert(!(s is Advance));
            assert(simul_run(root, steps).0 == simul_run(root, prev).0);
        }
        assert forall|k: int|
            0 <= k < steps.len() && steps[k] is Advance && (forall|m: int|
                k < m < steps.len() ==> !(steps[m] is Advance)) implies simul_run(root, steps).0
            == simul_run(root, steps.take(k)).1 by {
            if k == steps.len() - 1 {
                assert(s is Advance);
                assert(steps.take(k) =~= prev);
                assert(simul_run(root, steps).0 == simul_run(root, prev).1);
            } else {
                assert(!(steps[steps.len() - 1] is Advance));
                assert(simul_run(root, steps).0 == simul_run(root, prev).0);
                assert(prev[k] is Advance);
                assert(forall|m: int| k < m < prev.len() ==> !(prev[m] is Advance));
                assert(simul_run(root, prev).0 == simul_run(root, prev.take(k)).1);
                assert(prev.take(k) =~= steps.take(k));
            }
        }
    }
}

/// Rewinding right after a checkpoint is a no-op on the lead.
pub proof fn lemma_rewind_after_checkpoint(state: (usize, usize))
    ensures
        rewind_state(checkpoint_state(state)).1 == state.1,
{
}

/// Rewinding twice in a row is the same as rewinding once.
pub proof fn lemma_rewind_idempotent(state: (usize, usize))
    ensures
        rewind_state(rewind_state(state)) == rewind_state(state),
{
}

} // verus!
