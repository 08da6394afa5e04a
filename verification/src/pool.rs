//! The pull-based worker pool's scheduling state.
//!
//! A bounded set of execution units is fed by one central dispatch loop.
//! The loop issues a blocking pop against the broker only while an idle unit
//! exists; a unit re-announces itself when its dispatch finishes. The state
//! here is the whole coordination: how many units exist, how many are busy.

use vstd::prelude::*;

verus! {

/// One scheduling event seen by the dispatch loop.
pub enum PoolEvent {
    /// A popped request is handed to an idle unit.
    Accept,
    /// A unit finished its dispatch and announced availability again.
    Finish,
}

/// How the busy count moves on one event. The loop refuses to accept work
/// without idle capacity, so `Accept` at full occupancy changes nothing.
pub open spec fn spec_pool_step(size: nat, busy: nat, e: PoolEvent) -> nat {
    match e {
        PoolEvent::Accept => if busy < size {
            busy + 1
        } else {
            busy
        },
        PoolEvent::Finish => if busy > 0 {
            (busy - 1) as nat
        } else {
            0
        },
    }
}

/// The busy count after a whole run of events.
pub open spec fn spec_pool_run(size: nat, busy: nat, evs: Seq<PoolEvent>) -> nat
    decreases evs.len(),
{
    if evs.len() == 0 {
        busy
    } else {
        spec_pool_run(size, spec_pool_step(size, busy, evs[0]), evs.drop_first())
    }
}

/// Backpressure: however many messages the broker offers, a pool that starts
/// within its capacity never runs more than `size` executions at once.
pub proof fn lemma_pool_backpressure(size: nat, busy: nat, evs: Seq<PoolEvent>)
    requires
        busy <= size,
    ensures
        spec_pool_run(size, busy, evs) <= size,
    decreases evs.len(),
{
    if evs.len() > 0 {
        lemma_pool_backpressure(size, spec_pool_step(size, busy, evs[0]), evs.drop_first());
    }
}

/// The scheduling state: pool size and how many units are busy.
pub struct PoolState {
    pub size: usize,
    pub busy: usize,
}

impl PoolState {
    /// The invariant every reachable state satisfies.
    pub open spec fn wf(&self) -> bool {
        self.size >= 1 && self.busy <= self.size
    }

    /// A fresh pool: every unit idle.
    pub fn new(size: usize) -> (s: PoolState)
        requires
            size >= 1,
        ensures
            s.wf(),
            s.size == size,
            s.busy == 0,
    {
        PoolState { size, busy: 0 }
    }

    /// Whether the dispatch loop may issue its next blocking pop: only while
    /// an idle unit exists, which is the backpressure rule.
    pub fn can_pull(&self) -> (r: bool)
        ensures
            r == (self.busy < self.size),
    {
        self.busy < self.size
    }

    /// A popped request is handed to an idle unit.
    pub fn accept(&mut self)
        requires
            old(self).wf(),
            old(self).busy < old(self).size,
        ensures
            final(self).wf(),
            final(self).size == old(self).size,
            final(self).busy == old(self).busy + 1,
            final(self).busy as nat == spec_pool_step(
                old(self).size as nat,
                old(self).busy as nat,
                PoolEvent::Accept,
            ),
    {
        self.busy = self.busy + 1;
    }

    /// A unit finished and announced availability again.
    pub fn finish(&mut self)
        requires
            old(self).wf(),
            old(self).busy >= 1,
        ensures
            final(self).wf(),
            final(self).size == old(self).size,
            final(self).busy == old(self).busy - 1,
            final(self).busy as nat == spec_pool_step(
                old(self).size as nat,
                old(self).busy as nat,
                PoolEvent::Finish,
            ),
    {
        self.busy = self.busy - 1;
    }
}

} // verus!
