//! The reindex lifecycle: at most one pass runs at a time, a trigger during
//! a pass is coalesced into exactly one follow-up pass, and a trigger while
//! idle always starts a fresh pass.

use vstd::prelude::*;

verus! {

/// The state of the reindex lifecycle, owned by the orchestrator.
#[derive(Clone, Copy, Debug, PartialEq, Eq, Structural)]
pub enum IndexStatus {
    /// No pass is running.
    Idle,
    /// A pass is running; `retrigger` records whether one follow-up pass is
    /// owed once it completes.
    Indexing { retrigger: bool },
}

impl IndexStatus {
    /// The state at startup: nothing is running.
    pub fn new() -> (r: IndexStatus)
        ensures
            r == IndexStatus::Idle,
    {
        IndexStatus::Idle
    }

    /// Request a reindex. When idle, a fresh pass must start now; during a
    /// pass the request is remembered, never dropped, and never stacks into
    /// more than one follow-up pass.
    pub fn trigger(&mut self) -> (start_now: bool)
        ensures
            *old(self) == IndexStatus::Idle ==> start_now && *final(self) == (
            IndexStatus::Indexing { retrigger: false }),
            (*old(self) matches IndexStatus::Indexing { .. }) ==> !start_now && *final(self) == (
            IndexStatus::Indexing { retrigger: true }),
    {
        match *self {
            IndexStatus::Idle => {
                *self = IndexStatus::Indexing { retrigger: false };
                true
            },
            IndexStatus::Indexing { .. } => {
                *self = IndexStatus::Indexing { retrigger: true };
                false
            },
        }
    }

    /// A pass just completed. When a trigger arrived during the pass, one
    /// follow-up pass must start now; otherwise the orchestrator goes idle.
    pub fn finish_pass(&mut self) -> (run_again: bool)
        requires
            *old(self) matches IndexStatus::Indexing { .. },
        ensures
            *old(self) == (IndexStatus::Indexing { retrigger: false }) ==> !run_again
                && *final(self) == IndexStatus::Idle,
            *old(self) == (IndexStatus::Indexing { retrigger: true }) ==> run_again && *final(self)
                == (IndexStatus::Indexing { retrigger: false }),
    {
        match *self {
            IndexStatus::Idle => false,
            IndexStatus::Indexing { retrigger } => {
                if retrigger {
                    *self = IndexStatus::Indexing { retrigger: false };
                    true
                } else {
                    *self = IndexStatus::Idle;
                    false
                }
            },
        }
    }

    /// Whether a pass is currently running.
    pub fn is_indexing(&self) -> (r: bool)
        ensures
            r == (*self matches IndexStatus::Indexing { .. }),
    {
        match *self {
            IndexStatus::Idle => false,
            IndexStatus::Indexing { .. } => true,
        }
    }
}

} // verus!
