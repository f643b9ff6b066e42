//! The per-epoch state machine of a group: proposals make it pending, a
//! commit for the next epoch advances it, and a commit that re-initialises
//! the group ends it.
use vstd::prelude::*;

use crate::bundle::ProposalBundle;

verus! {

/// Where a group stands within its epoch.
#[derive(Debug, Clone, Copy, PartialEq, Eq, Structural)]
pub enum GroupStatus {
    /// No proposal waits for a commit.
    Steady,
    /// Proposals wait for a commit.
    Pending,
    /// A reinit was committed; the group accepts nothing more.
    Reinitialized,
}

/// Why a group refused a proposal or commit.
#[derive(Debug, Clone, Copy, PartialEq, Eq, Structural)]
pub enum EpochError {
    /// The group was re-initialised.
    GroupTerminated,
    /// The commit is for an epoch already past.
    StaleCommit,
    /// The commit is for an epoch later than the next one.
    FutureCommit,
}

/// Epoch and status of a group.
#[derive(Debug, Clone, Copy, PartialEq, Eq, Structural)]
pub struct EpochState {
    pub epoch: u64,
    pub status: GroupStatus,
}

/// What a commit for epoch `commit_epoch` (with a reinit proposal if
/// `reinit`) does to state `st`.
pub open spec fn commit_step(st: EpochState, commit_epoch: u64, reinit: bool) -> (EpochState, Result<(), EpochError>) {
    if st.status == GroupStatus::Reinitialized {
        (st, Err(EpochError::GroupTerminated))
    } else if commit_epoch <= st.epoch {
        (st, Err(EpochError::StaleCommit))
    } else if commit_epoch != st.epoch + 1 {
        (st, Err(EpochError::FutureCommit))
    } else {
        (
            EpochState {
                epoch: commit_epoch,
                status: if reinit { GroupStatus::Reinitialized } else { GroupStatus::Steady },
            },
            Ok(()),
        )
    }
}

/// A group that committed a reinit refuses every later commit, whatever it
/// carries, with `GroupTerminated`, and stays as it is.
pub proof fn lemma_reinit_terminates(st: EpochState, e1: u64, e2: u64, reinit2: bool)
    requires
        commit_step(st, e1, true).1 is Ok,
    ensures
        commit_step(commit_step(st, e1, true).0, e2, reinit2)
            == (commit_step(st, e1, true).0, Err::<(), EpochError>(EpochError::GroupTerminated)),
{
}

/// Epochs only move forward, one at a time: an accepted commit advances the
/// epoch by exactly one, a refused one leaves the state as it was.
pub proof fn lemma_epochs_advance_by_one(st: EpochState, e: u64, reinit: bool)
    ensures
        commit_step(st, e, reinit).1 is Ok ==> commit_step(st, e, reinit).0.epoch == st.epoch + 1,
        commit_step(st, e, reinit).1 is Err ==> commit_step(st, e, reinit).0 == st,
{
}

impl EpochState {
    /// A new group, at epoch 0.
    pub fn new() -> (r: EpochState)
        ensures
            r == (EpochState { epoch: 0, status: GroupStatus::Steady }),
    {
        EpochState { epoch: 0, status: GroupStatus::Steady }
    }

    /// A proposal was received or staged.
    pub fn propose(&mut self) -> (r: Result<(), EpochError>)
        ensures
            old(self).status == GroupStatus::Reinitialized ==> r == Err::<(), EpochError>(EpochError::GroupTerminated)
                && *final(self) == *old(self),
            old(self).status != GroupStatus::Reinitialized ==> r is Ok
                && *final(self) == (EpochState { epoch: old(self).epoch, status: GroupStatus::Pending }),
    {
        if self.status == GroupStatus::Reinitialized {
            return Err(EpochError::GroupTerminated);
        }
        self.status = GroupStatus::Pending;
        Ok(())
    }

    /// Apply a commit for epoch `commit_epoch` carrying `proposals`; a
    /// commit with a reinit proposal ends the group.
    pub fn apply_commit(&mut self, commit_epoch: u64, proposals: &ProposalBundle) -> (r: Result<(), EpochError>)
        ensures
            (*final(self), r) == commit_step(*old(self), commit_epoch, proposals.reinitializations@.len() > 0),
    {
        if self.status == GroupStatus::Reinitialized {
            return Err(EpochError::GroupTerminated);
        }
        if commit_epoch <= self.epoch {
            return Err(EpochError::StaleCommit);
        }
        if commit_epoch - self.epoch != 1 {
            return Err(EpochError::FutureCommit);
        }
        self.epoch = commit_epoch;
        self.status = if proposals.reinitializations.len() > 0 {
            GroupStatus::Reinitialized
        } else {
            GroupStatus::Steady
        };
        Ok(())
    }
}

} // verus!
