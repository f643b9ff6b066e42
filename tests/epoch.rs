use mls_core::bundle::{ProposalBundle, ProposalSource};
use mls_core::epoch::{EpochError, EpochState, GroupStatus};
use mls_core::extension::ExtensionList;
use mls_core::proposal::{LeafIndex, Proposal, ReInitProposal, RemoveProposal, Sender};
use mls_core::ratchet::{GenerationError, GenerationTracker, DEFAULT_MAX_PAST_GENERATIONS};
use mls_core::CipherSuite;

#[test]
fn out_of_order_application_messages() {
    let mut bob = GenerationTracker::new(DEFAULT_MAX_PAST_GENERATIONS);
    for g in [3, 1, 4, 0, 2] {
        assert_eq!(bob.receive(g), Ok(()));
    }
    assert_eq!(bob.receive(0), Err(GenerationError::StaleMessage));
    assert_eq!(bob.next_generation(), 5);
}

#[test]
fn window_bounds() {
    let mut t = GenerationTracker::new(3);
    assert_eq!(t.receive(4), Err(GenerationError::FutureMessage));
    assert_eq!(t.receive(3), Ok(()));
    assert_eq!(t.receive(10), Err(GenerationError::FutureMessage));
    assert_eq!(t.receive(7), Ok(()));
    // With 7 received, only 5 and 6 are within three generations of 8.
    assert_eq!(t.receive(2), Err(GenerationError::StaleMessage));
    assert_eq!(t.receive(5), Ok(()));
    assert_eq!(t.receive(5), Err(GenerationError::StaleMessage));
    assert_eq!(t.receive(4), Err(GenerationError::StaleMessage));
    assert_eq!(t.receive(6), Ok(()));
}

#[test]
fn any_order_within_window() {
    let mut t = GenerationTracker::new(4);
    for g in [2, 0, 3, 1] {
        assert_eq!(t.receive(g), Ok(()));
    }
    for g in 0..4 {
        assert_eq!(t.receive(g), Err(GenerationError::StaleMessage));
    }
}

fn reinit_bundle() -> ProposalBundle {
    let mut b = ProposalBundle::new();
    b.add(
        Proposal::ReInit(ReInitProposal { group_id: vec![0, 1], version: 1, cipher_suite: CipherSuite::new(2), extensions: ExtensionList::new() }),
        Sender::Member(LeafIndex(0)),
        ProposalSource::ByValue,
    );
    b
}

fn remove_bundle() -> ProposalBundle {
    let mut b = ProposalBundle::new();
    b.add(Proposal::Remove(RemoveProposal { to_remove: LeafIndex(1) }), Sender::Member(LeafIndex(0)), ProposalSource::ByValue);
    b
}

#[test]
fn reinit_terminates() {
    let mut st = EpochState::new();
    assert_eq!(st.apply_commit(1, &remove_bundle()), Ok(()));
    assert_eq!(st.apply_commit(2, &reinit_bundle()), Ok(()));
    assert_eq!(st.epoch, 2);
    assert_eq!(st.status, GroupStatus::Reinitialized);
    assert_eq!(st.apply_commit(3, &remove_bundle()), Err(EpochError::GroupTerminated));
    assert_eq!(st.propose(), Err(EpochError::GroupTerminated));
    assert_eq!(st.epoch, 2);
}

#[test]
fn commits_go_one_epoch_at_a_time() {
    let mut st = EpochState::new();
    assert_eq!(st.propose(), Ok(()));
    assert_eq!(st.status, GroupStatus::Pending);
    assert_eq!(st.apply_commit(0, &remove_bundle()), Err(EpochError::StaleCommit));
    assert_eq!(st.apply_commit(2, &remove_bundle()), Err(EpochError::FutureCommit));
    assert_eq!(st.apply_commit(1, &remove_bundle()), Ok(()));
    assert_eq!(st.status, GroupStatus::Steady);
    assert_eq!(st.epoch, 1);
}
