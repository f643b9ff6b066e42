use mls_core::proposal::{
    ExternalInit, LeafIndex, PendingProposal, Proposal, ProposalOrRef, ProposalRef,
    RemoveProposal, Sender,
};
use mls_core::bundle::ProposalSource;
use mls_core::store::{ProposalStore, ResolveError};

fn remove(leaf: u32) -> Proposal {
    Proposal::Remove(RemoveProposal { to_remove: LeafIndex(leaf) })
}

#[test]
fn store_keeps_latest_per_reference() {
    let mut store = ProposalStore::new();
    store.insert(ProposalRef([1; 16]), PendingProposal { proposal: remove(1), sender: Sender::Member(LeafIndex(2)) });
    store.insert(ProposalRef([2; 16]), PendingProposal { proposal: remove(3), sender: Sender::Member(LeafIndex(2)) });
    store.insert(ProposalRef([1; 16]), PendingProposal { proposal: remove(4), sender: Sender::Member(LeafIndex(5)) });
    assert_eq!(store.len(), 2);
    assert_eq!(store.get(&ProposalRef([1; 16])).unwrap().proposal, remove(4));
    assert!(store.get(&ProposalRef([9; 16])).is_none());
    store.clear();
    assert_eq!(store.len(), 0);
}

#[test]
fn resolve_takes_references_from_the_store() {
    let mut store = ProposalStore::new();
    store.insert(ProposalRef([1; 16]), PendingProposal { proposal: remove(1), sender: Sender::Member(LeafIndex(2)) });
    let items = vec![
        ProposalOrRef::Proposal(Box::new(Proposal::ExternalInit(ExternalInit { kem_output: vec![] }))),
        ProposalOrRef::Reference(ProposalRef([1; 16])),
    ];
    let b = store.resolve(items, Sender::Member(LeafIndex(0))).unwrap();
    assert_eq!(b.remove_proposals().len(), 1);
    assert_eq!(b.remove_proposals()[0].sender, Sender::Member(LeafIndex(2)));
    assert_eq!(b.remove_proposals()[0].source, ProposalSource::ByReference(ProposalRef([1; 16])));
    assert_eq!(b.external_init_proposals()[0].sender, Sender::Member(LeafIndex(0)));
    assert_eq!(b.external_init_proposals()[0].source, ProposalSource::ByValue);
}

#[test]
fn unknown_or_reused_reference_is_refused() {
    let mut store = ProposalStore::new();
    store.insert(ProposalRef([1; 16]), PendingProposal { proposal: remove(1), sender: Sender::Member(LeafIndex(2)) });
    let items = vec![ProposalOrRef::Reference(ProposalRef([1; 16])), ProposalOrRef::Reference(ProposalRef([1; 16]))];
    assert!(matches!(
        store.resolve(items, Sender::Member(LeafIndex(0))),
        Err(ResolveError::ProposalNotFound(ProposalRef(r))) if r == [1; 16]
    ));
}
