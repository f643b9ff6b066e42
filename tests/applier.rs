use mls_core::applier::{apply_external_commit, apply_proposals, ExternalJoinError};
use mls_core::filter::ProposalFilterError;
use mls_core::epoch::EpochError;
use mls_core::bundle::{ProposalBundle, ProposalSource};
use mls_core::epoch::EpochState;
use mls_core::extension::ExtensionList;
use mls_core::proposal::{
    AddProposal, ExternalInit, KeyPackage, ProposalRef, LeafIndex, LeafNode, LeafNodeSource, Lifetime, Proposal,
    RemoveProposal, Sender, SigningIdentity, UpdateProposal,
};
use mls_core::tree::{RatchetTree, TreeError};
use mls_core::CipherSuite;

fn leaf(name: &str, key: u8) -> LeafNode {
    LeafNode {
        public_key: vec![key; 32],
        signing_identity: SigningIdentity { signature_key: vec![key; 32], credential_type: 1, credential_data: name.as_bytes().to_vec() },
        leaf_node_source: LeafNodeSource::KeyPackage(Lifetime { not_before: 0, not_after: u64::MAX }),
        signature: vec![0; 64],
    }
}

fn key_package(name: &str, key: u8) -> KeyPackage {
    KeyPackage {
        version: 1,
        cipher_suite: CipherSuite::new(1),
        init_key: vec![key; 32],
        leaf_node: leaf(name, key),
        extensions: ExtensionList::new(),
        signature: vec![0; 64],
    }
}

fn add(name: &str, key: u8) -> Proposal {
    Proposal::Add(AddProposal { key_package: key_package(name, key) })
}

fn alice_only() -> RatchetTree {
    let mut t = RatchetTree::new();
    t.add_leaf(leaf("alice", 1)).unwrap();
    t
}

#[test]
fn duplicate_add_in_one_commit() {
    let tree = alice_only();
    let epoch = EpochState::new();
    let mut b = ProposalBundle::new();
    b.add(add("bob", 2), Sender::Member(LeafIndex(0)), ProposalSource::ByValue);
    b.add(add("bob", 2), Sender::Member(LeafIndex(0)), ProposalSource::ByValue);
    assert!(matches!(apply_proposals(tree.clone(), b), Err(TreeError::DuplicateLeafKey)));
    assert_eq!(tree, alice_only());
    assert_eq!(epoch, EpochState::new());
}

#[test]
fn removes_apply_before_adds_whatever_the_arrival_order() {
    let mut tree = alice_only();
    tree.add_leaf(leaf("bob", 2)).unwrap();
    tree.add_leaf(leaf("charlie", 3)).unwrap();
    let mut b = ProposalBundle::new();
    b.add(add("dave", 4), Sender::Member(LeafIndex(0)), ProposalSource::ByValue);
    b.add(Proposal::Remove(RemoveProposal { to_remove: LeafIndex(1) }), Sender::Member(LeafIndex(0)), ProposalSource::ByValue);
    let (t, placed) = match apply_proposals(tree, b) {
        Ok(x) => x,
        Err(e) => panic!("{e:?}"),
    };
    // Bob's slot was freed first, so Dave takes it.
    assert_eq!(placed, vec![LeafIndex(1)]);
    assert_eq!(t.leaf(LeafIndex(1)).unwrap().signing_identity.credential_data, b"dave".to_vec());
}

#[test]
fn updates_apply_first_and_need_a_member_sender() {
    let mut tree = alice_only();
    tree.add_leaf(leaf("bob", 2)).unwrap();
    let mut b = ProposalBundle::new();
    b.add(Proposal::Remove(RemoveProposal { to_remove: LeafIndex(0) }), Sender::Member(LeafIndex(1)), ProposalSource::ByValue);
    b.add(Proposal::Update(UpdateProposal { key_package: key_package("bob2", 5) }), Sender::Member(LeafIndex(1)), ProposalSource::ByReference(mls_core::proposal::ProposalRef([3; 16])));
    let (t, placed) = match apply_proposals(tree.clone(), b) {
        Ok(x) => x,
        Err(e) => panic!("{e:?}"),
    };
    assert!(placed.is_empty());
    assert_eq!(t.leaf(LeafIndex(1)).unwrap().public_key, vec![5; 32]);
    assert!(t.leaf(LeafIndex(0)).is_none());

    let mut bad = ProposalBundle::new();
    bad.add(Proposal::Update(UpdateProposal { key_package: key_package("x", 6) }), Sender::NewMemberCommit, ProposalSource::ByValue);
    assert!(matches!(apply_proposals(tree, bad), Err(TreeError::NotAMember)));
}

fn external_init() -> Proposal {
    Proposal::ExternalInit(ExternalInit { kem_output: vec![1; 32] })
}

#[test]
fn external_joiner_takes_the_free_leaf() {
    let mut tree = alice_only();
    tree.add_leaf(leaf("bob", 2)).unwrap();
    let mut epoch = EpochState::new();
    let mut b = ProposalBundle::new();
    b.add(external_init(), Sender::NewMemberCommit, ProposalSource::ByValue);
    let mut joiner = leaf("joiner", 9);
    joiner.leaf_node_source = LeafNodeSource::Commit(vec![0; 32]);
    let (t, index) = match apply_external_commit(tree.clone(), b.clone(), joiner.clone()) {
        Ok(x) => x,
        Err(e) => panic!("{e:?}"),
    };
    assert_eq!(epoch.apply_commit(1, &b), Ok(()));
    assert_eq!(epoch.epoch, 1);
    assert_eq!(index, LeafIndex(2));
    assert!(matches!(t.leaf(LeafIndex(2)).unwrap().leaf_node_source, LeafNodeSource::Commit(_)));

    let mut two = b.clone();
    two.add(external_init(), Sender::NewMemberCommit, ProposalSource::ByValue);
    assert_eq!(
        apply_external_commit(tree.clone(), two, joiner.clone()).err(),
        Some(ExternalJoinError::Rules(ProposalFilterError::ExternalCommitMustHaveExactlyOneExternalInit))
    );
    assert_eq!(
        apply_external_commit(tree, b, leaf("joiner", 9)).err(),
        Some(ExternalJoinError::Rules(ProposalFilterError::ExternalCommitMustHaveNewLeaf))
    );
}

#[test]
fn three_member_group_in_one_commit() {
    let mut epoch = EpochState::new();
    let mut b = ProposalBundle::new();
    b.add(add("bob", 2), Sender::Member(LeafIndex(0)), ProposalSource::ByValue);
    b.add(add("charlie", 3), Sender::Member(LeafIndex(0)), ProposalSource::ByValue);
    let (t, placed) = match apply_proposals(alice_only(), b.clone()) {
        Ok(x) => x,
        Err(e) => panic!("{e:?}"),
    };
    assert_eq!(epoch.apply_commit(1, &b), Ok(()));
    assert_eq!(placed, vec![LeafIndex(1), LeafIndex(2)]);
    assert_eq!(t.nodes.len(), 7);
    for x in [0, 2, 4] {
        assert!(t.nodes[x].is_some());
    }
    for x in [3, 5, 6] {
        assert!(t.nodes[x].is_none());
    }
    assert_eq!(epoch.apply_commit(1, &b), Err(EpochError::StaleCommit));
}

#[test]
fn update_then_remove_in_one_commit() {
    let mut tree = alice_only();
    tree.add_leaf(leaf("bob", 2)).unwrap();
    tree.add_leaf(leaf("charlie", 3)).unwrap();
    let mut b = ProposalBundle::new();
    b.add(Proposal::Remove(RemoveProposal { to_remove: LeafIndex(2) }), Sender::Member(LeafIndex(0)), ProposalSource::ByValue);
    b.add(Proposal::Update(UpdateProposal { key_package: key_package("bob2", 7) }), Sender::Member(LeafIndex(1)), ProposalSource::ByReference(ProposalRef([4; 16])));
    let (t, _) = match apply_proposals(tree, b) {
        Ok(x) => x,
        Err(e) => panic!("{e:?}"),
    };
    assert_eq!(t.leaf(LeafIndex(1)).unwrap().public_key, vec![7; 32]);
    assert!(t.leaf(LeafIndex(2)).is_none());
    assert!(t.nodes.get(3).map_or(true, |n| n.is_none()));
    assert!(t.nodes.get(4).map_or(true, |n| n.is_none()));
}
