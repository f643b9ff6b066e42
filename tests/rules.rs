use mls_core::bundle::{ProposalBundle, ProposalSource};
use mls_core::extension::ExtensionList;
use mls_core::filter::ProposalFilterError;
use mls_core::proposal::{
    CustomProposal, ExternalInit, KeyPackage, LeafIndex, LeafNode, LeafNodeSource, Lifetime,
    PreSharedKeyProposal, Proposal, PskId, ReInitProposal, RemoveProposal, ResumptionPskUsage,
    Sender, SigningIdentity, UpdateProposal,
};
use mls_core::rules::{
    check_commit_rules, check_removed_leaves, check_senders, check_external_commit, check_leaf_uniqueness, check_no_self_removal,
    check_no_self_update, check_psks, check_singletons,
};
use mls_core::tree::RatchetTree;
use mls_core::CipherSuite;

fn members(n: u8) -> RatchetTree {
    let mut t = RatchetTree::new();
    for i in 0..n {
        let mut leaf = key_package().leaf_node;
        leaf.public_key = vec![i; 32];
        t.add_leaf(leaf).unwrap();
    }
    t
}

fn member(i: u32) -> Sender {
    Sender::Member(LeafIndex(i))
}

fn key_package() -> KeyPackage {
    KeyPackage {
        version: 1,
        cipher_suite: CipherSuite::new(1),
        init_key: vec![1; 32],
        leaf_node: LeafNode {
            public_key: vec![2; 32],
            signing_identity: SigningIdentity { signature_key: vec![3; 32], credential_type: 1, credential_data: b"bob".to_vec() },
            leaf_node_source: LeafNodeSource::KeyPackage(Lifetime { not_before: 0, not_after: u64::MAX }),
            signature: vec![4; 64],
        },
        extensions: ExtensionList::new(),
        signature: vec![5; 64],
    }
}

fn update() -> Proposal {
    Proposal::Update(UpdateProposal { key_package: key_package() })
}

fn remove(leaf: u32) -> Proposal {
    Proposal::Remove(RemoveProposal { to_remove: LeafIndex(leaf) })
}

fn external_init() -> Proposal {
    Proposal::ExternalInit(ExternalInit { kem_output: vec![7; 32] })
}

fn psk(id: &[u8], nonce_len: usize) -> Proposal {
    Proposal::Psk(PreSharedKeyProposal { psk_id: PskId::External(id.to_vec()), psk_nonce: vec![0; nonce_len] })
}

fn reinit() -> Proposal {
    Proposal::ReInit(ReInitProposal { group_id: vec![0, 1], version: 1, cipher_suite: CipherSuite::new(2), extensions: ExtensionList::new() })
}

fn bundle(items: Vec<(Proposal, Sender)>) -> ProposalBundle {
    let mut b = ProposalBundle::new();
    for (p, s) in items {
        b.add(p, s, ProposalSource::ByValue);
    }
    b
}

#[test]
fn own_update_in_own_commit_is_refused() {
    let b = bundle(vec![(update(), member(1)), (update(), member(0))]);
    assert_eq!(check_no_self_update(&b, member(0)), Err(ProposalFilterError::InvalidCommitSelfUpdate));
    assert_eq!(check_no_self_update(&b, member(2)), Ok(()));
    assert_eq!(
        check_commit_rules(&b, &members(4), member(0), false, true, 32),
        Err(ProposalFilterError::InvalidCommitSelfUpdate)
    );
}

#[test]
fn external_commit_shape() {
    let ok = bundle(vec![(external_init(), Sender::NewMemberCommit), (remove(2), Sender::NewMemberCommit)]);
    assert_eq!(check_external_commit(&ok, true), Ok(()));
    assert_eq!(check_external_commit(&ok, false), Err(ProposalFilterError::MissingUpdatePathInExternalCommit));

    let none = bundle(vec![(remove(2), Sender::NewMemberCommit)]);
    assert_eq!(check_external_commit(&none, true), Err(ProposalFilterError::ExternalCommitMustHaveExactlyOneExternalInit));

    let two = bundle(vec![(external_init(), Sender::NewMemberCommit), (external_init(), Sender::NewMemberCommit)]);
    assert_eq!(check_external_commit(&two, true), Err(ProposalFilterError::ExternalCommitMustHaveExactlyOneExternalInit));

    let with_update = bundle(vec![(external_init(), Sender::NewMemberCommit), (update(), Sender::NewMemberCommit)]);
    assert_eq!(check_external_commit(&with_update, true), Err(ProposalFilterError::InvalidProposalTypeInExternalCommit(2)));

    let with_custom = bundle(vec![(external_init(), Sender::NewMemberCommit), (Proposal::Custom(CustomProposal::new(0xf00d, vec![])), Sender::NewMemberCommit)]);
    assert_eq!(check_external_commit(&with_custom, true), Err(ProposalFilterError::InvalidProposalTypeInExternalCommit(0xf00d)));

    let two_removes = bundle(vec![(external_init(), Sender::NewMemberCommit), (remove(1), Sender::NewMemberCommit), (remove(2), Sender::NewMemberCommit)]);
    assert_eq!(check_external_commit(&two_removes, true), Err(ProposalFilterError::ExternalCommitWithMoreThanOneRemove));
}

#[test]
fn reinit_must_be_alone() {
    assert_eq!(check_singletons(&bundle(vec![(reinit(), member(0))])), Ok(()));
    assert_eq!(
        check_singletons(&bundle(vec![(reinit(), member(0)), (remove(1), member(0))])),
        Err(ProposalFilterError::OtherProposalWithReInit)
    );
    assert_eq!(
        check_singletons(&bundle(vec![(reinit(), member(0)), (reinit(), member(1))])),
        Err(ProposalFilterError::MoreThanOneReInitProposal)
    );
    let gce = || Proposal::GroupContextExtensions(ExtensionList::new());
    assert_eq!(
        check_singletons(&bundle(vec![(gce(), member(0)), (gce(), member(1))])),
        Err(ProposalFilterError::MoreThanOneGroupContextExtensionsProposal)
    );
}

#[test]
fn one_proposal_per_leaf() {
    assert_eq!(check_leaf_uniqueness(&bundle(vec![(update(), member(2)), (remove(3), member(0))])), Ok(()));
    assert_eq!(
        check_leaf_uniqueness(&bundle(vec![(update(), member(2)), (remove(2), member(0))])),
        Err(ProposalFilterError::MoreThanOneProposalForLeaf(2))
    );
    assert_eq!(
        check_leaf_uniqueness(&bundle(vec![(remove(4), member(0)), (remove(4), member(1))])),
        Err(ProposalFilterError::MoreThanOneProposalForLeaf(4))
    );
}

#[test]
fn psk_rules() {
    assert_eq!(check_psks(&bundle(vec![(psk(b"a", 32), member(0)), (psk(b"b", 32), member(0))]), 32), Ok(()));
    assert_eq!(
        check_psks(&bundle(vec![(psk(b"a", 16), member(0))]), 32),
        Err(ProposalFilterError::InvalidPskNonceLength { expected: 32, found: 16 })
    );
    assert_eq!(
        check_psks(&bundle(vec![(psk(b"a", 32), member(0)), (psk(b"a", 32), member(1))]), 32),
        Err(ProposalFilterError::DuplicatePskIds)
    );
    let branch = Proposal::Psk(PreSharedKeyProposal {
        psk_id: PskId::Resumption { usage: ResumptionPskUsage::Branch, group_id: vec![1], epoch: 3 },
        psk_nonce: vec![0; 32],
    });
    assert_eq!(
        check_psks(&bundle(vec![(branch, member(0))]), 32),
        Err(ProposalFilterError::InvalidTypeOrUsageInPreSharedKeyProposal)
    );
}

#[test]
fn committer_cannot_remove_itself() {
    let b = bundle(vec![(remove(0), member(0))]);
    assert_eq!(check_no_self_removal(&b, member(0)), Err(ProposalFilterError::CommitterSelfRemoval));
    assert_eq!(check_commit_rules(&b, &members(4), member(0), false, false, 32), Err(ProposalFilterError::CommitterSelfRemoval));
    assert_eq!(check_commit_rules(&b, &members(4), member(1), false, false, 32), Ok(()));
}

#[test]
fn sender_permissions_come_first() {
    let b = bundle(vec![(reinit(), Sender::NewMemberCommit), (reinit(), Sender::NewMemberCommit)]);
    assert_eq!(
        check_commit_rules(&b, &members(4), Sender::NewMemberCommit, true, true, 32),
        Err(ProposalFilterError::InvalidProposalTypeForSender { proposal_type: 5, sender: Sender::NewMemberCommit, by_ref: false })
    );
    assert_eq!(
        check_commit_rules(&bundle(vec![(reinit(), member(0)), (reinit(), member(0))]), &members(4), member(0), false, true, 32),
        Err(ProposalFilterError::MoreThanOneReInitProposal)
    );
}

#[test]
fn external_senders_cannot_update() {
    let mut b = ProposalBundle::new();
    b.add(remove(3), Sender::External(0), ProposalSource::ByValue);
    b.add(update(), Sender::External(1), ProposalSource::ByReference(mls_core::proposal::ProposalRef([0; 16])));
    assert_eq!(
        check_senders(&b),
        Err(ProposalFilterError::InvalidProposalTypeForSender { proposal_type: 2, sender: Sender::External(1), by_ref: true })
    );
    let joiner = bundle(vec![(remove(3), Sender::NewMemberProposal)]);
    assert_eq!(
        check_senders(&joiner),
        Err(ProposalFilterError::InvalidProposalTypeForSender { proposal_type: 3, sender: Sender::NewMemberProposal, by_ref: false })
    );
}

#[test]
fn external_commit_through_all_rules() {
    let b = bundle(vec![(external_init(), Sender::NewMemberCommit), (remove(2), Sender::NewMemberCommit)]);
    assert_eq!(
        check_commit_rules(&b, &members(4), Sender::NewMemberCommit, true, false, 32),
        Err(ProposalFilterError::MissingUpdatePathInExternalCommit)
    );
    assert_eq!(check_commit_rules(&b, &members(4), Sender::NewMemberCommit, true, true, 32), Ok(()));
}

#[test]
fn removing_a_blank_leaf_is_refused() {
    let b = bundle(vec![(remove(1), member(0)), (remove(7), member(0)), (remove(9), member(0))]);
    assert_eq!(check_removed_leaves(&b, &members(4)), Err(ProposalFilterError::RemovingBlankNode(7)));
    assert_eq!(check_commit_rules(&b, &members(4), member(0), false, false, 32), Err(ProposalFilterError::RemovingBlankNode(7)));
    assert_eq!(check_removed_leaves(&bundle(vec![(remove(3), member(0))]), &members(4)), Ok(()));
}
