use mls_core::extension::{ExtensionList, RequiredCapabilitiesExt};
use mls_core::proposal::{
    AddProposal, KeyPackage, LeafIndex, LeafNode, LeafNodeSource, Lifetime, Proposal,
    ProposalRef, RemoveProposal, SigningIdentity, UpdateProposal,
};
use mls_core::wire::{apply_reuse_guard, ContentAad, ContentType, CipherSuiteProvider, GroupContext, ReferenceError, Snapshot, SnapshotError};
use mls_core::CipherSuite;

fn test_key_package(cipher_suite: CipherSuite) -> KeyPackage {
    KeyPackage {
        version: 1,
        cipher_suite,
        init_key: vec![0x11; 32],
        leaf_node: LeafNode {
            public_key: vec![0x22; 32],
            signing_identity: SigningIdentity {
                signature_key: vec![0x33; 32],
                credential_type: 1,
                credential_data: b"foo".to_vec(),
            },
            leaf_node_source: LeafNodeSource::KeyPackage(Lifetime {
                not_before: 1_700_000_000,
                not_after: 1_700_086_400,
            }),
            signature: vec![0x44; 64],
        },
        extensions: ExtensionList::new(),
        signature: vec![0x55; 64],
    }
}

#[test]
fn test_add() {
    let add_proposal = AddProposal {
        key_package: test_key_package(CipherSuite::new(2)),
    };

    let proposal = Proposal::Add(add_proposal.clone());

    assert!(!proposal.is_update());
    assert!(!proposal.is_remove());
    assert_eq!(proposal.as_add(), Some(&add_proposal));
}

#[test]
fn test_update() {
    let update_proposal = UpdateProposal {
        key_package: test_key_package(CipherSuite::new(2)),
    };

    let proposal = Proposal::Update(update_proposal.clone());

    assert!(proposal.is_update());
    assert!(!proposal.is_remove());
    assert_eq!(proposal.as_update(), Some(&update_proposal));
}

#[test]
fn test_remove() {
    let remove_proposal = RemoveProposal {
        to_remove: LeafIndex(0),
    };

    let proposal = Proposal::Remove(remove_proposal.clone());

    assert!(proposal.is_remove());
    assert!(!proposal.is_update());
    assert_eq!(proposal.as_remove(), Some(&remove_proposal));
}

fn get_test_extension_list() -> ExtensionList {
    let test_extension = RequiredCapabilitiesExt {
        extensions: vec![42],
        proposals: Default::default(),
        credentials: Default::default(),
    };

    let mut extension_list = ExtensionList::new();
    extension_list.set_from(test_extension).unwrap();

    extension_list
}

#[test]
fn test_group_context_extension() {
    let extension_list = get_test_extension_list();
    let proposal = Proposal::GroupContextExtensions(extension_list.clone());

    assert!(!proposal.is_update());
    assert!(!proposal.is_remove());

    assert_eq!(
        proposal.as_group_context_extensions(),
        Some(&extension_list)
    )
}

/// Stands in for a cipher suite's hash: returns the input's length and
/// first bytes, padded to 32 bytes, so that the expected reference is easy
/// to predict.
struct PrefixHash;

impl CipherSuiteProvider for PrefixHash {
    type Error = ();

    fn hash(&self, data: &[u8]) -> Result<Vec<u8>, ()> {
        let mut out = vec![data.len() as u8];
        out.extend_from_slice(data);
        out.resize(32, 0);
        Ok(out)
    }

    fn verify(&self, public_key: &[u8], data: &[u8], signature: &[u8]) -> bool {
        signature == [public_key, data].concat().as_slice()
    }

    fn hash_len(&self) -> usize {
        32
    }

    fn kdf_extract(&self, salt: &[u8], ikm: &[u8]) -> Result<Vec<u8>, ()> {
        Ok([salt, ikm].concat())
    }

    fn kdf_expand(&self, secret: &[u8], label: &str, context: &[u8], len: usize) -> Result<Vec<u8>, ()> {
        let mut out = [secret, label.as_bytes(), context].concat();
        out.resize(len, 0);
        Ok(out)
    }
}

struct ShortHash;

impl CipherSuiteProvider for ShortHash {
    type Error = ();

    fn hash(&self, _data: &[u8]) -> Result<Vec<u8>, ()> {
        Ok(vec![1, 2, 3])
    }

    fn verify(&self, public_key: &[u8], data: &[u8], signature: &[u8]) -> bool {
        signature == [public_key, data].concat().as_slice()
    }

    fn hash_len(&self) -> usize {
        32
    }

    fn kdf_extract(&self, salt: &[u8], ikm: &[u8]) -> Result<Vec<u8>, ()> {
        Ok([salt, ikm].concat())
    }

    fn kdf_expand(&self, secret: &[u8], label: &str, context: &[u8], len: usize) -> Result<Vec<u8>, ()> {
        let mut out = [secret, label.as_bytes(), context].concat();
        out.resize(len, 0);
        Ok(out)
    }
}

#[test]
fn remove_proposal_encoding() {
    let p = Proposal::Remove(RemoveProposal { to_remove: LeafIndex(0x01020304) });
    let mut out = Vec::new();
    p.encode(&mut out);
    assert_eq!(out, vec![0, 3, 1, 2, 3, 4]);
}

#[test]
fn reference_input_is_label_then_proposal() {
    let p = Proposal::Remove(RemoveProposal { to_remove: LeafIndex(7) });
    let input = p.reference_input();
    let mut expected = vec![26u8];
    expected.extend_from_slice(b"MLS 1.0 Proposal Reference");
    expected.extend_from_slice(&[6, 0, 3, 0, 0, 0, 7]);
    assert_eq!(input, expected);
}

#[test]
fn proposal_reference_is_first_sixteen_bytes_of_hash() {
    let p = Proposal::Remove(RemoveProposal { to_remove: LeafIndex(7) });
    let r = match p.to_reference(&PrefixHash) {
        Ok(r) => r,
        Err(_) => panic!("reference failed"),
    };
    let mut expected = [0u8; 16];
    expected[0] = 34;
    expected[1] = 26;
    expected[2..16].copy_from_slice(&b"MLS 1.0 Proposal Reference"[..14]);
    assert_eq!(r, ProposalRef(expected));
}

#[test]
fn short_hash_gives_no_reference() {
    let p = Proposal::Remove(RemoveProposal { to_remove: LeafIndex(7) });
    assert!(matches!(p.to_reference(&ShortHash), Err(ReferenceError::HashTooShort(3))));
    assert_eq!(ProposalRef::from_hash(&[0u8; 15]), None);
    assert_eq!(ProposalRef::from_hash(&[9u8; 20]), Some(ProposalRef([9u8; 16])));
}

#[test]
fn proposal_types() {
    assert_eq!(Proposal::Add(AddProposal { key_package: test_key_package(CipherSuite::new(1)) }).proposal_type(), 1);
    assert_eq!(Proposal::Remove(RemoveProposal { to_remove: LeafIndex(1) }).proposal_type(), 3);
    assert_eq!(Proposal::GroupContextExtensions(ExtensionList::new()).proposal_type(), 7);
}

#[test]
fn cipher_suites() {
    let all = CipherSuite::all();
    assert_eq!(all.len(), 7);
    assert_eq!(all[0], CipherSuite::new(1));
    assert_eq!(all[6].raw_value(), 7);
    assert!(CipherSuite::new(3).is_standard());
    assert!(!CipherSuite::new(0xfe00).is_standard());
}

#[test]
fn group_context_round_trip_and_next_epoch() {
    let gc = GroupContext {
        protocol_version: 1,
        cipher_suite: CipherSuite::new(1),
        group_id: vec![0x00, 0x01],
        epoch: 0,
        tree_hash: vec![7; 32],
        confirmed_transcript_hash: vec![8; 32],
        extensions: get_test_extension_list(),
    };
    let bytes = gc.to_bytes();
    assert_eq!(&bytes[..8], &[0, 1, 0, 1, 2, 0, 1, 0]);
    assert_eq!(GroupContext::from_bytes(&bytes), Some(gc.clone()));
    assert_eq!(GroupContext::from_bytes(&bytes[..bytes.len() - 1]), None);
    assert!(gc.group_id_valid());
    let next = gc.clone().next_epoch(vec![9; 32], vec![10; 32]).unwrap();
    assert_eq!(next.epoch, 1);
    assert_eq!(next.group_id, gc.group_id);
    assert_eq!(next.tree_hash, vec![9; 32]);
    let last = GroupContext { epoch: u64::MAX, ..gc };
    assert_eq!(last.next_epoch(vec![], vec![]), None);
}

#[test]
fn snapshot_round_trip_and_version() {
    let gc = GroupContext {
        protocol_version: 1,
        cipher_suite: CipherSuite::new(1),
        group_id: vec![0x00, 0x01],
        epoch: 3,
        tree_hash: vec![],
        confirmed_transcript_hash: vec![],
        extensions: ExtensionList::new(),
    };
    let snap = Snapshot::new(gc, vec![None, None, None], vec![4, 5]);
    let bytes = snap.to_bytes();
    assert_eq!(&bytes[..2], &[0, 1]);
    assert_eq!(Snapshot::from_bytes(&bytes), Ok(snap.clone()));
    let mut old = bytes.clone();
    old[1] = 9;
    assert_eq!(Snapshot::from_bytes(&old), Err(SnapshotError::UnsupportedVersion(9)));
    assert_eq!(Snapshot::from_bytes(&bytes[..5]), Err(SnapshotError::Malformed));
}

#[test]
fn reuse_guard_masks_first_four_bytes() {
    let nonce = vec![0xff, 0x00, 0x0f, 0xf0, 0x55, 0x66];
    assert_eq!(apply_reuse_guard(&nonce, [0x0f, 0x01, 0xff, 0x00]), vec![0xf0, 0x01, 0xf0, 0xf0, 0x55, 0x66]);
}

#[test]
fn content_type_changes_the_aad() {
    let app = ContentAad { group_id: vec![0, 1], epoch: 2, content_type: ContentType::Application, authenticated_data: vec![] };
    let commit = ContentAad { content_type: ContentType::Commit, ..app.clone() };
    assert_eq!(app.to_bytes(), vec![2, 0, 1, 0, 0, 0, 0, 0, 0, 0, 2, 1, 0]);
    assert_ne!(app.to_bytes(), commit.to_bytes());
}
