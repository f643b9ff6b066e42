use mls_core::client::{ExternalClient, InMemoryExternalClientConfig, KeyPackageValidationOutput, MlsError};
use mls_core::extension::ExtensionList;
use mls_core::proposal::{KeyPackage, LeafNode, LeafNodeSource, Lifetime, SigningIdentity};
use mls_core::psk::{ExternalPskId, PreSharedKey};
use mls_core::storage::{EpochRecord, GroupDB, WebLocalStateStorage};
use mls_core::codec::Codec;
use mls_core::extension::IdentityProvider;
use mls_core::wire::CipherSuiteProvider;
use mls_core::CipherSuite;

/// Signatures are the key followed by the signed bytes.
struct ConcatSigner;

impl CipherSuiteProvider for ConcatSigner {
    type Error = ();

    fn hash(&self, data: &[u8]) -> Result<Vec<u8>, ()> {
        Ok(data.to_vec())
    }

    fn hash_len(&self) -> usize {
        32
    }

    fn kdf_extract(&self, salt: &[u8], ikm: &[u8]) -> Result<Vec<u8>, ()> {
        Ok([salt, ikm].concat())
    }

    fn kdf_expand(&self, secret: &[u8], _label: &str, _context: &[u8], _len: usize) -> Result<Vec<u8>, ()> {
        Ok(secret.to_vec())
    }

    fn verify(&self, public_key: &[u8], data: &[u8], signature: &[u8]) -> bool {
        signature == [public_key, data].concat().as_slice()
    }
}

/// Accepts every identity but "mallory".
struct NoMallory;

impl IdentityProvider for NoMallory {
    type Error = ();

    fn validate(&self, identity: &SigningIdentity, _timestamp: Option<u64>) -> Result<(), ()> {
        if identity.credential_data == b"mallory".to_vec() { Err(()) } else { Ok(()) }
    }
}

fn sign(kp: &mut KeyPackage) {
    let leaf = &kp.leaf_node;
    let mut tbs = Vec::new();
    leaf.public_key.encode(&mut tbs);
    leaf.signing_identity.encode(&mut tbs);
    leaf.leaf_node_source.encode(&mut tbs);
    kp.leaf_node.signature = [leaf.signing_identity.signature_key.clone(), tbs].concat();
}

fn key_package(source: LeafNodeSource) -> KeyPackage {
    KeyPackage {
        version: 1,
        cipher_suite: CipherSuite::new(1),
        init_key: vec![1; 32],
        leaf_node: LeafNode {
            public_key: vec![2; 32],
            signing_identity: SigningIdentity { signature_key: vec![3; 32], credential_type: 1, credential_data: b"bob".to_vec() },
            leaf_node_source: source,
            signature: vec![4; 64],
        },
        extensions: ExtensionList::new(),
        signature: vec![5; 64],
    }
}

#[test]
fn validate_key_package_reports_expiration() {
    let client = ExternalClient::builder().build_client();
    let (c, i) = (&ConcatSigner, &NoMallory);
    let mut kp = key_package(LeafNodeSource::KeyPackage(Lifetime { not_before: 100, not_after: 200 }));
    assert_eq!(client.validate_key_package(c, i, &kp, 1, CipherSuite::new(1), 150), Err(MlsError::InvalidSignature));
    sign(&mut kp);
    assert_eq!(
        client.validate_key_package(c, i, &kp, 1, CipherSuite::new(1), 150),
        Ok(KeyPackageValidationOutput { expiration_timestamp: 200 })
    );
    assert_eq!(client.validate_key_package(c, i, &kp, 1, CipherSuite::new(1), 201), Err(MlsError::InvalidLifetime));
    assert_eq!(client.validate_key_package(c, i, &kp, 2, CipherSuite::new(1), 150), Err(MlsError::ProtocolVersionMismatch));
    assert_eq!(client.validate_key_package(c, i, &kp, 1, CipherSuite::new(2), 150), Err(MlsError::CipherSuiteMismatch));
    assert_eq!(
        client.validate_key_package(c, i, &kp, 1, CipherSuite::new(0x1234), 150),
        Err(MlsError::UnsupportedCipherSuite(CipherSuite::new(0x1234)))
    );
    let mut forged = kp.clone();
    forged.leaf_node.public_key = vec![9; 32];
    assert_eq!(client.validate_key_package(c, i, &forged, 1, CipherSuite::new(1), 150), Err(MlsError::InvalidSignature));
    let mut mallory = kp.clone();
    mallory.leaf_node.signing_identity.credential_data = b"mallory".to_vec();
    sign(&mut mallory);
    assert_eq!(client.validate_key_package(c, i, &mallory, 1, CipherSuite::new(1), 150), Err(MlsError::IdentityRejected));
    let update = key_package(LeafNodeSource::Update);
    assert_eq!(client.validate_key_package(c, i, &update, 1, CipherSuite::new(1), 150), Err(MlsError::InvalidLeafNodeSource));
}

#[test]
fn config_builders() {
    let config = InMemoryExternalClientConfig::new()
        .clear_cipher_suites()
        .with_cipher_suite(CipherSuite::new(3))
        .with_supported_extension(42)
        .with_external_signing_key(vec![1], vec![10])
        .with_external_signing_key(vec![2], vec![20])
        .with_external_signing_key(vec![1], vec![11])
        .with_max_epoch_jitter(5);
    assert!(config.cipher_suite_supported(CipherSuite::new(3)));
    assert!(!config.cipher_suite_supported(CipherSuite::new(1)));
    assert!(config.version_supported(1));
    assert_eq!(config.external_signing_key(&[1]), Some(&vec![11]));
    assert_eq!(config.external_signing_key(&[3]), None);
    assert_eq!(config.external_signing_keys.len(), 2);
    assert_eq!(config.max_epoch_jitter(), Some(5));
    let caps = config.capabilities();
    assert_eq!(caps.extensions, vec![42]);
    assert_eq!(caps.cipher_suites, vec![CipherSuite::new(3)]);
    assert!(caps.proposals.is_empty());
    let none = config.clear_protocol_versions();
    assert!(!none.version_supported(1));
}

#[test]
fn pre_shared_key_keeps_its_bytes() {
    let key = PreSharedKey::new(vec![1, 2, 3]);
    assert_eq!(key.raw_value(), &[1, 2, 3]);
    assert_eq!(ExternalPskId::new(vec![4]).as_bytes(), &[4]);
}

#[test]
fn storage_keeps_last_epochs() {
    let storage = WebLocalStateStorage::new();
    assert_eq!(storage.max_epoch_retention, 3);
    let mut db = GroupDB::new();
    let epochs: Vec<EpochRecord> = (1..=5).map(|i| EpochRecord { id: i, data: vec![i as u8] }).collect();
    storage.write(&mut db, b"g1".to_vec(), b"state1".to_vec(), epochs);
    assert_eq!(storage.state(&db, b"g1"), Some(&b"state1".to_vec()));
    assert_eq!(storage.max_epoch_id(&db, b"g1"), Some(5));
    assert_eq!(storage.epoch(&db, b"g1", 2), None);
    assert_eq!(storage.epoch(&db, b"g1", 3), Some(&vec![3]));
    storage.write(&mut db, b"g2".to_vec(), b"x".to_vec(), vec![]);
    storage.write(&mut db, b"g1".to_vec(), b"state2".to_vec(), vec![EpochRecord { id: 6, data: vec![6] }]);
    assert_eq!(storage.state(&db, b"g1"), Some(&b"state2".to_vec()));
    assert_eq!(storage.epoch(&db, b"g1", 3), None);
    assert_eq!(storage.group_ids(Some(&db)), vec![b"g1".to_vec(), b"g2".to_vec()]);
    assert!(storage.group_ids(None).is_empty());
    assert_eq!(storage.with_max_epoch_retention(1).max_epoch_retention, 1);
}

#[test]
fn config_identity_and_versions() {
    let config = InMemoryExternalClientConfig::new()
        .with_protocol_version(2)
        .with_signing_identity(SigningIdentity { signature_key: vec![1], credential_type: 1, credential_data: vec![2] }, vec![3]);
    assert_eq!(config.supported_protocol_versions(), &[1, 2]);
    assert_eq!(config.supported_cipher_suites().len(), 7);
    assert_eq!(config.supported_credentials(), &[1]);
    assert_eq!(config.signing_identities.len(), 1);
}

#[test]
fn unsupported_suite_is_reported_first() {
    let client = ExternalClient::builder().build_client();
    let update = key_package(LeafNodeSource::Update);
    assert_eq!(
        client.validate_key_package(&ConcatSigner, &NoMallory, &update, 1, CipherSuite::new(0x1234), 150),
        Err(MlsError::UnsupportedCipherSuite(CipherSuite::new(0x1234)))
    );
}
